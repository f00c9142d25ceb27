//! What one call on a session leaves for the next one.

use crate::decoder;
use crate::decoder::DecodedFrame;
use crate::encoder;
use crate::encoder::EncodedFrame;
use crate::error::Error;
use crate::fourcc::{Fourcc, StreamConfig};
use crate::predict;
use crate::registry;
use crate::registry::{DecoderSession, EncoderSession, FrameError, SessionError, StridedPlane};
use vstd::prelude::*;

verus! {

/// A new session has nothing to hand out and more to come.
pub proof fn law_new_sessions(
    c: Option<StreamConfig>,
    d: DecoderSession,
    k: StreamConfig,
    e: EncoderSession,
)
    requires
        call_ensures(DecoderSession::new, (c,), d),
        call_ensures(EncoderSession::new, (k,), e),
    ensures
        d.config() == c,
        d.waiting() is None,
        !d.ended(),
        e.config() == k,
        e.waiting() is None,
        !e.ended(),
{
}

/// A packet that is sent waits. While one waits, another one is refused, and
/// the one that waits stays.
pub proof fn law_send_packet(s: &mut DecoderSession, data: &[u8], r: Result<(), SessionError>)
    requires
        call_ensures(DecoderSession::send_packet, (s, data), r),
    ensures
        old(s).waiting() is None ==> r is Ok && final(s).waiting() == Some(data@),
        old(s).waiting() is Some ==> r == Err::<(), SessionError>(SessionError::Busy)
            && final(s).waiting() == old(s).waiting(),
        final(s).config() == old(s).config(),
        final(s).ended() == old(s).ended(),
{
}

/// The packet that was sent is the one that is taken out, with the
/// configuration of the session; after that none waits.
pub proof fn law_sent_is_taken(
    a: &mut DecoderSession,
    data: &[u8],
    sent: Result<(), SessionError>,
    b: &mut DecoderSession,
    r: Result<(StreamConfig, Vec<u8>), SessionError>,
)
    requires
        call_ensures(DecoderSession::send_packet, (a, data), sent),
        sent is Ok,
        *old(b) == *final(a),
        call_ensures(DecoderSession::take_packet, (b,), r),
    ensures
        old(a).config() is None ==> r == Err::<(StreamConfig, Vec<u8>), SessionError>(
            SessionError::NotConfigured,
        ),
        old(a).config() matches Some(c) ==> r matches Ok(p) && p.0 == c && p.1@ == data@,
        final(b).waiting() is None,
        final(b).config() == old(a).config(),
        final(b).ended() == old(a).ended(),
{
}

/// Without a packet a decoding session asks for more, or says that it is over
/// once it was told that no more will come.
pub proof fn law_nothing_to_decode(
    s: &mut DecoderSession,
    r: Result<DecodedFrame, SessionError>,
    t: &mut DecoderSession,
    q: Result<(StreamConfig, Vec<u8>), SessionError>,
)
    requires
        call_ensures(DecoderSession::receive_frame, (s,), r),
        call_ensures(DecoderSession::take_packet, (t,), q),
        old(s).waiting() is None,
        old(t).waiting() is None,
    ensures
        !old(s).ended() ==> r == Err::<DecodedFrame, SessionError>(SessionError::NeedMore),
        old(s).ended() ==> r == Err::<DecodedFrame, SessionError>(SessionError::Eof),
        !old(t).ended() ==> q == Err::<(StreamConfig, Vec<u8>), SessionError>(
            SessionError::NeedMore,
        ),
        old(t).ended() ==> q == Err::<(StreamConfig, Vec<u8>), SessionError>(SessionError::Eof),
        final(s).waiting() is None,
        final(s).ended() == old(s).ended(),
        final(s).config() == old(s).config(),
{
}

/// The packet that was sent is the one that is decoded, and a decoded packet is
/// gone, whether it was good or not.
pub proof fn law_sent_is_decoded(
    a: &mut DecoderSession,
    data: &[u8],
    sent: Result<(), SessionError>,
    b: &mut DecoderSession,
    r: Result<DecodedFrame, SessionError>,
)
    requires
        call_ensures(DecoderSession::send_packet, (a, data), sent),
        sent is Ok,
        *old(b) == *final(a),
        call_ensures(DecoderSession::receive_frame, (b,), r),
    ensures
        old(a).config() is None ==> r == Err::<DecodedFrame, SessionError>(
            SessionError::NotConfigured,
        ),
        old(a).config() matches Some(c) ==> match decoder::frame_outcome(c, data@, false) {
            Ok(planes) => r matches Ok(f) && decoder::samples_of(f.planes@) == planes,
            Err(e) => r == Err::<DecodedFrame, SessionError>(SessionError::Codec(e)),
        },
        final(b).waiting() is None,
        final(b).config() == old(a).config(),
        final(b).ended() == old(a).ended(),
{
}

/// Good parts become the configuration of a session; bad ones leave it as it
/// was.
pub proof fn law_configure(
    s: &mut DecoderSession,
    f: Fourcc,
    width: u32,
    height: u32,
    extradata: &[u8],
    r: Result<(), Error>,
)
    requires
        call_ensures(DecoderSession::configure, (s, f, width, height, extradata), r),
    ensures
        registry::config_error(f, width, height, extradata@) matches Some(e) ==> r == Err::<
            (),
            Error,
        >(e) && final(s).config() == old(s).config(),
        registry::config_error(f, width, height, extradata@) is None ==> r is Ok && {
            &&& final(s).config() matches Some(c)
            &&& c.fourcc == f
            &&& c.width == width
            &&& c.height == height
            &&& c.extradata.encoded() == extradata@.take(16)
        },
        final(s).waiting() == old(s).waiting(),
        final(s).ended() == old(s).ended(),
{
}

/// To say that no more will come changes nothing else.
pub proof fn law_flush(d: &mut DecoderSession, e: &mut EncoderSession)
    requires
        call_ensures(DecoderSession::flush, (d,), ()),
        call_ensures(EncoderSession::flush, (e,), ()),
    ensures
        final(d).ended(),
        final(d).waiting() == old(d).waiting(),
        final(d).config() == old(d).config(),
        final(e).ended(),
        final(e).waiting() == old(e).waiting(),
        final(e).config() == old(e).config(),
{
}

/// A frame that is sent waits as its packet. While a packet waits, a frame is
/// refused, and so is one with bad planes; a refused frame changes nothing.
pub proof fn law_send_frame<F: Fn(&[u8], &[u8]) -> bool>(
    s: &mut EncoderSession,
    planes: &[StridedPlane],
    beats: F,
    r: Result<(), FrameError>,
)
    requires
        call_ensures(EncoderSession::send_frame::<F>, (s, planes, beats), r),
    ensures
        old(s).waiting() is Some ==> r == Err::<(), FrameError>(FrameError::Busy),
        old(s).waiting() is None ==> match registry::planes_error(old(s).config(), planes@) {
            Some(e) => r == Err::<(), FrameError>(e),
            None => r is Ok,
        },
        r is Err ==> final(s).waiting() == old(s).waiting(),
        r is Ok ==> exists|f: EncodedFrame|
            {
                &&& final(s).waiting() == Some(#[trigger] encoder::encoded_payload(f))
                &&& f.fourcc == old(s).config().fourcc
                &&& f.width == old(s).config().width
                &&& f.height == old(s).config().height
                &&& f.num_slices == old(s).config().extradata.slices()
                &&& encoder::input_samples(f.planes@) == registry::tight_planes(
                    old(s).config(),
                    planes@,
                )
                &&& predict::chosen(
                    beats,
                    registry::tight_planes(old(s).config(), planes@)[0],
                    old(s).config().width as int,
                    old(s).config().height as int,
                    f.predictor,
                )
            },
        final(s).config() == old(s).config(),
        final(s).ended() == old(s).ended(),
{
    if r is Ok {
        let f = choose|f: EncodedFrame| #[trigger]
            registry::packs(f, old(s).config(), planes@) && predict::chosen(
                beats,
                registry::tight_planes(old(s).config(), planes@)[0],
                old(s).config().width as int,
                old(s).config().height as int,
                f.predictor,
            ) && final(s).waiting() == Some(encoder::encoded_payload(f));
        assert(final(s).waiting() == Some(encoder::encoded_payload(f)));
    }
}

/// The packet that was stored is the one that is handed out, once.
pub proof fn law_stored_is_received(
    a: &mut EncoderSession,
    packet: Vec<u8>,
    b: &mut EncoderSession,
    r: Result<Vec<u8>, SessionError>,
)
    requires
        call_ensures(EncoderSession::store_packet, (a, packet), ()),
        *old(b) == *final(a),
        call_ensures(EncoderSession::receive_packet, (b,), r),
    ensures
        r matches Ok(p) && p@ == packet@,
        final(b).waiting() is None,
        final(b).config() == old(a).config(),
        final(b).ended() == old(a).ended(),
{
}

/// Without a packet an encoding session asks for more, or says that it is over
/// once it was told that no more will come.
pub proof fn law_nothing_to_receive(
    s: &mut EncoderSession,
    r: Result<Vec<u8>, SessionError>,
    b: bool,
)
    requires
        call_ensures(EncoderSession::receive_packet, (s,), r),
        call_ensures(EncoderSession::has_packet, (&*old(s),), b),
        !b,
    ensures
        old(s).ended() ==> r == Err::<Vec<u8>, SessionError>(SessionError::Eof),
        !old(s).ended() ==> r == Err::<Vec<u8>, SessionError>(SessionError::NeedMore),
        final(s).waiting() is None,
        final(s).ended() == old(s).ended(),
        final(s).config() == old(s).config(),
{
}

} // verus!
