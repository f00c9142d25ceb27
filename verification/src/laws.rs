//! Laws that relate the encoder, the decoder and the inspector.

use crate::bitstream;
use crate::bytes;
use crate::canonical;
use crate::canonical::Shape;
use crate::cheapest;
use crate::decoder;
use crate::decoder::{DecodedFrame, PlaneLabel};
use crate::encoder;
use crate::encoder::EncodedFrame;
use crate::error::Error;
use crate::fourcc::{Extradata, Fourcc, Predictor, StreamConfig};
use crate::inspect;
use crate::inspect::FrameLayout;
use crate::layout_laws;
use crate::lengths;
use crate::payload;
use crate::predict;
use crate::registry;
use crate::registry::StridedPlane;
use vstd::arithmetic::mul::*;
use vstd::arithmetic::power2::*;
use vstd::prelude::*;

verus! {

/// The packed slices of plane `p` of a frame.
pub open spec fn plane_parts(frame: EncodedFrame, p: int) -> Seq<Seq<u8>> {
    let slices = encoder::frame_residuals(frame, p);
    encoder::packed_slices(encoder::plane_descriptor(slices), slices)
}

/// The slice data of every plane is short enough for its 32-bit end offsets.
pub open spec fn offsets_fit(frame: EncodedFrame) -> bool {
    forall|p: int|
        0 <= p < frame.fourcc.planes() ==> bytes::concat(
            #[trigger] plane_parts(frame, p),
        ).len() <= u32::MAX
}

/// A configuration names the code, the dimensions and the number of slices of
/// a frame.
pub open spec fn configured(cfg: StreamConfig, frame: EncodedFrame) -> bool {
    &&& cfg.fourcc == frame.fourcc
    &&& cfg.width == frame.width
    &&& cfg.height == frame.height
    &&& cfg.extradata.slices() == frame.num_slices
}

/// Words inside a part of a byte string.
proof fn lemma_le32_part(all: Seq<u8>, a: int, part: Seq<u8>, i: int)
    requires
        0 <= a,
        a + part.len() <= all.len(),
        all.subrange(a, a + part.len()) == part,
        0 <= i,
        i + 4 <= part.len(),
    ensures
        bytes::le32(all, a + i) == bytes::le32(part, i),
{
    assert(part[i] == all[a + i]);
    assert(part[i + 1] == all[a + i + 1]);
    assert(part[i + 2] == all[a + i + 2]);
    assert(part[i + 3] == all[a + i + 3]);
}

/// Entry `s` of an offset table.
proof fn lemma_offset_table(blobs: Seq<Seq<u8>>, k: nat, s: int)
    requires
        0 <= s < k <= blobs.len(),
        bytes::concat(blobs).len() <= u32::MAX,
    ensures
        encoder::offset_table(blobs, k).len() == 4 * k,
        bytes::le32(encoder::offset_table(blobs, k), 4 * s) == bytes::concat(
            blobs.take(s + 1),
        ).len(),
    decreases k,
{
    let m = (k - 1) as nat;
    let head = encoder::offset_table(blobs, m);
    let end = bytes::concat(blobs.take(k as int)).len();
    bytes::lemma_concat_part(blobs, m as int);
    bytes::lemma_le_bytes_read_back(end as u32);
    let table = encoder::offset_table(blobs, k);
    if m == 0 {
        assert(head.len() == 0);
    } else {
        lemma_offset_table(blobs, m, if s < m {
            s
        } else {
            0
        });
    }
    if s < m {
        assert(table.subrange(0, head.len() as int) =~= head);
        lemma_le32_part(table, 0, head, 4 * s);
    } else {
        let word = bytes::le_bytes(end as u32);
        assert(table.subrange(4 * m as int, 4 * m as int + 4) =~= word);
        lemma_le32_part(table, 4 * m as int, word, 0);
    }
}

/// A packed slice is a whole number of words.
proof fn lemma_part_words(d: Seq<u8>, res: Seq<u8>)
    requires
        encoder::pack_outcome(d, res) is Ok,
    ensures
        (encoder::pack_outcome(d, res)->Ok_0).len() % 4 == 0,
{
}

/// The first slices are a whole number of words.
proof fn lemma_parts_words(d: Seq<u8>, slices: Seq<Seq<u8>>, k: nat)
    requires
        k <= slices.len(),
        forall|s: int|
            0 <= s < slices.len() ==> encoder::pack_outcome(d, #[trigger] slices[s]) is Ok,
    ensures
        bytes::concat(encoder::packed_slices(d, slices).take(k as int)).len() % 4 == 0,
    decreases k,
{
    let parts = encoder::packed_slices(d, slices);
    if k == 0 {
        assert(parts.take(0).len() == 0);
    } else {
        lemma_parts_words(d, slices, (k - 1) as nat);
        bytes::lemma_concat_take(parts, k - 1);
        lemma_part_words(d, slices[k - 1]);
    }
}

/// The bytes of a plane with descriptor `d` and the given residuals stand at
/// `o` in a payload.
spec fn stands(data: Seq<u8>, o: int, d: Seq<u8>, slices: Seq<Seq<u8>>) -> bool {
    let blob = encoder::plane_blob(d, encoder::packed_slices(d, slices));
    &&& d.len() == 256
    &&& forall|s: int|
        0 <= s < slices.len() ==> encoder::pack_outcome(d, #[trigger] slices[s]) is Ok
    &&& bytes::concat(encoder::packed_slices(d, slices)).len() <= u32::MAX
    &&& 0 <= o
    &&& o + blob.len() <= data.len() - 4
    &&& data.subrange(o, o + blob.len()) == blob
}

/// The end offset of slice `s` of a plane that stands at `o` in a payload.
proof fn lemma_plane_table(data: Seq<u8>, o: int, d: Seq<u8>, slices: Seq<Seq<u8>>, s: int)
    requires
        stands(data, o, d, slices),
        0 <= s < slices.len(),
    ensures
        payload::slice_end(data, o + 256, s) == bytes::concat(
            encoder::packed_slices(d, slices).take(s + 1),
        ).len(),
        encoder::plane_blob(d, encoder::packed_slices(d, slices)).len() == 256 + 4 * slices.len()
            + bytes::concat(encoder::packed_slices(d, slices)).len(),
{
    let parts = encoder::packed_slices(d, slices);
    let n = slices.len();
    let blob = encoder::plane_blob(d, parts);
    let table = encoder::offset_table(parts, n);
    lemma_offset_table(parts, n, s);
    assert(blob.subrange(256, 256int + table.len()) =~= table);
    lemma_le32_part(blob, 256, table, 4 * s);
    lemma_le32_part(data, o, blob, 256 + 4 * s);
}

/// The first end offsets of a plane that stands at `o` in a payload are good.
proof fn lemma_plane_offsets(data: Seq<u8>, o: int, d: Seq<u8>, slices: Seq<Seq<u8>>, k: nat)
    requires
        stands(data, o, d, slices),
        k <= slices.len(),
    ensures
        payload::offsets_error(data, o + 256, k) is None,
    decreases k,
{
    if k > 0 {
        let parts = encoder::packed_slices(d, slices);
        let s = k - 1;
        lemma_plane_offsets(data, o, d, slices, s as nat);
        lemma_plane_table(data, o, d, slices, s);
        bytes::lemma_concat_take(parts, s);
        if s > 0 {
            lemma_plane_table(data, o, d, slices, s - 1);
        }
        lemma_parts_words(d, slices, k);
    }
}

/// The structure of a plane that stands at `o` in a payload.
proof fn lemma_plane_structure(data: Seq<u8>, o: int, d: Seq<u8>, slices: Seq<Seq<u8>>)
    requires
        stands(data, o, d, slices),
        slices.len() >= 1,
    ensures
        payload::plane_error(data, o, slices.len()) is None,
        payload::plane_end(data, o, slices.len()) == o + encoder::plane_blob(
            d,
            encoder::packed_slices(d, slices),
        ).len(),
        data.subrange(o, o + 256) == d,
{
    let parts = encoder::packed_slices(d, slices);
    let n = slices.len();
    let blob = encoder::plane_blob(d, parts);
    lemma_plane_table(data, o, d, slices, n - 1);
    lemma_plane_offsets(data, o, d, slices, n);
    assert(parts.take(n as int) =~= parts);
    assert(data.subrange(o, o + 256) =~= d) by {
        assert forall|i: int| 0 <= i < 256 implies data[o + i] == d[i] by {
            assert(data.subrange(o, o + blob.len())[i] == blob[i]);
        }
    }
}

/// The data of slice `s` of a plane that stands at `o` in a payload.
proof fn lemma_slice_place(data: Seq<u8>, o: int, d: Seq<u8>, slices: Seq<Seq<u8>>, s: int)
    requires
        stands(data, o, d, slices),
        0 <= s < slices.len(),
    ensures
        data.subrange(
            payload::data_start(o, slices.len()) + payload::slice_begin(data, o + 256, s),
            payload::data_start(o, slices.len()) + payload::slice_end(data, o + 256, s),
        ) == encoder::packed_slices(d, slices)[s],
{
    let parts = encoder::packed_slices(d, slices);
    let n = slices.len();
    let blob = encoder::plane_blob(d, parts);
    let all = bytes::concat(parts);
    lemma_offset_table(parts, n, 0);
    lemma_plane_table(data, o, d, slices, s);
    let a = bytes::concat(parts.take(s)).len() as int;
    let b = bytes::concat(parts.take(s + 1)).len() as int;
    if s > 0 {
        lemma_plane_table(data, o, d, slices, s - 1);
    } else {
        assert(parts.take(0).len() == 0);
    }
    bytes::lemma_concat_part(parts, s);
    let start = payload::data_start(o, n);
    assert forall|i: int| 0 <= i < b - a implies data[start + a + i] == parts[s][i] by {
        assert(all.subrange(a, b)[i] == all[a + i]);
        assert(blob[256 + 4 * n + a + i] == all[a + i]);
        assert(data.subrange(o, o + blob.len())[256 + 4 * n + a + i] == blob[256 + 4 * n + a + i]);
    }
    assert(data.subrange(start + a, start + b) =~= parts[s]);
}

/// The residuals of plane `p` can be packed with its descriptor.
proof fn lemma_plane_packs(frame: EncodedFrame, p: int)
    requires
        frame.input_error() is None,
        frame.countable(),
        offsets_fit(frame),
        0 <= p < frame.fourcc.planes(),
    ensures
        ({
            let slices = encoder::frame_residuals(frame, p);
            let d = encoder::plane_descriptor(slices);
            &&& 1 <= frame.num_slices <= 256
            &&& slices.len() == frame.num_slices
            &&& d.len() == 256
            &&& canonical::shape(d) is Ok
            &&& forall|s: int|
                0 <= s < slices.len() ==> encoder::pack_outcome(d, #[trigger] slices[s]) is Ok
            &&& bytes::concat(encoder::packed_slices(d, slices)).len() <= u32::MAX
        }),
{
    let slices = encoder::frame_residuals(frame, p);
    encoder::lemma_frame_residuals(frame, p);
    encoder::lemma_plane_descriptor(slices);
    assert(plane_parts(frame, p) == encoder::packed_slices(
        encoder::plane_descriptor(slices),
        slices,
    ));
}

/// Where the blob of plane `p` stands in the payload of a frame.
proof fn lemma_blob_place(frame: EncodedFrame, p: int)
    requires
        0 <= p < frame.fourcc.planes(),
    ensures
        ({
            let data = encoder::encoded_payload(frame);
            let blobs = encoder::encoded_planes(frame, frame.fourcc.planes());
            let o = bytes::concat(blobs.take(p)).len() as int;
            let blob = encoder::encoded_plane(frame, p);
            &&& data.len() == bytes::concat(blobs).len() + 4
            &&& o + blob.len() <= data.len() - 4
            &&& data.subrange(o, o + blob.len()) == blob
            &&& bytes::concat(blobs.take(p + 1)).len() == o + blob.len()
        }),
{
    let data = encoder::encoded_payload(frame);
    let blobs = encoder::encoded_planes(frame, frame.fourcc.planes());
    let all = bytes::concat(blobs);
    let o = bytes::concat(blobs.take(p)).len() as int;
    let blob = encoder::encoded_plane(frame, p);
    assert(blobs[p] == blob);
    bytes::lemma_concat_part(blobs, p);
    assert(data.subrange(o, o + blob.len()) =~= all.subrange(o, o + blob.len()));
}

/// The structure of the first planes of the payload of a frame is good.
proof fn lemma_plane_place(frame: EncodedFrame, p: nat)
    requires
        frame.input_error() is None,
        frame.countable(),
        offsets_fit(frame),
        p <= frame.fourcc.planes(),
    ensures
        ({
            let data = encoder::encoded_payload(frame);
            let n = frame.num_slices as nat;
            let blobs = encoder::encoded_planes(frame, frame.fourcc.planes());
            &&& payload::plane_offset(data, n, p) == bytes::concat(blobs.take(p as int)).len()
            &&& payload::planes_error(data, n, p, true) is None
        }),
    decreases p,
{
    let data = encoder::encoded_payload(frame);
    let n = frame.num_slices as nat;
    let blobs = encoder::encoded_planes(frame, frame.fourcc.planes());
    if p == 0 {
        assert(blobs.take(0).len() == 0);
    } else {
        let q = (p - 1) as nat;
        lemma_plane_place(frame, q);
        lemma_blob_place(frame, q as int);
        lemma_plane_packs(frame, q as int);
        let slices = encoder::frame_residuals(frame, q as int);
        let d = encoder::plane_descriptor(slices);
        let o = payload::plane_offset(data, n, q);
        assert(encoder::encoded_plane(frame, q as int) == encoder::plane_blob(
            d,
            encoder::packed_slices(d, slices),
        ));
        lemma_plane_structure(data, o, d, slices);
        assert(payload::descriptor(data, n, q) == d);
    }
}

/// Where slice `s` of plane `p` stands in the payload of a frame.
pub proof fn lemma_slice_found(frame: EncodedFrame, p: nat, s: int)
    requires
        frame.input_error() is None,
        frame.countable(),
        offsets_fit(frame),
        p < frame.fourcc.planes(),
        0 <= s < frame.num_slices,
    ensures
        ({
            let data = encoder::encoded_payload(frame);
            let n = frame.num_slices as nat;
            let slices = encoder::frame_residuals(frame, p as int);
            let d = encoder::plane_descriptor(slices);
            &&& payload::descriptor(data, n, p) == d
            &&& payload::slice_data(data, n, p, s) == encoder::packed_slices(d, slices)[s]
        }),
{
    let data = encoder::encoded_payload(frame);
    let n = frame.num_slices as nat;
    let slices = encoder::frame_residuals(frame, p as int);
    let d = encoder::plane_descriptor(slices);
    lemma_plane_place(frame, p);
    lemma_blob_place(frame, p as int);
    lemma_plane_packs(frame, p as int);
    let o = payload::plane_offset(data, n, p);
    assert(encoder::encoded_plane(frame, p as int) == encoder::plane_blob(
        d,
        encoder::packed_slices(d, slices),
    ));
    lemma_plane_structure(data, o, d, slices);
    lemma_slice_place(data, o, d, slices, s);
}

/// The number of residuals of slice `s` of plane `p`.
pub proof fn lemma_slice_len(frame: EncodedFrame, p: int, s: int)
    requires
        frame.input_error() is None,
        frame.countable(),
        0 <= p < frame.fourcc.planes(),
        0 <= s < frame.num_slices,
    ensures
        encoder::frame_residuals(frame, p)[s].len() == predict::row_count(
            frame.dims(p).1 as int,
            frame.num_slices as int,
            s,
        ) * frame.dims(p).0,
{
    let (w, h) = frame.dims(p);
    let n = frame.num_slices as int;
    let a = predict::row_start(h as int, n, s);
    let b = predict::row_start(h as int, n, s + 1);
    encoder::lemma_frame_residuals(frame, p);
    predict::law_rows_partition(h as int, n, s);
    predict::lemma_rows_inside(a, b, h as int, w as int);
}

/// Packed residuals decode to the residuals.
proof fn lemma_packed_decodes(slices: Seq<Seq<u8>>, s: int, plane: usize)
    requires
        0 < bytes::concat(slices).len() <= u64::MAX,
        0 <= s < slices.len(),
    ensures
        ({
            let d = encoder::plane_descriptor(slices);
            let part = encoder::packed_slices(d, slices)[s];
            let n = slices[s].len();
            &&& canonical::decode_outcome(d, part, n) == Ok::<Seq<u8>, Error>(slices[s])
            &&& canonical::strict_outcome(d, part, n, plane, s as usize) == Ok::<Seq<u8>, Error>(
                slices[s],
            )
        }),
{
    let d = encoder::plane_descriptor(slices);
    let res = slices[s];
    encoder::lemma_plane_descriptor(slices);
    assert(encoder::pack_outcome(d, slices[s]) is Ok);
    match canonical::shape(d) {
        Ok(Shape::Coded) => {
            assert(canonical::all_coded(d, slices[s]));
            canonical::law_slice_round_trip(d, res, plane, s as usize);
        },
        Ok(Shape::Single(x)) => {
            assert(slices[s] == bytes::repeated(x, slices[s].len()));
            let part = encoder::packed_slices(d, slices)[s];
            assert(canonical::first_set(
                bitstream::stream_bits(part),
                0,
                canonical::padding_end(part, 0),
            ) is None);
        },
        Err(_) => {},
    }
}

/// What slice `s` of plane `p` of an encoded frame decodes to.
proof fn lemma_slice_decodes(cfg: StreamConfig, frame: EncodedFrame, p: nat, s: int, strict: bool)
    requires
        frame.input_error() is None,
        frame.countable(),
        offsets_fit(frame),
        configured(cfg, frame),
        p < frame.fourcc.planes(),
        0 <= s < frame.num_slices,
    ensures
        decoder::residuals_outcome(cfg, encoder::encoded_payload(frame), p, s, strict) == Ok::<
            Seq<u8>,
            Error,
        >(encoder::frame_residuals(frame, p as int)[s]),
{
    let slices = encoder::frame_residuals(frame, p as int);
    lemma_slice_found(frame, p, s);
    lemma_slice_len(frame, p as int, s);
    encoder::lemma_frame_residuals(frame, p as int);
    lemma_packed_decodes(slices, s, p as usize);
    if slices[s].len() == 0 {
        assert(slices[s] =~= Seq::<u8>::empty());
    }
}

/// What the first slices of plane `p` of an encoded frame decode to.
proof fn lemma_joined_decodes(
    cfg: StreamConfig,
    frame: EncodedFrame,
    p: nat,
    k: nat,
    strict: bool,
)
    requires
        frame.input_error() is None,
        frame.countable(),
        offsets_fit(frame),
        configured(cfg, frame),
        p < frame.fourcc.planes(),
        k <= frame.num_slices,
        decoder::predictor_of(encoder::encoded_payload(frame)) == frame.predictor,
    ensures
        decoder::joined(
            decoder::strips(cfg, encoder::encoded_payload(frame), p, strict),
            k,
        ) == Ok::<Seq<u8>, Error>(
            predict::restored_plane(
                frame.predictor,
                encoder::frame_residuals(frame, p as int).take(k as int),
                frame.dims(p as int).0 as int,
            ),
        ),
    decreases k,
{
    let slices = encoder::frame_residuals(frame, p as int);
    if k == 0 {
        assert(slices.take(0).len() == 0);
    } else {
        let s = k - 1;
        lemma_joined_decodes(cfg, frame, p, s as nat, strict);
        lemma_slice_decodes(cfg, frame, p, s, strict);
        assert(slices.take(k as int).drop_last() =~= slices.take(s));
        assert(slices.take(k as int).last() == slices[s]);
    }
}

/// What plane `p` of an encoded frame decodes to.
proof fn lemma_plane_decodes(cfg: StreamConfig, frame: EncodedFrame, p: nat, strict: bool)
    requires
        frame.input_error() is None,
        frame.countable(),
        offsets_fit(frame),
        configured(cfg, frame),
        p < frame.fourcc.planes(),
        decoder::predictor_of(encoder::encoded_payload(frame)) == frame.predictor,
    ensures
        decoder::plane_outcome(cfg, encoder::encoded_payload(frame), p, strict) == Ok::<
            Seq<u8>,
            Error,
        >(encoder::decolored(frame.fourcc, encoder::input_samples(frame.planes@))[p as int]),
{
    let plane = encoder::decolored(frame.fourcc, encoder::input_samples(frame.planes@))[p as int];
    let (w, h) = frame.dims(p as int);
    let n = frame.num_slices as nat;
    let slices = encoder::frame_residuals(frame, p as int);
    lemma_joined_decodes(cfg, frame, p, n, strict);
    encoder::lemma_frame_residuals(frame, p as int);
    encoder::lemma_plane_size(frame, p as int);
    predict::law_restore_plane(frame.predictor, plane, w as int, h as int, n, n);
    predict::law_rows_partition(h as int, n as int, 0);
    assert(slices.take(n as int) =~= slices);
    assert(plane.take(h * w) =~= plane);
}

/// What the first planes of an encoded frame decode to.
proof fn lemma_planes_decode(cfg: StreamConfig, frame: EncodedFrame, k: nat, strict: bool)
    requires
        frame.input_error() is None,
        frame.countable(),
        offsets_fit(frame),
        configured(cfg, frame),
        k <= frame.fourcc.planes(),
        decoder::predictor_of(encoder::encoded_payload(frame)) == frame.predictor,
    ensures
        decoder::planes_outcome(cfg, encoder::encoded_payload(frame), k, strict) == Ok::<
            Seq<Seq<u8>>,
            Error,
        >(
            encoder::decolored(frame.fourcc, encoder::input_samples(frame.planes@)).take(k as int),
        ),
    decreases k,
{
    let colors = encoder::decolored(frame.fourcc, encoder::input_samples(frame.planes@));
    if k == 0 {
        assert(colors.take(0) =~= Seq::<Seq<u8>>::empty());
    } else {
        let p = (k - 1) as nat;
        lemma_planes_decode(cfg, frame, p, strict);
        lemma_plane_decodes(cfg, frame, p, strict);
        assert(colors.take(k as int) =~= colors.take(p as int).push(colors[p as int]));
    }
}

/// Undoing the decorrelation of a frame's planes gives the planes.
proof fn lemma_recolor(fourcc: Fourcc, planes: Seq<Seq<u8>>)
    requires
        planes.len() == fourcc.planes(),
        fourcc.is_rgb() ==> planes[1].len() == planes[0].len() && planes[2].len()
            == planes[0].len(),
    ensures
        decoder::recolored(fourcc, encoder::decolored(fourcc, planes)) == planes,
{
    if fourcc.is_rgb() {
        predict::law_decorrelation_inverse(planes[0], planes[1]);
        predict::law_decorrelation_inverse(planes[0], planes[2]);
    }
    assert(decoder::recolored(fourcc, encoder::decolored(fourcc, planes)) =~= planes);
}

/// Decoding an encoded frame gives the frame back: every sample of every
/// plane, the predictor, and nothing else in the frame-info word. Strict
/// decoding accepts the frame too. The slice data of each plane has to be
/// short enough for its 32-bit end offsets.
pub proof fn law_round_trip(cfg: StreamConfig, frame: EncodedFrame, strict: bool)
    requires
        frame.input_error() is None,
        frame.countable(),
        offsets_fit(frame),
        configured(cfg, frame),
    ensures
        decoder::frame_outcome(cfg, encoder::encoded_payload(frame), strict) == Ok::<
            Seq<Seq<u8>>,
            Error,
        >(encoder::input_samples(frame.planes@)),
        decoder::predictor_of(encoder::encoded_payload(frame)) == frame.predictor,
        payload::frame_info(encoder::encoded_payload(frame)) == 0x100 * frame.predictor.mode(),
{
    let data = encoder::encoded_payload(frame);
    let n = frame.num_slices as nat;
    let count = frame.fourcc.planes();
    let blobs = encoder::encoded_planes(frame, count);
    let info = (0x100 * frame.predictor.mode()) as u32;
    let samples = encoder::input_samples(frame.planes@);
    lemma_plane_place(frame, count);
    assert(blobs.take(count as int) =~= blobs);
    bytes::lemma_le_bytes_read_back(info);
    let tail = bytes::le_bytes(info);
    assert(data.subrange(data.len() - 4, data.len() as int) =~= tail);
    lemma_le32_part(data, data.len() - 4, tail, 0);
    assert(payload::frame_info(data) == info);
    lemma_planes_decode(cfg, frame, count, strict);
    let colors = encoder::decolored(frame.fourcc, samples);
    assert(colors.take(count as int) =~= colors);
    if frame.fourcc.is_rgb() {
        encoder::lemma_sizes(frame, count, 0);
        encoder::lemma_sizes(frame, count, 1);
        encoder::lemma_sizes(frame, count, 2);
        encoder::lemma_plane_size(frame, 0);
        encoder::lemma_plane_size(frame, 1);
        encoder::lemma_plane_size(frame, 2);
    }
    lemma_recolor(frame.fourcc, samples);
}

/// The error says that padding is set in a slice of one of the first `planes`
/// planes.
pub open spec fn padding_error(e: Error, planes: nat, slices: nat) -> bool {
    e matches Error::NonZeroPadding { plane, slice, .. } && plane < planes && slice < slices
}

/// Strict decoding of a slice gives what plain decoding gives, or an error
/// that says where padding is set.
proof fn lemma_strict_slice(cfg: StreamConfig, data: Seq<u8>, p: nat, s: int)
    requires
        p < 4,
        0 <= s < cfg.extradata.slices(),
    ensures
        ({
            let strict = decoder::strip_outcome(cfg, data, p, s, true);
            strict == decoder::strip_outcome(cfg, data, p, s, false) || (strict matches Err(e)
                && padding_error(e, p + 1, cfg.extradata.slices()))
        }),
{
}

proof fn lemma_strict_joined(cfg: StreamConfig, data: Seq<u8>, p: nat, k: nat)
    requires
        p < 4,
        k <= cfg.extradata.slices(),
    ensures
        ({
            let strict = decoder::joined(decoder::strips(cfg, data, p, true), k);
            strict == decoder::joined(decoder::strips(cfg, data, p, false), k) || (strict matches Err(
                e,
            ) && padding_error(e, p + 1, cfg.extradata.slices()))
        }),
    decreases k,
{
    if k > 0 {
        lemma_strict_joined(cfg, data, p, (k - 1) as nat);
        lemma_strict_slice(cfg, data, p, k - 1);
    }
}

proof fn lemma_strict_planes(cfg: StreamConfig, data: Seq<u8>, k: nat)
    requires
        k <= 4,
    ensures
        ({
            let strict = decoder::planes_outcome(cfg, data, k, true);
            strict == decoder::planes_outcome(cfg, data, k, false) || (strict matches Err(e)
                && padding_error(e, k, cfg.extradata.slices()))
        }),
    decreases k,
{
    if k > 0 {
        lemma_strict_planes(cfg, data, (k - 1) as nat);
        lemma_strict_joined(cfg, data, (k - 1) as nat, cfg.extradata.slices());
    }
}

/// Strict decoding gives what plain decoding gives, frame or error, or else
/// an error that says in which slice of which plane padding is set.
pub proof fn law_strict_adds_padding_errors(cfg: StreamConfig, data: Seq<u8>)
    ensures
        ({
            let strict = decoder::frame_outcome(cfg, data, true);
            strict == decoder::frame_outcome(cfg, data, false) || (strict matches Err(e)
                && padding_error(e, cfg.fourcc.planes(), cfg.extradata.slices()))
        }),
{
    lemma_strict_planes(cfg, data, cfg.fourcc.planes());
}

/// A payload that decodes strictly decodes to the same samples without the
/// strict rule.
pub proof fn law_strict_is_stricter(cfg: StreamConfig, data: Seq<u8>)
    requires
        decoder::frame_outcome(cfg, data, true) is Ok,
    ensures
        decoder::frame_outcome(cfg, data, false) == decoder::frame_outcome(cfg, data, true),
{
    law_strict_adds_padding_errors(cfg, data);
}

/// Two decoders of one payload give the same frame or the same error, be they
/// serial or parallel.
pub proof fn law_decoders_agree(
    a: Result<DecodedFrame, Error>,
    b: Result<DecodedFrame, Error>,
    cfg: StreamConfig,
    data: Seq<u8>,
)
    requires
        decoder::decodes(a, cfg, data, false),
        decoder::decodes(b, cfg, data, false),
    ensures
        match (a, b) {
            (Ok(x), Ok(y)) => {
                &&& x.fourcc == y.fourcc
                &&& x.width == y.width
                &&& x.height == y.height
                &&& x.predictor == y.predictor
                &&& x.frame_info == y.frame_info
                &&& x.planes@.len() == y.planes@.len()
                &&& forall|i: int|
                    0 <= i < x.planes@.len() ==> {
                        &&& (#[trigger] x.planes@[i]).label == y.planes@[i].label
                        &&& x.planes@[i].width == y.planes@[i].width
                        &&& x.planes@[i].height == y.planes@[i].height
                        &&& x.planes@[i].samples@ == y.planes@[i].samples@
                    }
            },
            (Err(x), Err(y)) => x == y,
            _ => false,
        },
{
    match (a, b) {
        (Ok(x), Ok(y)) => {
            let sx = decoder::samples_of(x.planes@);
            let sy = decoder::samples_of(y.planes@);
            assert(sx == sy);
            assert forall|i: int| 0 <= i < x.planes@.len() implies {
                &&& (#[trigger] x.planes@[i]).label == y.planes@[i].label
                &&& x.planes@[i].width == y.planes@[i].width
                &&& x.planes@[i].height == y.planes@[i].height
                &&& x.planes@[i].samples@ == y.planes@[i].samples@
            } by {
                assert(sx[i] == sy[i]);
                assert(y.planes@[i].label == PlaneLabel::label_of(cfg.fourcc, i));
            }
        },
        _ => {},
    }
}

/// Two encoders of one frame give the same bytes or the same error, be they
/// serial or parallel.
pub proof fn law_encoders_agree(
    a: Result<Vec<u8>, Error>,
    b: Result<Vec<u8>, Error>,
    frame: EncodedFrame,
)
    requires
        encoder::encodes(a, frame),
        encoder::encodes(b, frame),
    ensures
        match (a, b) {
            (Ok(x), Ok(y)) => x@ == y@,
            (Err(x), Err(y)) => x == y,
            _ => false,
        },
{
}

/// The code lengths of the encoder are at most sixteen bits.
proof fn lemma_short_codes(slices: Seq<Seq<u8>>, s: int)
    requires
        0 < bytes::concat(slices).len() <= u64::MAX,
        0 <= s < 256,
        canonical::is_active(encoder::plane_descriptor(slices)[s]),
    ensures
        encoder::plane_descriptor(slices)[s] <= 16,
{
    let counts = encoder::histogram(slices);
    if lengths::used(counts) >= 2 {
        lemma2_to64();
        lengths::lemma_ordered(counts, 256);
        lengths::law_lengths_complete(counts, 16);
        let lens = lengths::lengths_outcome(counts, 16)->Ok_0;
        assert(lens[s] <= 16);
    }
}

/// Packed residuals take at most sixteen bits each.
proof fn lemma_packed_bits(d: Seq<u8>, res: Seq<u8>)
    requires
        canonical::all_coded(d, res),
        forall|s: int|
            0 <= s < 256 && canonical::is_active(#[trigger] d[s]) ==> d[s] <= 16,
    ensures
        canonical::encoded_bits(d, res).len() <= 16 * res.len(),
    decreases res.len(),
{
    if res.len() > 0 {
        let init = res.drop_last();
        assert forall|i: int| 0 <= i < init.len() implies canonical::is_active(
            d[#[trigger] init[i] as int],
        ) by {
            assert(init[i] == res[i]);
        }
        lemma_packed_bits(d, init);
        assert(canonical::is_active(d[res[res.len() - 1] as int]));
    }
}

/// The packed slices of a plane take at most two bytes per residual and four
/// bytes per slice.
proof fn lemma_parts_size(slices: Seq<Seq<u8>>, k: nat)
    requires
        0 < bytes::concat(slices).len() <= u64::MAX,
        k <= slices.len(),
    ensures
        ({
            let parts = encoder::packed_slices(encoder::plane_descriptor(slices), slices);
            bytes::concat(parts.take(k as int)).len() <= 2 * bytes::concat(
                slices.take(k as int),
            ).len() + 4 * k
        }),
    decreases k,
{
    let d = encoder::plane_descriptor(slices);
    let parts = encoder::packed_slices(d, slices);
    if k == 0 {
        assert(parts.take(0).len() == 0);
    } else {
        let s = k - 1;
        lemma_parts_size(slices, s as nat);
        bytes::lemma_concat_take(parts, s);
        bytes::lemma_concat_take(slices, s);
        encoder::lemma_plane_descriptor(slices);
        assert(encoder::pack_outcome(d, slices[s]) is Ok);
        if canonical::shape(d) == Ok::<Shape, Error>(Shape::Coded) {
            assert(canonical::all_coded(d, slices[s]));
            assert forall|t: int| 0 <= t < 256 && canonical::is_active(#[trigger] d[t]) implies d[t]
                <= 16 by {
                lemma_short_codes(slices, t);
            }
            lemma_packed_bits(d, slices[s]);
        }
    }
}

/// The end offsets of a frame of up to 2^30 pixels fit their 32 bits, so the
/// round trip holds for every such frame.
pub proof fn law_small_frames_fit(frame: EncodedFrame)
    requires
        frame.input_error() is None,
        frame.countable(),
        frame.width * frame.height <= 0x4000_0000,
    ensures
        offsets_fit(frame),
{
    assert forall|p: int| 0 <= p < frame.fourcc.planes() implies bytes::concat(
        #[trigger] plane_parts(frame, p),
    ).len() <= u32::MAX by {
        let slices = encoder::frame_residuals(frame, p);
        encoder::lemma_frame_residuals(frame, p);
        encoder::lemma_plane_size(frame, p);
        lemma_parts_size(slices, slices.len());
        assert(slices.take(slices.len() as int) =~= slices);
        let parts = plane_parts(frame, p);
        assert(parts.take(slices.len() as int) =~= parts);
    }
}

/// Every plane that the encoder writes has a complete code.
pub proof fn law_encoded_is_complete(cfg: StreamConfig, frame: EncodedFrame, f: FrameLayout)
    requires
        frame.input_error() is None,
        frame.countable(),
        offsets_fit(frame),
        configured(cfg, frame),
        inspect::frame_located(f, cfg, encoder::encoded_payload(frame)),
    ensures
        forall|p: int|
            0 <= p < f.planes@.len() ==> inspect::plane_complete(#[trigger] f.planes@[p]),
{
    law_round_trip(cfg, frame, false);
    layout_laws::law_decoded_is_inspectable(f, cfg, encoder::encoded_payload(frame), false);
}

/// Extradata blocks with the same bytes are the same block.
pub proof fn law_extradata_injective(a: Extradata, b: Extradata)
    requires
        a.encoded() == b.encoded(),
    ensures
        a.encoder_version == b.encoder_version,
        a.source_format_tag@ == b.source_format_tag@,
        a.frame_info_size == b.frame_info_size,
        a.flags == b.flags,
{
    let x = a.encoded();
    let y = b.encoded();
    lemma_extradata_words(a);
    lemma_extradata_words(b);
    assert(a.source_format_tag@ =~= x.subrange(4, 8));
    assert(b.source_format_tag@ =~= y.subrange(4, 8));
}

/// The words of an extradata block.
proof fn lemma_extradata_words(x: Extradata)
    ensures
        x.encoded().len() == 16,
        bytes::le32(x.encoded(), 0) == x.encoder_version,
        bytes::le32(x.encoded(), 8) == x.frame_info_size,
        bytes::le32(x.encoded(), 12) == x.flags,
{
    let e = x.encoded();
    bytes::lemma_le_bytes_read_back(x.encoder_version);
    bytes::lemma_le_bytes_read_back(x.frame_info_size);
    bytes::lemma_le_bytes_read_back(x.flags);
    let a = bytes::le_bytes(x.encoder_version);
    let b = bytes::le_bytes(x.frame_info_size);
    let c = bytes::le_bytes(x.flags);
    assert(e.subrange(0, 4) =~= a);
    assert(e.subrange(8, 12) =~= b);
    assert(e.subrange(12, 16) =~= c);
    lemma_le32_part(e, 0, a, 0);
    lemma_le32_part(e, 8, b, 0);
    lemma_le32_part(e, 12, c, 0);
}

/// The bytes of a block with a four-byte frame-info word, the Huffman bit and
/// no interlaced bit are parsed, and every parsed block with these bytes is
/// the block.
pub proof fn law_extradata_round_trip(x: Extradata, y: Extradata)
    requires
        x.frame_info_size == 4,
        x.flags % 2 == 1,
        x.flags / 0x800 % 2 == 0,
        y.encoded() == x.encoded().take(16),
    ensures
        Extradata::parse_error(x.encoded()) is None,
        y.encoder_version == x.encoder_version,
        y.source_format_tag@ == x.source_format_tag@,
        y.frame_info_size == x.frame_info_size,
        y.flags == x.flags,
{
    lemma_extradata_words(x);
    assert(x.encoded().take(16) =~= x.encoded());
    law_extradata_injective(x, y);
}

/// The block that FFmpeg writes is parsed again and announces the number of
/// slices that it was built for.
pub proof fn law_ffmpeg_extradata(x: Extradata, fourcc: Fourcc, num_slices: nat)
    requires
        1 <= num_slices <= 256,
        x.of_ffmpeg(fourcc, num_slices),
    ensures
        x.slices() == num_slices,
        Extradata::parse_error(x.encoded()) is None,
{
    assert(x.encoded().take(16) =~= x.encoded()) by {
        lemma_extradata_words(x);
    }
    law_extradata_round_trip(x, x);
}

/// Only bits 8 and 9 of the frame-info word name the predictor.
pub proof fn law_predictor_bits(info: u32, pred: Predictor)
    ensures
        Predictor::of_frame_info(info) == pred <==> info / 0x100 % 4 == pred.mode(),
{
}

/// The bits of a sequence of symbols are as many as their lengths add up to.
proof fn lemma_encoded_len(d: Seq<u8>, syms: Seq<u8>)
    ensures
        canonical::encoded_bits(d, syms).len() == cheapest::syms_weight(wide(d), syms),
    decreases syms.len(),
{
    if syms.len() > 0 {
        lemma_encoded_len(d, syms.drop_last());
    }
}

/// The lengths of a descriptor as 64-bit numbers.
spec fn wide(d: Seq<u8>) -> Seq<u64> {
    Seq::new(256, |s: int| d[s] as u64)
}

/// The bits of a sequence of symbols, added up symbol by symbol.
proof fn lemma_encoded_cost(
    d: Seq<u8>,
    syms: Seq<u8>,
    counts: Seq<u64>,
    code_lengths: Seq<u8>,
    n: nat,
)
    requires
        n <= 256,
        forall|s: int| 0 <= s < 256 ==> #[trigger] counts[s] == lengths::occurs(syms, s as u8),
        forall|s: int| 0 <= s < 256 && #[trigger] counts[s] > 0 ==> code_lengths[s] == d[s],
    ensures
        cheapest::spread_syms(wide(d), syms, n) == cheapest::cost(counts, code_lengths, n),
    decreases n,
{
    if n > 0 {
        let m = (n - 1) as nat;
        lemma_encoded_cost(d, syms, counts, code_lengths, m);
        let c = counts[n - 1] as int;
        assert(c == lengths::occurs(syms, m as u8));
        if c > 0 {
            lemma_mul_is_commutative(c, d[n - 1] as int);
        } else {
            lemma_mul_basics_1(code_lengths[n - 1] as int);
            lemma_mul_basics_2(d[n - 1] as int);
        }
    }
}

/// Lengths that are taken from a descriptor take no more of the code space.
proof fn lemma_part_of_space(d: Seq<u8>, code_lengths: Seq<u8>, n: nat)
    requires
        n <= 256,
        forall|s: int|
            0 <= s < 256 && #[trigger] code_lengths[s] > 0 ==> code_lengths[s] == d[s] && d[s]
                <= encoder::MAX_CODE_LENGTH,
    ensures
        lengths::kraft_sum(code_lengths, encoder::MAX_CODE_LENGTH as nat, n) * pow2(16)
            <= canonical::space(d, 0, n),
    decreases n,
{
    lemma2_to64();
    if n > 0 {
        let m = (n - 1) as nat;
        lemma_part_of_space(d, code_lengths, m);
        let l = code_lengths[n - 1];
        let a = lengths::kraft_sum(code_lengths, 16, m) as int;
        if l > 0 {
            lemma_pow2_adds((16 - l) as nat, 16);
            let b = pow2((16 - l) as nat) as int;
            lemma_mul_is_distributive_add_other_way(pow2(16) as int, a, b);
        }
    }
}

/// No complete code of at most sixteen bits that has a code for every
/// residual of a plane makes the plane's slice data shorter than the one that
/// the encoder chooses.
pub proof fn law_plane_code_cheapest(slices: Seq<Seq<u8>>, other: Seq<u8>)
    requires
        0 < bytes::concat(slices).len() <= u64::MAX,
        lengths::used(encoder::histogram(slices)) >= 2,
        canonical::shape(other) == Ok::<Shape, Error>(Shape::Coded),
        forall|s: int|
            0 <= s < 256 && canonical::is_active(#[trigger] other[s]) ==> other[s]
                <= encoder::MAX_CODE_LENGTH,
        canonical::all_coded(other, bytes::concat(slices)),
    ensures
        canonical::encoded_bits(
            encoder::plane_descriptor(slices),
            bytes::concat(slices),
        ).len() <= canonical::encoded_bits(other, bytes::concat(slices)).len(),
{
    let all = bytes::concat(slices);
    let counts = encoder::histogram(slices);
    let limit = encoder::MAX_CODE_LENGTH as nat;
    let best = lengths::lengths_outcome(counts, limit)->Ok_0;
    let d = encoder::plane_descriptor(slices);
    let rival = Seq::new(
        256,
        |s: int|
            if counts[s] > 0 {
                other[s]
            } else {
                0u8
            },
    );
    assert forall|s: int| 0 <= s < 256 implies #[trigger] counts[s] == lengths::occurs(
        all,
        s as u8,
    ) by {
        encoder::lemma_occurs_bound(all, s as u8);
    }
    lemma2_to64();
    lengths::lemma_ordered(counts, 256);
    lengths::law_lengths_complete(counts, limit);
    assert forall|s: int| 0 <= s < 256 && #[trigger] counts[s] > 0 implies canonical::is_active(
        other[s],
    ) by {
        lemma_occurring(all, s as u8);
        let i = choose|i: int| 0 <= i < all.len() && #[trigger] all[i] == s as u8;
        assert(canonical::is_active(other[all[i] as int]));
    }
    lemma_part_of_space(other, rival, 256);
    canonical::lemma_deeper_is_space(other, 0);
    let k = lengths::kraft_sum(rival, limit, 256) as int;
    let q = pow2(16) as int;
    lemma_pow2_adds(16, 16);
    assert(k <= q) by (nonlinear_arith)
        requires
            k * q <= q * q,
            q > 0,
    ;
    cheapest::law_lengths_cheapest(counts, limit, rival);
    lemma_encoded_len(d, all);
    lemma_encoded_len(other, all);
    cheapest::lemma_spread_syms(wide(d), all);
    cheapest::lemma_spread_syms(wide(other), all);
    assert forall|s: int| 0 <= s < 256 && #[trigger] counts[s] > 0 implies best[s] == d[s] by {
        assert(best[s] > 0);
    }
    lemma_encoded_cost(d, all, counts, best, 256);
    lemma_encoded_cost(other, all, counts, rival, 256);
}

/// A symbol that occurs stands somewhere.
proof fn lemma_occurring(syms: Seq<u8>, s: u8)
    requires
        lengths::occurs(syms, s) > 0,
    ensures
        exists|i: int| 0 <= i < syms.len() && #[trigger] syms[i] == s,
    decreases syms.len(),
{
    if syms.last() == s {
        assert(syms[syms.len() - 1] == s);
    } else {
        lemma_occurring(syms.drop_last(), s);
        let i = choose|i: int|
            0 <= i < syms.drop_last().len() && #[trigger] syms.drop_last()[i] == s;
        assert(syms[i] == s);
    }
}

/// The planes of a padded frame come back without their padding when the
/// packet that an encoding session makes of them is decoded.
pub proof fn law_session_round_trip(
    cfg: StreamConfig,
    planes: Seq<StridedPlane>,
    frame: EncodedFrame,
    strict: bool,
)
    requires
        registry::countable(cfg),
        registry::packs(frame, cfg, planes),
        offsets_fit(frame),
    ensures
        decoder::frame_outcome(cfg, encoder::encoded_payload(frame), strict) == Ok::<
            Seq<Seq<u8>>,
            Error,
        >(registry::tight_planes(cfg, planes)),
{
    law_round_trip(cfg, frame, strict);
}

/// The tag, dimensions and extradata that describe an encoder's output give
/// its configuration back.
pub proof fn law_parameters_round_trip(c: StreamConfig, tag: [u8; 4], back: StreamConfig)
    requires
        c.valid(),
        Extradata::parse_error(c.extradata.encoded()) is None,
        tag@ == c.fourcc.code(),
        registry::configured(
            back,
            registry::tagged(Some(tag))->0,
            c.width,
            c.height,
            c.extradata.encoded(),
        ),
    ensures
        registry::all_given(Some(tag), Some(c.width), Some(c.height), c.extradata.encoded()),
        registry::config_error(c.fourcc, c.width, c.height, c.extradata.encoded()) is None,
        registry::tagged(Some(tag)) == Some(c.fourcc),
        back.fourcc == c.fourcc,
        back.width == c.width,
        back.height == c.height,
        back.extradata.encoded() == c.extradata.encoded(),
        back.extradata.slices() == c.extradata.slices(),
{
    lemma_extradata_words(c.extradata);
    assert(c.extradata.encoded().take(16) =~= c.extradata.encoded());
    law_extradata_injective(back.extradata, c.extradata);
    if tag@ == Fourcc::Uly0.code() {
        Fourcc::law_code_injective(c.fourcc, Fourcc::Uly0);
    }
    if tag@ == Fourcc::Uly2.code() {
        Fourcc::law_code_injective(c.fourcc, Fourcc::Uly2);
    }
    if tag@ == Fourcc::Uly4.code() {
        Fourcc::law_code_injective(c.fourcc, Fourcc::Uly4);
    }
    if tag@ == Fourcc::Ulrg.code() {
        Fourcc::law_code_injective(c.fourcc, Fourcc::Ulrg);
    }
    if tag@ == Fourcc::Ulra.code() {
        Fourcc::law_code_injective(c.fourcc, Fourcc::Ulra);
    }
}

} // verus!
