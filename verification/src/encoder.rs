//! Frame encoder: decorrelates RGB planes, takes the residuals of every slice,
//! builds a codebook per plane and packs the slices with it.

use crate::bitstream;
use crate::bitstream::BitWriter;
use crate::bytes;
use crate::canonical;
use crate::canonical::Shape;
use crate::decoder;
use crate::error::Error;
use crate::fourcc::{Fourcc, Predictor};
use crate::huffman;
use crate::huffman::HuffmanTable;
use crate::lengths;
use crate::predict;
use vstd::arithmetic::div_mod::*;
use vstd::arithmetic::mul::*;
use vstd::arithmetic::power2::*;
use vstd::prelude::*;

pub use crate::lengths::build_lengths;

verus! {

/// Frames of at least this many pixels are encoded slice by slice and joined.
pub const PARALLEL_PIXEL_THRESHOLD: usize = 65536;

/// The greatest code length that the encoder uses.
pub const MAX_CODE_LENGTH: u8 = 16;

/// The samples of one plane.
#[derive(Debug, Clone)]
pub struct PlaneInput {
    pub samples: Vec<u8>,
}

/// A frame to encode.
#[derive(Debug, Clone)]
pub struct EncodedFrame {
    pub fourcc: Fourcc,
    pub width: u32,
    pub height: u32,
    pub predictor: Predictor,
    pub num_slices: usize,
    pub planes: Vec<PlaneInput>,
}

/// The samples of the planes of a frame.
pub open spec fn input_samples(planes: Seq<PlaneInput>) -> Seq<Seq<u8>> {
    Seq::new(planes.len(), |i: int| planes[i].samples@)
}

impl EncodedFrame {
    /// Width and height of plane `p`.
    pub open spec fn dims(&self, p: int) -> (u32, u32) {
        self.fourcc.dims(p, self.width, self.height)
    }

    /// The number of samples that plane `p` has to have.
    pub open spec fn plane_size(&self, p: int) -> int {
        self.dims(p).0 * self.dims(p).1
    }

    /// The first of the first `k` planes that has the wrong size, as an error.
    pub open spec fn size_error(&self, k: nat) -> Option<Error>
        decreases k,
    {
        if k == 0 {
            None
        } else {
            let p = k - 1;
            match self.size_error((k - 1) as nat) {
                Some(e) => Some(e),
                None => if self.planes@[p].samples@.len() != self.plane_size(p) {
                    Some(
                        Error::EncoderPlaneSizeMismatch {
                            plane: p as usize,
                            expected: self.plane_size(p) as usize,
                            got: self.planes@[p].samples@.len() as usize,
                        },
                    )
                } else {
                    None
                },
            }
        }
    }

    /// What is wrong with a frame to encode, if anything.
    pub open spec fn input_error(&self) -> Option<Error> {
        if self.fourcc.dims_error(self.width, self.height) is Some {
            self.fourcc.dims_error(self.width, self.height)
        } else if self.planes@.len() != self.fourcc.planes() {
            Some(
                Error::EncoderPlaneSizeMismatch {
                    plane: self.planes@.len() as usize,
                    expected: self.fourcc.planes() as usize,
                    got: self.planes@.len() as usize,
                },
            )
        } else if self.num_slices == 0 || self.num_slices > 256 {
            Some(Error::InvalidSliceCount)
        } else {
            self.size_error(self.fourcc.planes())
        }
    }

    /// The pixel and row arithmetic does not overflow.
    pub open spec fn countable(&self) -> bool {
        &&& self.width * self.height <= usize::MAX
        &&& self.num_slices <= 256 ==> self.height * self.num_slices <= usize::MAX
    }

    /// True if the pixel and row arithmetic does not overflow.
    pub fn is_countable(&self) -> (b: bool)
        ensures
            b == self.countable(),
    {
        proof {
            let w = self.width as int;
            let h = self.height as int;
            let n = self.num_slices as int;
            assert(0 <= w * h <= 0xffff_ffff * 0xffff_ffff) by (nonlinear_arith)
                requires
                    0 <= w <= 0xffff_ffff,
                    0 <= h <= 0xffff_ffff,
            ;
            if n <= 256 {
                assert(0 <= h * n <= 0xffff_ffff * 256) by (nonlinear_arith)
                    requires
                        0 <= h <= 0xffff_ffff,
                        0 <= n <= 256,
                ;
            }
        }
        if self.width as u64 * self.height as u64 > usize::MAX as u64 {
            return false;
        }
        self.num_slices > 256 || self.height as u64 * self.num_slices as u64 <= usize::MAX as u64
    }
}

/// The planes with the blue and red ones stored relative to green.
pub open spec fn decolored(fourcc: Fourcc, planes: Seq<Seq<u8>>) -> Seq<Seq<u8>> {
    if fourcc.is_rgb() {
        planes.update(1, predict::decorrelated(planes[0], planes[1])).update(
            2,
            predict::decorrelated(planes[0], planes[2]),
        )
    } else {
        planes
    }
}

/// How often each symbol occurs in the slices of a plane.
pub open spec fn histogram(slices: Seq<Seq<u8>>) -> Seq<u64> {
    Seq::new(256, |s: int| lengths::occurs(bytes::concat(slices), s as u8) as u64)
}

/// The descriptor of a plane: one symbol alone has the empty code, several
/// symbols have the code lengths that package-merge gives.
pub open spec fn plane_descriptor(slices: Seq<Seq<u8>>) -> Seq<u8> {
    let counts = histogram(slices);
    if lengths::used(counts) <= 1 {
        Seq::new(
            256,
            |s: int|
                if counts[s] > 0 {
                    0u8
                } else {
                    255u8
                },
        )
    } else {
        lengths::descriptor_of(
            lengths::lengths_outcome(counts, MAX_CODE_LENGTH as nat)->Ok_0,
        )
    }
}

/// The data of a slice, or an error if a residual has no code.
pub open spec fn pack_outcome(d: Seq<u8>, res: Seq<u8>) -> Result<Seq<u8>, Error> {
    match canonical::shape(d) {
        Ok(Shape::Coded) => if canonical::all_coded(d, res) {
            Ok(bitstream::packed(canonical::encoded_bits(d, res)))
        } else {
            Err(Error::HuffmanDecodeFailure { bit_position: 0 })
        },
        _ => Ok(Seq::empty()),
    }
}

/// The data of each slice of a plane.
pub open spec fn packed_slices(d: Seq<u8>, slices: Seq<Seq<u8>>) -> Seq<Seq<u8>> {
    Seq::new(slices.len(), |s: int| pack_outcome(d, slices[s])->Ok_0)
}

/// The end offsets of the first `k` slices, as 32-bit words.
pub open spec fn offset_table(blobs: Seq<Seq<u8>>, k: nat) -> Seq<u8>
    decreases k,
{
    if k == 0 {
        Seq::empty()
    } else {
        offset_table(blobs, (k - 1) as nat) + bytes::le_bytes(
            (bytes::concat(blobs.take(k as int)).len() % 0x1_0000_0000) as u32,
        )
    }
}

/// The bytes of a plane: descriptor, end offsets, slice data.
pub open spec fn plane_blob(d: Seq<u8>, blobs: Seq<Seq<u8>>) -> Seq<u8> {
    d + offset_table(blobs, blobs.len()) + bytes::concat(blobs)
}

/// The residuals of the slices of plane `p`.
pub open spec fn frame_residuals(frame: EncodedFrame, p: int) -> Seq<Seq<u8>> {
    predict::plane_residuals(
        frame.predictor,
        decolored(frame.fourcc, input_samples(frame.planes@))[p],
        frame.dims(p).0 as int,
        frame.dims(p).1 as int,
        frame.num_slices as nat,
    )
}

/// The bytes of plane `p`.
pub open spec fn encoded_plane(frame: EncodedFrame, p: int) -> Seq<u8> {
    let slices = frame_residuals(frame, p);
    let d = plane_descriptor(slices);
    plane_blob(d, packed_slices(d, slices))
}

/// The bytes of the first `k` planes.
pub open spec fn encoded_planes(frame: EncodedFrame, k: nat) -> Seq<Seq<u8>> {
    Seq::new(k, |p: int| encoded_plane(frame, p))
}

/// The payload of a frame.
pub open spec fn encoded_payload(frame: EncodedFrame) -> Seq<u8> {
    bytes::concat(encoded_planes(frame, frame.fourcc.planes())) + bytes::le_bytes(
        (0x100 * frame.predictor.mode()) as u32,
    )
}

/// A result is the payload of a frame, or the error of its input.
pub open spec fn encodes(r: Result<Vec<u8>, Error>, frame: EncodedFrame) -> bool {
    match r {
        Ok(v) => frame.input_error() is None && v@ == encoded_payload(frame),
        Err(e) => frame.input_error() == Some(e),
    }
}

/// No symbol occurs more often than there are symbols.
pub proof fn lemma_occurs_bound(syms: Seq<u8>, s: u8)
    ensures
        lengths::occurs(syms, s) <= syms.len(),
    decreases syms.len(),
{
    if syms.len() > 0 {
        lemma_occurs_bound(syms.drop_last(), s);
    }
}

/// A symbol that stands somewhere occurs.
proof fn lemma_occurs_at(syms: Seq<u8>, i: int)
    requires
        0 <= i < syms.len(),
    ensures
        lengths::occurs(syms, syms[i]) > 0,
    decreases syms.len(),
{
    if i < syms.len() - 1 {
        lemma_occurs_at(syms.drop_last(), i);
    }
}

/// Every residual of a plane is counted in its histogram.
proof fn lemma_histogram_counts(slices: Seq<Seq<u8>>, s: int, i: int)
    requires
        0 <= s < slices.len(),
        0 <= i < slices[s].len(),
        bytes::concat(slices).len() <= u64::MAX,
    ensures
        histogram(slices)[slices[s][i] as int] > 0,
{
    bytes::lemma_concat_part(slices, s);
    let all = bytes::concat(slices);
    let a = bytes::concat(slices.take(s)).len() as int;
    let b = bytes::concat(slices.take(s + 1)).len() as int;
    assert(all.subrange(a, b)[i] == all[a + i]);
    lemma_occurs_at(all, a + i);
    lemma_occurs_bound(all, all[a + i]);
}

/// The descriptor of a plane with residuals describes a code, and every
/// residual has a place in it.
pub proof fn lemma_plane_descriptor(slices: Seq<Seq<u8>>)
    requires
        0 < bytes::concat(slices).len() <= u64::MAX,
    ensures
        canonical::shape(plane_descriptor(slices)) is Ok,
        forall|s: int|
            0 <= s < slices.len() ==> pack_outcome(
                plane_descriptor(slices),
                #[trigger] slices[s],
            ) is Ok,
        canonical::shape(plane_descriptor(slices)) == Ok::<Shape, Error>(Shape::Coded)
            ==> forall|s: int|
            0 <= s < slices.len() ==> canonical::all_coded(
                plane_descriptor(slices),
                #[trigger] slices[s],
            ),
        canonical::shape(plane_descriptor(slices)) matches Ok(Shape::Single(x)) ==> forall|s: int|
            0 <= s < slices.len() ==> (#[trigger] slices[s]) == bytes::repeated(
                x,
                slices[s].len(),
            ),
{
    let counts = histogram(slices);
    let d = plane_descriptor(slices);
    let all = bytes::concat(slices);
    lengths::lemma_ordered(counts, 256);
    lemma_occurs_at(all, 0);
    lemma_occurs_bound(all, all[0]);
    assert(counts[all[0] as int] > 0);
    let i0 = choose|i: int|
        0 <= i < lengths::ordered(counts, 256).len() && #[trigger] lengths::ordered(counts, 256)[i]
            == all[0] as int;
    if lengths::used(counts) >= 2 {
        lemma2_to64();
        lengths::law_descriptor_complete(counts, 16);
        assert forall|s: int| 0 <= s < slices.len() implies canonical::all_coded(
            d,
            #[trigger] slices[s],
        ) by {
            assert forall|i: int| 0 <= i < slices[s].len() implies canonical::is_active(
                d[#[trigger] slices[s][i] as int],
            ) by {
                lemma_histogram_counts(slices, s, i);
            }
        }
    } else {
        let x = all[0];
        assert forall|t: int| 0 <= t < 256 implies (#[trigger] counts[t] > 0 <==> t == x) by {
            if counts[t] > 0 {
                let i = choose|i: int|
                    0 <= i < lengths::ordered(counts, 256).len()
                        && #[trigger] lengths::ordered(counts, 256)[i] == t;
                assert(i == 0 && i0 == 0);
            }
        }
        lemma_single_shape(d, x);
        assert forall|s: int| 0 <= s < slices.len() implies (#[trigger] slices[s])
            == bytes::repeated(x, slices[s].len()) by {
            assert forall|i: int| 0 <= i < slices[s].len() implies slices[s][i] == x by {
                lemma_histogram_counts(slices, s, i);
            }
            assert(slices[s] =~= bytes::repeated(x, slices[s].len()));
        }
    }
}

/// A descriptor with one symbol of length zero and no other symbol.
proof fn lemma_single_shape(d: Seq<u8>, x: u8)
    requires
        d.len() == 256,
        forall|t: int| 0 <= t < 256 ==> #[trigger] d[t] == if t == x {
            0u8
        } else {
            255u8
        },
    ensures
        canonical::shape(d) == Ok::<Shape, Error>(Shape::Single(x)),
{
    canonical::lemma_rank_bound(d, x as int);
    if canonical::count(d, 0) > 1 {
        let a = canonical::lemma_rank_find(d, 0, 0);
        let b = canonical::lemma_rank_find(d, 0, 1);
        assert(d[a] == 0 && d[b] == 0);
    }
    assert(d[x as int] == 0);
    let o = canonical::only_symbol(d);
    assert(d[o as int] == 0);
    assert(!canonical::has_active(d));
}

/// Counts how often each symbol occurs in the slices of a plane.
fn count_residuals(slice_residuals: &[Vec<u8>]) -> (counts: [u64; 256])
    requires
        bytes::concat(predict::views(slice_residuals@)).len() <= u64::MAX,
    ensures
        counts@ == histogram(predict::views(slice_residuals@)),
{
    let ghost slices = predict::views(slice_residuals@);
    let ghost all = bytes::concat(slices);
    let mut counts: [u64; 256] = [0; 256];
    let mut i: usize = 0;
    proof {
        assert(slices.take(0).len() == 0);
    }
    while i < slice_residuals.len()
        invariant
            i <= slice_residuals@.len(),
            slices == predict::views(slice_residuals@),
            all == bytes::concat(slices),
            all.len() <= u64::MAX,
            forall|s: int|
                0 <= s < 256 ==> #[trigger] counts@[s] == lengths::occurs(
                    bytes::concat(slices.take(i as int)),
                    s as u8,
                ),
        decreases slice_residuals@.len() - i,
    {
        let part: &Vec<u8> = &slice_residuals[i];
        let ghost seen = bytes::concat(slices.take(i as int));
        proof {
            bytes::lemma_concat_take(slices, i as int);
            bytes::lemma_concat_part(slices, i as int);
            assert(seen + part@.take(0) =~= seen);
            assert(slices[i as int] == part@);
        }
        let mut k: usize = 0;
        while k < part.len()
            invariant
                k <= part@.len(),
                seen.len() + part@.len() <= u64::MAX,
                forall|s: int|
                    0 <= s < 256 ==> #[trigger] counts@[s] == lengths::occurs(
                        seen + part@.take(k as int),
                        s as u8,
                    ),
            decreases part@.len() - k,
        {
            let r: u8 = part[k];
            let ghost now = seen + part@.take(k as int);
            proof {
                lemma_occurs_bound(now, r);
                assert((seen + part@.take(k + 1)).drop_last() =~= now);
                assert((seen + part@.take(k + 1)).last() == r);
                assert(counts@[r as int] == lengths::occurs(now, r));
            }
            counts[r as usize] = counts[r as usize] + 1;
            k = k + 1;
        }
        proof {
            assert(part@.take(part@.len() as int) =~= part@);
        }
        i = i + 1;
    }
    proof {
        assert(slices.take(slices.len() as int) =~= slices);
        assert forall|s: int| 0 <= s < 256 implies counts@[s] == histogram(slices)[s] by {
            lemma_occurs_bound(all, s as u8);
        }
        assert(counts@ =~= histogram(slices));
    }
    counts
}

/// Builds the descriptor and the codebook of a plane. A plane without
/// residuals has no codebook.
pub fn build_plane_huffman(slice_residuals: &[Vec<u8>]) -> (r: Result<
    ([u8; 256], HuffmanTable),
    Error,
>)
    requires
        bytes::concat(predict::views(slice_residuals@)).len() <= u64::MAX,
    ensures
        match r {
            Ok(p) => p.0@ == plane_descriptor(predict::views(slice_residuals@)) && p.1.wf()
                && p.1.descriptor() == p.0@ && canonical::shape(p.0@) is Ok && p.1.only() == (
            match canonical::shape(p.0@) {
                Ok(Shape::Single(s)) => Some(s),
                _ => None,
            }),
            Err(e) => canonical::shape(plane_descriptor(predict::views(slice_residuals@))) == Err::<
                Shape,
                Error,
            >(e),
        },
{
    let ghost slices = predict::views(slice_residuals@);
    let counts: [u64; 256] = count_residuals(slice_residuals);
    proof {
        lemma2_to64();
        lengths::lemma_ordered(counts@, 256);
        if lengths::used(counts@) >= 2 {
            lengths::law_lengths_complete(counts@, 16);
        }
    }
    let mut used: usize = 0;
    let mut s: usize = 0;
    while s < 256
        invariant
            s <= 256,
            used == lengths::ordered(counts@, s as nat).len(),
            used <= s,
        decreases 256 - s,
    {
        proof {
            lengths::lemma_ordered(counts@, s as nat);
            lengths::lemma_ordered_step(counts@, s as nat);
        }
        if counts[s] > 0 {
            used = used + 1;
        }
        s = s + 1;
    }
    let mut descriptor: [u8; 256] = [255; 256];
    if used <= 1 {
        let mut k: usize = 0;
        while k < 256
            invariant
                k <= 256,
                forall|t: int|
                    0 <= t < 256 ==> #[trigger] descriptor@[t] == if t < k && counts@[t] > 0 {
                        0u8
                    } else {
                        255u8
                    },
            decreases 256 - k,
        {
            if counts[k] > 0 {
                descriptor[k] = 0;
            }
            k = k + 1;
        }
        assert(descriptor@ =~= plane_descriptor(slices));
    } else {
        match build_lengths(&counts, MAX_CODE_LENGTH) {
            Err(e) => {
                assert(false);
                return Err(e);
            },
            Ok(lens) => {
                let mut k: usize = 0;
                while k < 256
                    invariant
                        k <= 256,
                        lens@.len() == 256,
                        forall|t: int|
                            0 <= t < 256 ==> #[trigger] descriptor@[t] == if t < k && lens@[t] > 0 {
                                lens@[t]
                            } else {
                                255u8
                            },
                    decreases 256 - k,
                {
                    if lens[k] > 0 {
                        descriptor[k] = lens[k];
                    }
                    k = k + 1;
                }
                assert(descriptor@ =~= plane_descriptor(slices));
            },
        }
    }
    match HuffmanTable::build(&descriptor) {
        Err(e) => Err(e),
        Ok(table) => Ok((descriptor, table)),
    }
}

/// Packs the residuals of a slice. The only symbol of a plane takes no space.
pub fn pack_slice(table: &HuffmanTable, residuals: &[u8]) -> (r: Result<Vec<u8>, Error>)
    requires
        table.wf(),
    ensures
        huffman::outcome_of(r) == pack_outcome(table.descriptor(), residuals@),
{
    let ghost d = table.descriptor();
    if table.is_single() {
        let none: Vec<u8> = Vec::new();
        assert(none@ =~= Seq::<u8>::empty());
        return Ok(none);
    }
    let mut bw = BitWriter::new();
    let mut i: usize = 0;
    proof {
        table.lemma_coded();
        assert(residuals@.take(0).len() == 0);
        assert(bw.written() =~= canonical::encoded_bits(d, residuals@.take(0)));
    }
    while i < residuals.len()
        invariant
            i <= residuals@.len(),
            table.wf(),
            d == table.descriptor(),
            canonical::shape(d) == Ok::<Shape, Error>(Shape::Coded),
            bw.wf(),
            bw.written() == canonical::encoded_bits(d, residuals@.take(i as int)),
            canonical::all_coded(d, residuals@.take(i as int)),
        decreases residuals@.len() - i,
    {
        let r: u8 = residuals[i];
        match table.code_for(r) {
            None => {
                assert(!canonical::is_active(d[residuals@[i as int] as int]));
                return Err(Error::HuffmanDecodeFailure { bit_position: 0 });
            },
            Some((c, l)) => {
                proof {
                    canonical::lemma_code_place(d, r as int);
                    lemma2_to64();
                    if l < 32 {
                        lemma_pow2_strictly_increases(l as nat, 32);
                    }
                    let more = residuals@.take(i + 1);
                    assert(more.drop_last() =~= residuals@.take(i as int));
                    assert(more.last() == r);
                    assert forall|k: int| 0 <= k < more.len() implies canonical::is_active(
                        d[#[trigger] more[k] as int],
                    ) by {
                        if k < i {
                            assert(residuals@.take(i as int)[k] == more[k]);
                        }
                    }
                }
                bw.write_code(c, l);
            },
        }
        i = i + 1;
    }
    assert(residuals@.take(residuals@.len() as int) =~= residuals@);
    Ok(bw.finish())
}

/// Assembles the bytes of a plane.
pub fn build_plane_blob(descriptor: &[u8; 256], slice_blobs: &[Vec<u8>]) -> (out: Vec<u8>)
    ensures
        out@ == plane_blob(descriptor@, predict::views(slice_blobs@)),
{
    let ghost blobs = predict::views(slice_blobs@);
    let mut out: Vec<u8> = bytes::copy_bytes(descriptor.as_slice());
    let mut end: u64 = 0;
    let mut i: usize = 0;
    proof {
        assert(blobs.take(0).len() == 0);
        assert(out@ =~= descriptor@ + offset_table(blobs, 0));
    }
    while i < slice_blobs.len()
        invariant
            i <= slice_blobs@.len(),
            blobs == predict::views(slice_blobs@),
            end == bytes::concat(blobs.take(i as int)).len() % 0x1_0000_0000,
            out@ == descriptor@ + offset_table(blobs, i as nat),
        decreases slice_blobs@.len() - i,
    {
        let size: u64 = slice_blobs[i].len() as u64 % 0x1_0000_0000;
        proof {
            bytes::lemma_concat_take(blobs, i as int);
            assert(blobs[i as int] == slice_blobs@[i as int]@);
            lemma_add_mod_noop(
                bytes::concat(blobs.take(i as int)).len() as int,
                blobs[i as int].len() as int,
                0x1_0000_0000,
            );
        }
        end = (end + size) % 0x1_0000_0000;
        let ghost was = out@;
        bytes::push_u32_le(&mut out, end as u32);
        proof {
            assert(out@ =~= descriptor@ + offset_table(blobs, (i + 1) as nat));
        }
        i = i + 1;
    }
    let ghost head = out@;
    let mut k: usize = 0;
    proof {
        assert(out@ =~= head + bytes::concat(blobs.take(0)));
    }
    while k < slice_blobs.len()
        invariant
            k <= slice_blobs@.len(),
            blobs == predict::views(slice_blobs@),
            out@ == head + bytes::concat(blobs.take(k as int)),
        decreases slice_blobs@.len() - k,
    {
        bytes::push_bytes(&mut out, slice_blobs[k].as_slice());
        proof {
            bytes::lemma_concat_take(blobs, k as int);
            assert(out@ =~= head + bytes::concat(blobs.take(k + 1)));
        }
        k = k + 1;
    }
    proof {
        assert(blobs.take(blobs.len() as int) =~= blobs);
    }
    out
}

/// Puts the planes and the frame-info word together.
pub fn assemble_payload(plane_blobs: &[Vec<u8>], predictor: Predictor) -> (out: Vec<u8>)
    ensures
        out@ == bytes::concat(predict::views(plane_blobs@)) + bytes::le_bytes(
            (0x100 * predictor.mode()) as u32,
        ),
{
    let ghost blobs = predict::views(plane_blobs@);
    let mut out: Vec<u8> = Vec::new();
    let mut k: usize = 0;
    proof {
        assert(out@ =~= bytes::concat(blobs.take(0)));
    }
    while k < plane_blobs.len()
        invariant
            k <= plane_blobs@.len(),
            blobs == predict::views(plane_blobs@),
            out@ == bytes::concat(blobs.take(k as int)),
        decreases plane_blobs@.len() - k,
    {
        bytes::push_bytes(&mut out, plane_blobs[k].as_slice());
        proof {
            bytes::lemma_concat_take(blobs, k as int);
        }
        k = k + 1;
    }
    proof {
        assert(blobs.take(blobs.len() as int) =~= blobs);
    }
    bytes::push_u32_le(&mut out, predictor.as_frame_info_bits());
    out
}

/// The first plane of the wrong size stays the first one.
proof fn lemma_size_error_grows(frame: EncodedFrame, j: nat, k: nat)
    requires
        j <= k,
        frame.size_error(j) is Some,
    ensures
        frame.size_error(k) == frame.size_error(j),
    decreases k,
{
    if j < k {
        lemma_size_error_grows(frame, j, (k - 1) as nat);
    }
}

/// Planes without an error have the right sizes.
pub proof fn lemma_sizes(frame: EncodedFrame, k: nat, p: int)
    requires
        frame.size_error(k) is None,
        0 <= p < k,
    ensures
        frame.planes@[p].samples@.len() == frame.plane_size(p),
    decreases k,
{
    if p < k - 1 {
        lemma_sizes(frame, (k - 1) as nat, p);
    }
}

/// A plane is no greater than the frame, and not empty.
pub proof fn lemma_plane_size(frame: EncodedFrame, p: int)
    requires
        frame.fourcc.dims_error(frame.width, frame.height) is None,
        0 <= p < frame.fourcc.planes(),
    ensures
        1 <= frame.dims(p).0 <= frame.width,
        1 <= frame.dims(p).1 <= frame.height,
        1 <= frame.plane_size(p) <= frame.width * frame.height,
        frame.fourcc.is_rgb() ==> frame.plane_size(p) == frame.width * frame.height,
{
    let (w, h) = frame.dims(p);
    lemma_mul_upper_bound(w as int, frame.width as int, h as int, frame.height as int);
    assert(1 <= w * h) by (nonlinear_arith)
        requires
            1 <= w,
            1 <= h,
    ;
}

/// Checks a frame to encode and copies its planes.
pub fn prepare_planes(frame: &EncodedFrame) -> (r: Result<Vec<Vec<u8>>, Error>)
    requires
        frame.countable(),
    ensures
        match r {
            Ok(v) => frame.input_error() is None && predict::views(v@) == input_samples(
                frame.planes@,
            ),
            Err(e) => frame.input_error() == Some(e),
        },
{
    match frame.fourcc.validate_dims(frame.width, frame.height) {
        Err(e) => {
            return Err(e);
        },
        Ok(_) => {},
    }
    let plane_count: usize = frame.fourcc.plane_count();
    if frame.planes.len() != plane_count {
        return Err(
            Error::EncoderPlaneSizeMismatch {
                plane: frame.planes.len(),
                expected: plane_count,
                got: frame.planes.len(),
            },
        );
    }
    if frame.num_slices == 0 || frame.num_slices > 256 {
        return Err(Error::InvalidSliceCount);
    }
    let mut planes: Vec<Vec<u8>> = Vec::new();
    let mut p: usize = 0;
    while p < plane_count
        invariant
            p <= plane_count,
            plane_count == frame.fourcc.planes(),
            frame.planes@.len() == plane_count,
            frame.fourcc.dims_error(frame.width, frame.height) is None,
            1 <= frame.num_slices <= 256,
            frame.countable(),
            frame.size_error(p as nat) is None,
            predict::views(planes@) == input_samples(frame.planes@).take(p as int),
        decreases plane_count - p,
    {
        let (pw, ph) = frame.fourcc.plane_dim(p, frame.width, frame.height);
        proof {
            lemma_plane_size(*frame, p as int);
        }
        let expected: usize = (pw as usize) * (ph as usize);
        let got: usize = frame.planes[p].samples.len();
        if got != expected {
            proof {
                lemma_size_error_grows(*frame, (p + 1) as nat, plane_count as nat);
            }
            return Err(Error::EncoderPlaneSizeMismatch { plane: p, expected, got });
        }
        let ghost was = planes@;
        let samples: Vec<u8> = bytes::copy_bytes(frame.planes[p].samples.as_slice());
        planes.push(samples);
        proof {
            let all = input_samples(frame.planes@);
            assert(predict::views(planes@) =~= predict::views(was).push(samples@));
            assert(all.take(p + 1) =~= all.take(p as int).push(all[p as int]));
        }
        p = p + 1;
    }
    proof {
        assert(input_samples(frame.planes@).take(plane_count as int) =~= input_samples(
            frame.planes@,
        ));
    }
    Ok(planes)
}

/// Stores the blue and red planes relative to green; other planes stay as
/// they are.
pub fn apply_rgb_decorrelate(fourcc: Fourcc, planes: Vec<Vec<u8>>) -> (out: Vec<Vec<u8>>)
    requires
        planes@.len() == fourcc.planes(),
        fourcc.is_rgb() ==> planes@[1]@.len() == planes@[0]@.len() && planes@[2]@.len()
            == planes@[0]@.len(),
    ensures
        predict::views(out@) == decolored(fourcc, predict::views(planes@)),
{
    let ghost all = predict::views(planes@);
    let mut planes: Vec<Vec<u8>> = planes;
    if fourcc.is_rgb_family() {
        let mut blue: Vec<u8> = planes.remove(1);
        let mut red: Vec<u8> = planes.remove(1);
        predict::forward_decorrelate_rgb(
            planes[0].as_slice(),
            blue.as_mut_slice(),
            red.as_mut_slice(),
        );
        planes.insert(1, red);
        planes.insert(1, blue);
        proof {
            assert(predict::views(planes@) =~= decolored(fourcc, all));
        }
    }
    planes
}

/// The residuals of a plane are as many as its samples.
proof fn lemma_residuals_len(
    pred: Predictor,
    plane: Seq<u8>,
    w: int,
    height: int,
    n: nat,
    k: nat,
)
    requires
        w >= 1,
        height >= 0,
        n >= 1,
        k <= n,
        plane.len() == height * w,
    ensures
        bytes::concat(predict::plane_residuals(pred, plane, w, height, n).take(k as int)).len()
            == predict::row_start(height, n as int, k as int) * w,
    decreases k,
{
    let all = predict::plane_residuals(pred, plane, w, height, n);
    predict::law_rows_partition(height, n as int, 0);
    if k == 0 {
        assert(all.take(0).len() == 0);
        lemma_mul_basics_1(w);
    } else {
        let s = k - 1;
        lemma_residuals_len(pred, plane, w, height, n, s as nat);
        bytes::lemma_concat_take(all, s);
        predict::law_rows_partition(height, n as int, s);
        predict::lemma_rows_inside(
            predict::row_start(height, n as int, s),
            predict::row_start(height, n as int, s + 1),
            height,
            w,
        );
    }
}

/// A plane of a good frame has residuals, and no more than can be counted.
pub proof fn lemma_frame_residuals(frame: EncodedFrame, p: int)
    requires
        frame.input_error() is None,
        frame.countable(),
        0 <= p < frame.fourcc.planes(),
    ensures
        decolored(frame.fourcc, input_samples(frame.planes@))[p].len() == frame.dims(p).1
            * frame.dims(p).0,
        0 < bytes::concat(frame_residuals(frame, p)).len() <= u64::MAX,
        bytes::concat(frame_residuals(frame, p)).len() == frame.plane_size(p),
{
    let (w, h) = frame.dims(p);
    let n = frame.num_slices as nat;
    lemma_sizes(frame, frame.fourcc.planes(), p);
    lemma_plane_size(frame, p);
    lemma_mul_is_commutative(w as int, h as int);
    let plane = decolored(frame.fourcc, input_samples(frame.planes@))[p];
    lemma_residuals_len(frame.predictor, plane, w as int, h as int, n, n);
    predict::law_rows_partition(h as int, n as int, 0);
    assert(frame_residuals(frame, p).take(n as int) =~= frame_residuals(frame, p));
}

/// Packs the slices of a plane one after the other.
fn encode_plane_serial(
    descriptor: &[u8; 256],
    table: &HuffmanTable,
    slice_residuals: &[Vec<u8>],
) -> (out: Vec<u8>)
    requires
        table.wf(),
        table.descriptor() == descriptor@,
        forall|s: int|
            0 <= s < slice_residuals@.len() ==> pack_outcome(
                descriptor@,
                (#[trigger] slice_residuals@[s])@,
            ) is Ok,
    ensures
        out@ == plane_blob(
            descriptor@,
            packed_slices(descriptor@, predict::views(slice_residuals@)),
        ),
{
    let ghost slices = predict::views(slice_residuals@);
    let ghost all = packed_slices(descriptor@, slices);
    let mut blobs: Vec<Vec<u8>> = Vec::new();
    let mut s: usize = 0;
    while s < slice_residuals.len()
        invariant
            s <= slice_residuals@.len(),
            table.wf(),
            table.descriptor() == descriptor@,
            slices == predict::views(slice_residuals@),
            all == packed_slices(descriptor@, slices),
            forall|s: int|
                0 <= s < slice_residuals@.len() ==> pack_outcome(
                    descriptor@,
                    (#[trigger] slice_residuals@[s])@,
                ) is Ok,
            predict::views(blobs@) == all.take(s as int),
        decreases slice_residuals@.len() - s,
    {
        let blob: Vec<u8> = match pack_slice(table, slice_residuals[s].as_slice()) {
            Ok(b) => b,
            Err(_) => {
                assert(false);
                Vec::new()
            },
        };
        let ghost was = blobs@;
        blobs.push(blob);
        proof {
            assert(predict::views(blobs@) =~= predict::views(was).push(blob@));
            assert(slices[s as int] == slice_residuals@[s as int]@);
            assert(all.take(s + 1) =~= all.take(s as int).push(all[s as int]));
        }
        s = s + 1;
    }
    proof {
        assert(all.take(slices.len() as int) =~= all);
    }
    build_plane_blob(descriptor, blobs.as_slice())
}

/// The first `k` packed slices, or the first error among them.
pub open spec fn collected(results: Seq<Result<Seq<u8>, Error>>, k: nat) -> Result<
    Seq<Seq<u8>>,
    Error,
>
    decreases k,
{
    if k == 0 {
        Ok(Seq::empty())
    } else {
        match collected(results, (k - 1) as nat) {
            Err(e) => Err(e),
            Ok(list) => match results[k - 1] {
                Err(e) => Err(e),
                Ok(b) => Ok(list.push(b)),
            },
        }
    }
}

proof fn lemma_collected_error_grows(results: Seq<Result<Seq<u8>, Error>>, j: nat, k: nat)
    requires
        j <= k,
        collected(results, j) is Err,
    ensures
        collected(results, k) == collected(results, j),
    decreases k,
{
    if j < k {
        lemma_collected_error_grows(results, j, (k - 1) as nat);
    }
}

/// Collects packed slices. If slices failed, the error of the first of them
/// is returned.
pub fn collect_blobs(results: Vec<Result<Vec<u8>, Error>>) -> (r: Result<Vec<Vec<u8>>, Error>)
    ensures
        match r {
            Ok(v) => collected(decoder::outcomes(results@), results@.len()) == Ok::<
                Seq<Seq<u8>>,
                Error,
            >(predict::views(v@)),
            Err(e) => collected(decoder::outcomes(results@), results@.len()) == Err::<
                Seq<Seq<u8>>,
                Error,
            >(e),
        },
{
    let ghost all = decoder::outcomes(results@);
    let total: usize = results.len();
    let mut rest: Vec<Result<Vec<u8>, Error>> = results;
    let mut out: Vec<Vec<u8>> = Vec::new();
    let mut i: usize = 0;
    proof {
        assert(predict::views(out@) =~= Seq::<Seq<u8>>::empty());
        assert(rest@ =~= results@.skip(0));
    }
    while i < total
        invariant
            i <= total,
            total == results@.len(),
            all == decoder::outcomes(results@),
            rest@ == results@.skip(i as int),
            collected(all, i as nat) == Ok::<Seq<Seq<u8>>, Error>(predict::views(out@)),
        decreases total - i,
    {
        let next: Result<Vec<u8>, Error> = rest.remove(0);
        proof {
            assert(next == results@[i as int]);
            assert(all[i as int] == huffman::outcome_of(next));
            assert(rest@ =~= results@.skip(i + 1));
        }
        match next {
            Err(e) => {
                proof {
                    lemma_collected_error_grows(all, (i + 1) as nat, total as nat);
                }
                return Err(e);
            },
            Ok(b) => {
                let ghost was = out@;
                out.push(b);
                proof {
                    assert(predict::views(out@) =~= predict::views(was).push(b@));
                }
            },
        }
        i = i + 1;
    }
    Ok(out)
}

/// Packs every slice of a plane on its own and collects the results.
fn encode_plane_parallel(
    descriptor: &[u8; 256],
    table: &HuffmanTable,
    slice_residuals: &[Vec<u8>],
) -> (out: Vec<u8>)
    requires
        table.wf(),
        table.descriptor() == descriptor@,
        forall|s: int|
            0 <= s < slice_residuals@.len() ==> pack_outcome(
                descriptor@,
                (#[trigger] slice_residuals@[s])@,
            ) is Ok,
    ensures
        out@ == plane_blob(
            descriptor@,
            packed_slices(descriptor@, predict::views(slice_residuals@)),
        ),
{
    let ghost slices = predict::views(slice_residuals@);
    let ghost all = packed_slices(descriptor@, slices);
    let mut results: Vec<Result<Vec<u8>, Error>> = Vec::new();
    let mut s: usize = 0;
    while s < slice_residuals.len()
        invariant
            s <= slice_residuals@.len(),
            table.wf(),
            table.descriptor() == descriptor@,
            slices == predict::views(slice_residuals@),
            results@.len() == s,
            forall|i: int|
                0 <= i < s ==> huffman::outcome_of(#[trigger] results@[i]) == pack_outcome(
                    descriptor@,
                    slices[i],
                ),
        decreases slice_residuals@.len() - s,
    {
        let r: Result<Vec<u8>, Error> = pack_slice(table, slice_residuals[s].as_slice());
        results.push(r);
        s = s + 1;
    }
    let ghost outcomes = decoder::outcomes(results@);
    proof {
        assert forall|i: int| 0 <= i < slices.len() implies #[trigger] outcomes[i] == Ok::<
            Seq<u8>,
            Error,
        >(all[i]) by {
            assert(pack_outcome(descriptor@, slice_residuals@[i]@) is Ok);
            assert(huffman::outcome_of(results@[i]) == pack_outcome(descriptor@, slices[i]));
        }
        lemma_collected_all(outcomes, all, slices.len());
        assert(all.take(slices.len() as int) =~= all);
    }
    match collect_blobs(results) {
        Ok(blobs) => build_plane_blob(descriptor, blobs.as_slice()),
        Err(_) => {
            assert(false);
            Vec::new()
        },
    }
}

/// Slices that did not fail are collected in order.
proof fn lemma_collected_all(
    results: Seq<Result<Seq<u8>, Error>>,
    list: Seq<Seq<u8>>,
    k: nat,
)
    requires
        k <= list.len(),
        forall|i: int| 0 <= i < k ==> #[trigger] results[i] == Ok::<Seq<u8>, Error>(list[i]),
    ensures
        collected(results, k) == Ok::<Seq<Seq<u8>>, Error>(list.take(k as int)),
    decreases k,
{
    if k == 0 {
        assert(list.take(0) =~= Seq::<Seq<u8>>::empty());
    } else {
        lemma_collected_all(results, list, (k - 1) as nat);
        assert(results[k - 1] == Ok::<Seq<u8>, Error>(list[k - 1]));
        assert(list.take(k as int) =~= list.take(k - 1).push(list[k - 1]));
    }
}

/// Encodes the planes of a frame and assembles the payload.
fn encode_planes(frame: &EncodedFrame, parallel: bool) -> (r: Result<Vec<u8>, Error>)
    requires
        frame.countable(),
    ensures
        encodes(r, *frame),
{
    let samples: Vec<Vec<u8>> = match prepare_planes(frame) {
        Err(e) => {
            return Err(e);
        },
        Ok(v) => v,
    };
    proof {
        assert(predict::views(samples@).len() == samples@.len());
        assert(input_samples(frame.planes@).len() == frame.planes@.len());
        assert forall|p: int| 0 <= p < samples@.len() implies (#[trigger] samples@[p])@.len()
            == frame.plane_size(p) by {
            assert(predict::views(samples@)[p] == samples@[p]@);
            assert(input_samples(frame.planes@)[p] == frame.planes@[p].samples@);
            lemma_sizes(*frame, frame.fourcc.planes(), p);
        }
        if frame.fourcc.is_rgb() {
            lemma_plane_size(*frame, 0);
            lemma_plane_size(*frame, 1);
            lemma_plane_size(*frame, 2);
        }
    }
    let planes: Vec<Vec<u8>> = apply_rgb_decorrelate(frame.fourcc, samples);
    let ghost colors = decolored(frame.fourcc, input_samples(frame.planes@));
    let plane_count: usize = frame.fourcc.plane_count();
    let ghost all = encoded_planes(*frame, plane_count as nat);
    let mut blobs: Vec<Vec<u8>> = Vec::new();
    let mut p: usize = 0;
    proof {
        assert(predict::views(planes@).len() == planes@.len());
    }
    while p < plane_count
        invariant
            p <= plane_count,
            plane_count == frame.fourcc.planes(),
            planes@.len() == plane_count,
            frame.countable(),
            frame.input_error() is None,
            colors == decolored(frame.fourcc, input_samples(frame.planes@)),
            predict::views(planes@) == colors,
            all == encoded_planes(*frame, plane_count as nat),
            predict::views(blobs@) == all.take(p as int),
        decreases plane_count - p,
    {
        let (pw, ph) = frame.fourcc.plane_dim(p, frame.width, frame.height);
        let ghost slices = frame_residuals(*frame, p as int);
        proof {
            lemma_frame_residuals(*frame, p as int);
            lemma_plane_size(*frame, p as int);
            lemma_plane_descriptor(slices);
            assert(colors[p as int] == planes@[p as int]@);
            lemma_mul_is_commutative(pw as int, ph as int);
            lemma_mul_inequality(ph as int, frame.height as int, frame.num_slices as int);
        }
        let slice_residuals: Vec<Vec<u8>> = predict::forward(
            frame.predictor,
            planes[p].as_slice(),
            pw as usize,
            ph as usize,
            frame.num_slices,
        );
        assert(predict::views(slice_residuals@) == slices);
        match build_plane_huffman(slice_residuals.as_slice()) {
            Err(e) => {
                assert(false);
                return Err(e);
            },
            Ok((descriptor, table)) => {
                proof {
                    assert forall|s: int| 0 <= s < slice_residuals@.len() implies pack_outcome(
                        descriptor@,
                        (#[trigger] slice_residuals@[s])@,
                    ) is Ok by {
                        assert(slices[s] == slice_residuals@[s]@);
                    }
                }
                let blob: Vec<u8> = if parallel {
                    encode_plane_parallel(&descriptor, &table, slice_residuals.as_slice())
                } else {
                    encode_plane_serial(&descriptor, &table, slice_residuals.as_slice())
                };
                let ghost was = blobs@;
                blobs.push(blob);
                proof {
                    assert(predict::views(blobs@) =~= predict::views(was).push(blob@));
                    assert(all.take(p + 1) =~= all.take(p as int).push(all[p as int]));
                }
            },
        }
        p = p + 1;
    }
    proof {
        assert(all.take(plane_count as int) =~= all);
    }
    Ok(assemble_payload(blobs.as_slice(), frame.predictor))
}

/// Encodes a frame. Large frames of several slices are encoded slice by slice
/// and joined; the result is the same.
pub fn encode_frame(frame: &EncodedFrame) -> (r: Result<Vec<u8>, Error>)
    requires
        frame.countable(),
    ensures
        encodes(r, *frame),
{
    let total: usize = (frame.width as usize) * (frame.height as usize);
    if frame.num_slices > 1 && total >= PARALLEL_PIXEL_THRESHOLD {
        encode_frame_parallel(frame)
    } else {
        encode_frame_serial(frame)
    }
}

/// Encodes a frame one slice after the other.
pub fn encode_frame_serial(frame: &EncodedFrame) -> (r: Result<Vec<u8>, Error>)
    requires
        frame.countable(),
    ensures
        encodes(r, *frame),
{
    encode_planes(frame, false)
}

/// Packs every slice of a frame on its own and joins the results.
pub fn encode_frame_parallel(frame: &EncodedFrame) -> (r: Result<Vec<u8>, Error>)
    requires
        frame.countable(),
    ensures
        encodes(r, *frame),
{
    encode_planes(frame, true)
}

} // verus!
