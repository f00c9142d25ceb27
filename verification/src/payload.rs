//! The byte structure of a frame: for each plane a 256-byte code-length
//! descriptor, a table of slice end offsets and the slice data; after the last
//! plane a four-byte frame-info word.

use crate::bytes;
use crate::canonical;
use crate::error::Error;
use vstd::prelude::*;

verus! {

/// Where the frame-info word begins.
pub open spec fn info_offset(payload: Seq<u8>) -> int {
    payload.len() - 4
}

/// The frame-info word.
pub open spec fn frame_info(payload: Seq<u8>) -> int {
    bytes::le32(payload, info_offset(payload))
}

/// Entry `s` of the offset table at `table`: where slice `s` ends, counted
/// from the start of the slice data.
pub open spec fn slice_end(payload: Seq<u8>, table: int, s: int) -> int {
    bytes::le32(payload, table + 4 * s)
}

/// Where slice `s` begins, counted from the start of the slice data.
pub open spec fn slice_begin(payload: Seq<u8>, table: int, s: int) -> int {
    if s == 0 {
        0
    } else {
        slice_end(payload, table, s - 1)
    }
}

/// What is wrong with the first `k` entries of an offset table, if anything:
/// offsets do not decrease and are multiples of four.
pub open spec fn offsets_error(payload: Seq<u8>, table: int, k: nat) -> Option<Error>
    decreases k,
{
    if k == 0 {
        None
    } else {
        let s = k - 1;
        let v = slice_end(payload, table, s);
        match offsets_error(payload, table, (k - 1) as nat) {
            Some(e) => Some(e),
            None => if v < slice_begin(payload, table, s) {
                Some(Error::NonMonotonicSliceOffsets)
            } else if v % 4 != 0 {
                Some(Error::SliceNotWordAligned(v as usize))
            } else {
                None
            },
        }
    }
}

/// The error for a part of a plane that does not fit the payload.
pub open spec fn too_short(payload: Seq<u8>, offset: int, needed: int) -> Error {
    Error::ChunkTooShort {
        offset: offset as usize,
        needed: needed as usize,
        have: (info_offset(payload) - offset) as usize,
    }
}

/// Where the slice data of a plane at `offset` with `n` slices begins.
pub open spec fn data_start(offset: int, n: nat) -> int {
    offset + 256 + 4 * n
}

/// Where a plane at `offset` with `n` slices ends.
pub open spec fn plane_end(payload: Seq<u8>, offset: int, n: nat) -> int {
    data_start(offset, n) + slice_end(payload, offset + 256, n - 1)
}

/// What is wrong with the structure of a plane at `offset`, if anything.
pub open spec fn plane_error(payload: Seq<u8>, offset: int, n: nat) -> Option<Error> {
    let limit = info_offset(payload);
    if offset + 256 > limit {
        Some(too_short(payload, offset, 256))
    } else if data_start(offset, n) > limit {
        Some(too_short(payload, offset + 256, 4 * n as int))
    } else if offsets_error(payload, offset + 256, n) is Some {
        offsets_error(payload, offset + 256, n)
    } else if plane_end(payload, offset, n) > limit {
        Some(
            too_short(
                payload,
                data_start(offset, n),
                slice_end(payload, offset + 256, n - 1),
            ),
        )
    } else {
        None
    }
}

/// Where plane `p` begins.
pub open spec fn plane_offset(payload: Seq<u8>, n: nat, p: nat) -> int
    decreases p,
{
    if p == 0 {
        0
    } else {
        plane_end(payload, plane_offset(payload, n, (p - 1) as nat), n)
    }
}

/// The code-length descriptor of plane `p`.
pub open spec fn descriptor(payload: Seq<u8>, n: nat, p: nat) -> Seq<u8> {
    let o = plane_offset(payload, n, p);
    payload.subrange(o, o + 256)
}

/// The data of slice `s` of plane `p`.
pub open spec fn slice_data(payload: Seq<u8>, n: nat, p: nat, s: int) -> Seq<u8> {
    let o = plane_offset(payload, n, p);
    payload.subrange(
        data_start(o, n) + slice_begin(payload, o + 256, s),
        data_start(o, n) + slice_end(payload, o + 256, s),
    )
}

/// What is wrong with the first `k` planes, if anything. With `tables`, a
/// descriptor that describes no code is an error too.
pub open spec fn planes_error(payload: Seq<u8>, n: nat, k: nat, tables: bool) -> Option<Error>
    decreases k,
{
    if k == 0 {
        None
    } else {
        let p = (k - 1) as nat;
        match planes_error(payload, n, p, tables) {
            Some(e) => Some(e),
            None => match plane_error(payload, plane_offset(payload, n, p), n) {
                Some(e) => Some(e),
                None => if tables {
                    match canonical::shape(descriptor(payload, n, p)) {
                        Err(e) => Some(e),
                        Ok(_) => None,
                    }
                } else {
                    None
                },
            },
        }
    }
}

/// What is wrong with the structure of a payload of `planes` planes with `n`
/// slices each, if anything.
pub open spec fn walk_error(payload: Seq<u8>, n: nat, planes: nat, tables: bool) -> Option<Error> {
    if payload.len() < 4 {
        Some(Error::MissingFrameInfo)
    } else if planes_error(payload, n, planes, tables) is Some {
        planes_error(payload, n, planes, tables)
    } else {
        let end = plane_offset(payload, n, planes);
        if end != info_offset(payload) {
            Some(
                Error::ChunkTooShort {
                    offset: end as usize,
                    needed: (info_offset(payload) - end) as usize,
                    have: 0,
                },
            )
        } else {
            None
        }
    }
}

/// Good offsets do not decrease and are multiples of four.
pub proof fn lemma_offsets(payload: Seq<u8>, table: int, n: nat, i: int, j: int)
    requires
        offsets_error(payload, table, n) is None,
        0 <= i <= j < n,
    ensures
        slice_begin(payload, table, i) <= slice_end(payload, table, i),
        slice_end(payload, table, i) <= slice_end(payload, table, j),
        slice_end(payload, table, i) % 4 == 0,
        slice_begin(payload, table, i) % 4 == 0,
    decreases n,
{
    if j < n - 1 {
        lemma_offsets(payload, table, (n - 1) as nat, i, j);
    } else if i < j {
        lemma_offsets(payload, table, (n - 1) as nat, i, j - 1);
    } else if i > 0 {
        lemma_offsets(payload, table, (n - 1) as nat, i - 1, i - 1);
    }
}

/// The first error found in an offset table stays the first error.
pub proof fn lemma_offsets_error_grows(payload: Seq<u8>, table: int, m: nat, n: nat)
    requires
        m <= n,
        offsets_error(payload, table, m) is Some,
    ensures
        offsets_error(payload, table, n) == offsets_error(payload, table, m),
    decreases n,
{
    if m < n {
        lemma_offsets_error_grows(payload, table, m, (n - 1) as nat);
    }
}

/// The first error found in the planes stays the first error.
pub proof fn lemma_planes_error_grows(payload: Seq<u8>, n: nat, j: nat, k: nat, tables: bool)
    requires
        j <= k,
        planes_error(payload, n, j, tables) is Some,
    ensures
        planes_error(payload, n, k, tables) == planes_error(payload, n, j, tables),
    decreases k,
{
    if j < k {
        lemma_planes_error_grows(payload, n, j, (k - 1) as nat, tables);
    }
}

/// Good planes lie one after the other before the frame-info word.
pub proof fn lemma_planes_inside(payload: Seq<u8>, n: nat, k: nat, p: nat, tables: bool)
    requires
        n >= 1,
        payload.len() >= 4,
        p <= k,
        planes_error(payload, n, k, tables) is None,
    ensures
        0 <= plane_offset(payload, n, p) <= info_offset(payload),
        planes_error(payload, n, p, tables) is None,
        planes_error(payload, n, p, false) is None,
        p < k ==> plane_error(payload, plane_offset(payload, n, p), n) is None,
        p < k && tables ==> canonical::shape(descriptor(payload, n, p)) is Ok,
    decreases k, p,
{
    if p < k {
        lemma_planes_inside(payload, n, (k - 1) as nat, p, tables);
    } else if p > 0 {
        lemma_planes_inside(payload, n, (k - 1) as nat, (p - 1) as nat, tables);
        let o = plane_offset(payload, n, (p - 1) as nat);
        assert(0 <= slice_end(payload, o + 256, n - 1));
    }
}

/// Plane `p` of a good payload.
pub struct PlaneSpan {
    /// Where the descriptor begins.
    pub descriptor_start: usize,
    /// Where the offset table begins.
    pub table_start: usize,
    /// Where the slice data begins.
    pub data_start: usize,
    /// Where each slice ends, counted from the start of the slice data.
    pub ends: Vec<usize>,
}

impl PlaneSpan {
    /// The span describes the plane at `offset`.
    pub open spec fn describes(&self, payload: Seq<u8>, offset: int, n: nat) -> bool {
        &&& self.descriptor_start == offset
        &&& self.table_start == offset + 256
        &&& self.data_start == data_start(offset, n)
        &&& self.ends@.len() == n
        &&& forall|s: int|
            0 <= s < n ==> #[trigger] self.ends@[s] == slice_end(payload, offset + 256, s)
    }
}

/// Walks over the plane at `offset`.
pub fn walk_plane(payload: &[u8], offset: usize, num_slices: usize) -> (r: Result<
    PlaneSpan,
    Error,
>)
    requires
        1 <= num_slices <= 256,
        payload@.len() >= 4,
        offset <= info_offset(payload@),
    ensures
        match r {
            Ok(span) => plane_error(payload@, offset as int, num_slices as nat) is None
                && span.describes(payload@, offset as int, num_slices as nat),
            Err(e) => plane_error(payload@, offset as int, num_slices as nat) == Some(e),
        },
{
    let ghost n = num_slices as nat;
    let limit: usize = payload.len() - 4;
    if limit - offset < 256 {
        return Err(Error::ChunkTooShort { offset, needed: 256, have: limit - offset });
    }
    let table_start: usize = offset + 256;
    let table_bytes: usize = num_slices * 4;
    if limit - table_start < table_bytes {
        return Err(
            Error::ChunkTooShort {
                offset: table_start,
                needed: table_bytes,
                have: limit - table_start,
            },
        );
    }
    let data: usize = table_start + table_bytes;
    let mut ends: Vec<usize> = Vec::new();
    let mut prev: usize = 0;
    let mut s: usize = 0;
    while s < num_slices
        invariant
            s <= num_slices,
            n == num_slices,
            num_slices <= 256,
            limit == info_offset(payload@),
            table_start == offset + 256,
            data == data_start(offset as int, n),
            data <= limit,
            offsets_error(payload@, table_start as int, s as nat) is None,
            prev == slice_begin(payload@, table_start as int, s as int),
            ends@.len() == s,
            forall|k: int|
                0 <= k < s ==> #[trigger] ends@[k] == slice_end(payload@, table_start as int, k),
        decreases num_slices - s,
    {
        let v: usize = bytes::read_u32_le(payload, table_start + 4 * s) as usize;
        if v < prev {
            proof {
                lemma_offsets_error_grows(payload@, table_start as int, (s + 1) as nat, n);
            }
            return Err(Error::NonMonotonicSliceOffsets);
        }
        if v % 4 != 0 {
            proof {
                lemma_offsets_error_grows(payload@, table_start as int, (s + 1) as nat, n);
            }
            return Err(Error::SliceNotWordAligned(v));
        }
        ends.push(v);
        prev = v;
        s = s + 1;
    }
    if limit - data < prev {
        return Err(Error::ChunkTooShort { offset: data, needed: prev, have: limit - data });
    }
    Ok(PlaneSpan { descriptor_start: offset, table_start, data_start: data, ends })
}

/// Reads the frame-info word.
pub fn read_frame_info(payload: &[u8]) -> (v: u32)
    requires
        payload@.len() >= 4,
    ensures
        v == frame_info(payload@),
{
    bytes::read_u32_le(payload, payload.len() - 4)
}

} // verus!
