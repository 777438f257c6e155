//! Partitioning an input into ordered chunks for the streaming pipeline:
//! each chunk takes a target size and is then extended to the next newline
//! (or the end of the input), so a chunk boundary never splits a line.

use vstd::prelude::*;

verus! {

/// The newline byte chunks are aligned to.
pub const NEWLINE: u8 = 10;

/// Relies on memchr::memchr: the index of the first occurrence of the byte
/// in the haystack, or None when the byte does not occur.
#[verifier::external_body]
fn find_byte(needle: u8, haystack: &[u8]) -> (r: Option<usize>)
    ensures
        match r {
            Some(i) => i < haystack@.len() && haystack@[i as int] == needle && (forall|j: int|
                0 <= j < i ==> haystack@[j] != needle),
            None => forall|j: int| 0 <= j < haystack@.len() ==> haystack@[j] != needle,
        },
{
    memchr::memchr(needle, haystack)
}

/// The position of the first newline at or after `pos`, or the input length
/// when there is none.
pub open spec fn first_newline_from(data: Seq<u8>, pos: int) -> int
    decreases data.len() - pos when 0 <= pos <= data.len()
{
    if pos >= data.len() {
        data.len() as int
    } else if data[pos] == NEWLINE {
        pos
    } else {
        first_newline_from(data, pos + 1)
    }
}

/// A position with no newline before it (from `pos` on) and a newline (or
/// the input's end) at it is the first newline from `pos`.
proof fn lemma_first_newline_from(data: Seq<u8>, pos: int, k: int)
    requires
        0 <= pos <= k <= data.len(),
        forall|j: int| pos <= j < k ==> data[j] != NEWLINE,
        k < data.len() ==> data[k] == NEWLINE,
    ensures
        first_newline_from(data, pos) == k,
    decreases k - pos,
{
    if pos < k {
        lemma_first_newline_from(data, pos + 1, k);
    }
}

/// The first newline from a position is a newline when it lies inside the
/// input, and never lies before the position.
proof fn lemma_first_newline_hit(data: Seq<u8>, pos: int)
    requires
        0 <= pos <= data.len(),
    ensures
        pos <= first_newline_from(data, pos) <= data.len(),
        first_newline_from(data, pos) < data.len() ==> data[first_newline_from(data, pos)]
            == NEWLINE,
    decreases data.len() - pos,
{
    if pos < data.len() && data[pos] != NEWLINE {
        lemma_first_newline_hit(data, pos + 1);
    }
}

/// Where the chunk that starts at `start` ends: the target size forward,
/// then extended past the next newline; the last chunk ends at the input's
/// end.
pub open spec fn spec_chunk_end(data: Seq<u8>, start: int, chunk_size: int) -> int {
    let base = if start + chunk_size < data.len() {
        start + chunk_size
    } else {
        data.len() as int
    };
    if base == data.len() {
        base
    } else {
        let nl = first_newline_from(data, base);
        if nl < data.len() {
            nl + 1
        } else {
            data.len() as int
        }
    }
}

/// Computes where the chunk starting at `start` ends.
fn next_chunk_end(data: &[u8], start: usize, chunk_size: usize) -> (r: usize)
    requires
        start < data@.len(),
        chunk_size >= 1,
    ensures
        r == spec_chunk_end(data@, start as int, chunk_size as int),
        start < r <= data@.len(),
{
    let len = data.len();
    let base = if len - start > chunk_size {
        start + chunk_size
    } else {
        len
    };
    if base == len {
        return len;
    }
    let tail = vstd::slice::slice_subrange(data, base, len);
    match find_byte(NEWLINE, tail) {
        Some(i) => {
            proof {
                assert(tail@[i as int] == data@[base + i]);
                assert forall|j: int| base <= j < base + i implies data@[j] != NEWLINE by {
                    assert(tail@[j - base] == data@[j]);
                }
                lemma_first_newline_from(data@, base as int, base + i);
            }
            base + i + 1
        },
        None => {
            proof {
                assert forall|j: int| base <= j < data@.len() implies data@[j] != NEWLINE by {
                    assert(tail@[j - base] == data@[j]);
                }
                lemma_first_newline_from(data@, base as int, data@.len() as int);
            }
            len
        },
    }
}

/// The whole chunk list from a position on: each chunk ends where
/// [`spec_chunk_end`] says, and the next one starts there.
pub open spec fn spec_chunk_bounds(data: Seq<u8>, chunk_size: int, pos: int) -> Seq<(int, int)>
    decreases data.len() - pos
        when 0 <= pos <= data.len() && chunk_size >= 1
        via spec_chunk_bounds_dec
{
    if pos >= data.len() {
        Seq::empty()
    } else {
        seq![(pos, spec_chunk_end(data, pos, chunk_size))] + spec_chunk_bounds(
            data,
            chunk_size,
            spec_chunk_end(data, pos, chunk_size),
        )
    }
}

#[via_fn]
proof fn spec_chunk_bounds_dec(data: Seq<u8>, chunk_size: int, pos: int) {
    if pos < data.len() {
        let base = if pos + chunk_size < data.len() {
            pos + chunk_size
        } else {
            data.len() as int
        };
        lemma_first_newline_hit(data, base);
    }
}

/// The chunk bounds are a partition of the input: they start at 0, are
/// consecutive, non-empty, and end at the input's end.
pub open spec fn chunks_partition(bounds: Seq<(int, int)>, len: int) -> bool {
    &&& (len == 0 <==> bounds.len() == 0)
    &&& (bounds.len() > 0 ==> bounds[0].0 == 0 && bounds.last().1 == len)
    &&& (forall|i: int| 0 <= i < bounds.len() ==> (#[trigger] bounds[i]).0 < bounds[i].1 <= len)
    &&& (forall|i: int| 0 <= i < bounds.len() - 1 ==> (#[trigger] bounds[i]).1 == bounds[i + 1].0)
}

/// Splits the input into ordered chunks: each chunk starts where the
/// previous one ended, takes the target size, and is extended to the byte
/// after the next newline; every chunk but the last ends just after a
/// newline.
#[verifier::rlimit(30)]
pub fn split_into_chunks(data: &[u8], chunk_size: usize) -> (r: Vec<(usize, usize)>)
    requires
        chunk_size >= 1,
    ensures
        chunks_partition(
            r@.map_values(|b: (usize, usize)| (b.0 as int, b.1 as int)),
            data@.len() as int,
        ),
        forall|i: int|
            0 <= i < r@.len() ==> (#[trigger] r@[i]).1 == spec_chunk_end(
                data@,
                r@[i].0 as int,
                chunk_size as int,
            ),
        forall|i: int|
            0 <= i < r@.len() ==> ((#[trigger] r@[i]).1 < data@.len() ==> data@[r@[i].1 - 1]
                == NEWLINE),
        r@.map_values(|b: (usize, usize)| (b.0 as int, b.1 as int)) == spec_chunk_bounds(
            data@,
            chunk_size as int,
            0,
        ),
{
    let mut r: Vec<(usize, usize)> = Vec::new();
    let mut pos: usize = 0;
    while pos < data.len()
        invariant
            chunk_size >= 1,
            0 <= pos <= data@.len(),
            r@.len() == 0 ==> pos == 0,
            r@.len() > 0 ==> r@[0].0 == 0 && r@.last().1 == pos && pos > 0,
            forall|i: int| 0 <= i < r@.len() ==> (#[trigger] r@[i]).0 < r@[i].1 <= data@.len(),
            forall|i: int| 0 <= i < r@.len() - 1 ==> (#[trigger] r@[i]).1 == r@[i + 1].0,
            forall|i: int|
                0 <= i < r@.len() ==> (#[trigger] r@[i]).1 == spec_chunk_end(
                    data@,
                    r@[i].0 as int,
                    chunk_size as int,
                ),
            forall|i: int|
                0 <= i < r@.len() ==> ((#[trigger] r@[i]).1 < data@.len() ==> data@[r@[i].1 - 1]
                    == NEWLINE),
            spec_chunk_bounds(data@, chunk_size as int, 0) == r@.map_values(
                |b: (usize, usize)| (b.0 as int, b.1 as int),
            ) + spec_chunk_bounds(data@, chunk_size as int, pos as int),
        decreases data@.len() - pos,
    {
        let end = next_chunk_end(data, pos, chunk_size);
        let ghost bv0 = r@.map_values(|b: (usize, usize)| (b.0 as int, b.1 as int));
        proof {
            // a chunk that stops short of the end stops right after a newline
            if end < data@.len() {
                let base: int = if pos + chunk_size < data@.len() {
                    pos + chunk_size as int
                } else {
                    data@.len() as int
                };
                lemma_first_newline_hit(data@, base);
            }
        }
        r.push((pos, end));
        pos = end;
        proof {
            assert(r@.map_values(|b: (usize, usize)| (b.0 as int, b.1 as int)) =~= bv0 + seq![
                (r@.last().0 as int, r@.last().1 as int),
            ]);
            assert(spec_chunk_bounds(data@, chunk_size as int, 0) =~= r@.map_values(
                |b: (usize, usize)| (b.0 as int, b.1 as int),
            ) + spec_chunk_bounds(data@, chunk_size as int, pos as int));
        }
    }
    proof {
        assert(spec_chunk_bounds(data@, chunk_size as int, pos as int) =~= Seq::empty());
        assert(r@.map_values(|b: (usize, usize)| (b.0 as int, b.1 as int)) =~= spec_chunk_bounds(
            data@,
            chunk_size as int,
            0,
        ));
    }
    proof {
        let bv = r@.map_values(|b: (usize, usize)| (b.0 as int, b.1 as int));
        assert forall|i: int| 0 <= i < bv.len() implies (#[trigger] bv[i]).0 < bv[i].1
            <= data@.len() by {
            assert(bv[i] == (r@[i].0 as int, r@[i].1 as int));
        }
        assert forall|i: int| 0 <= i < bv.len() - 1 implies (#[trigger] bv[i]).1 == bv[i + 1].0 by {
            assert(bv[i] == (r@[i].0 as int, r@[i].1 as int));
            assert(bv[i + 1] == (r@[i + 1].0 as int, r@[i + 1].1 as int));
        }
        if bv.len() > 0 {
            assert(bv[0] == (r@[0].0 as int, r@[0].1 as int));
            assert(bv.last() == (r@.last().0 as int, r@.last().1 as int));
        }
    }
    r
}

} // verus!
