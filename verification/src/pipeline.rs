//! The ordered streaming pipeline's verified core: masking an input chunk by
//! chunk in order, reassembling out-of-order chunk results, line counting,
//! progress arithmetic, and the output-file naming rule. The host wraps
//! these in memory-mapped I/O, a worker pool and bounded channels; what each
//! part computes is decided here.

use vstd::arithmetic::div_mod::lemma_div_is_ordered;
use vstd::arithmetic::div_mod::lemma_div_multiples_vanish;
use vstd::prelude::*;

use crate::chunker::spec_chunk_bounds;
use crate::chunker::split_into_chunks;
use crate::engine::MaskEngine;

verus! {

/// What the pipeline reports when it finishes.
pub struct ProcessStats {
    /// Newlines seen in the masked output.
    pub total_lines: u64,
    /// Bytes written to the output.
    pub processed_bytes: u64,
    /// Wall-clock duration, in milliseconds.
    pub duration_ms: u64,
}

// ===========================================================================
// Line counting
// ===========================================================================

/// How many times a byte occurs in a sequence.
pub open spec fn count_occurrences(s: Seq<u8>, b: u8) -> int
    decreases s.len(),
{
    if s.len() == 0 {
        0
    } else {
        count_occurrences(s.drop_last(), b) + (if s.last() == b {
            1int
        } else {
            0int
        })
    }
}

/// Relies on bytecount::count: the number of occurrences of the byte in the
/// slice.
#[verifier::external_body]
fn count_byte(haystack: &[u8], needle: u8) -> (r: usize)
    ensures
        r == count_occurrences(haystack@, needle),
{
    bytecount::count(haystack, needle)
}

/// Counts the lines of a masked chunk: the number of newline bytes in it.
pub fn count_lines(data: &[u8]) -> (r: usize)
    ensures
        r == count_occurrences(data@, 10),
{
    count_byte(data, 10)
}

// ===========================================================================
// Progress arithmetic
// ===========================================================================

/// Progress as a fraction in thousandths, rounded down.
pub open spec fn spec_progress_permille(processed: int, total: int) -> int {
    processed * 1000 / total
}

/// Computes the progress fraction in thousandths. Exactly 1000 at
/// completion.
pub fn progress_permille(processed: u64, total: u64) -> (r: u32)
    requires
        total > 0,
        processed <= total,
    ensures
        r == spec_progress_permille(processed as int, total as int),
        r <= 1000,
        processed == total ==> r == 1000,
{
    let wide: u128 = (processed as u128) * 1000;
    let q: u128 = wide / (total as u128);
    proof {
        lemma_div_is_ordered(processed as int * 1000, total as int * 1000, total as int);
        lemma_div_multiples_vanish(1000, total as int);
        assert(total as int * 1000 == total as int * 1000);
        assert((total as int * 1000) / (total as int) == 1000);
        if processed == total {
            assert(processed as int * 1000 == total as int * 1000);
        }
    }
    q as u32
}

/// Law (progress is monotone): with a fixed total, more processed bytes
/// never report a smaller fraction.
pub proof fn lemma_progress_monotone(p1: int, p2: int, total: int)
    requires
        0 <= p1 <= p2,
        total > 0,
    ensures
        spec_progress_permille(p1, total) <= spec_progress_permille(p2, total),
{
    lemma_div_is_ordered(p1 * 1000, p2 * 1000, total);
}

// ===========================================================================
// Output naming
// ===========================================================================

/// The extension the masked output takes: a PDF is written as extracted
/// text, every other file keeps its extension.
pub open spec fn spec_output_extension(ext: Seq<u8>) -> Seq<u8> {
    if ext == seq![112u8, 100u8, 102u8] {
        seq![116u8, 120u8, 116u8]
    } else {
        ext
    }
}

/// The masked output's file name: the input's stem, a marker, and the
/// output extension.
pub open spec fn spec_output_name(stem: Seq<u8>, ext: Seq<u8>) -> Seq<u8> {
    stem + seq![46u8, 109u8, 97u8, 115u8, 107u8, 101u8, 100u8, 46u8] + spec_output_extension(ext)
}

/// Builds the masked output's file name from the input's stem and extension
/// (both as bytes): `stem`, then `.masked.`, then the extension — `txt` in
/// place of `pdf`.
pub fn masked_output_name(stem: &Vec<u8>, ext: &Vec<u8>) -> (r: Vec<u8>)
    ensures
        r@ == spec_output_name(stem@, ext@),
{
    let mut r: Vec<u8> = Vec::new();
    let mut i: usize = 0;
    while i < stem.len()
        invariant
            0 <= i <= stem@.len(),
            r@ == stem@.take(i as int),
        decreases stem@.len() - i,
    {
        r.push(stem[i]);
        proof {
            assert(stem@.take(i + 1 as int) =~= stem@.take(i as int).push(stem@[i as int]));
        }
        i = i + 1;
    }
    proof {
        assert(stem@.take(stem@.len() as int) =~= stem@);
    }
    r.push(46);
    r.push(109);
    r.push(97);
    r.push(115);
    r.push(107);
    r.push(101);
    r.push(100);
    r.push(46);
    let is_pdf = ext.len() == 3 && ext[0] == 112 && ext[1] == 100 && ext[2] == 102;
    proof {
        if is_pdf {
            assert(ext@ =~= seq![112u8, 100u8, 102u8]);
        } else {
            assert(ext@ != seq![112u8, 100u8, 102u8]) by {
                if ext@ == seq![112u8, 100u8, 102u8] {
                    assert(ext@.len() == 3 && ext@[0] == 112 && ext@[1] == 100 && ext@[2] == 102);
                }
            }
        }
    }
    let ghost mid = r@;
    if is_pdf {
        r.push(116);
        r.push(120);
        r.push(116);
        proof {
            assert(r@ =~= spec_output_name(stem@, ext@));
        }
    } else {
        let mut i: usize = 0;
        while i < ext.len()
            invariant
                0 <= i <= ext@.len(),
                r@ == mid + ext@.take(i as int),
            decreases ext@.len() - i,
        {
            r.push(ext[i]);
            proof {
                assert(ext@.take(i + 1 as int) =~= ext@.take(i as int).push(ext@[i as int]));
            }
            i = i + 1;
        }
        proof {
            assert(ext@.take(ext@.len() as int) =~= ext@);
            assert(r@ =~= spec_output_name(stem@, ext@));
        }
    }
    r
}

// ===========================================================================
// The ordered masking of a whole input, chunk by chunk
// ===========================================================================

/// The pipeline's output: the masked chunks, concatenated in chunk order.
pub open spec fn masked_concat(e: MaskEngine, data: Seq<u8>, bounds: Seq<(int, int)>) -> Seq<u8>
    decreases bounds.len(),
{
    if bounds.len() == 0 {
        Seq::empty()
    } else {
        e.mask_spec(data.subrange(bounds[0].0, bounds[0].1)) + masked_concat(
            e,
            data,
            bounds.drop_first(),
        )
    }
}

/// Appends all of `src` to `out`.
fn append_bytes(out: &mut Vec<u8>, src: &Vec<u8>)
    ensures
        final(out)@ == old(out)@ + src@,
{
    let mut k: usize = 0;
    while k < src.len()
        invariant
            0 <= k <= src@.len(),
            out@ == old(out)@ + src@.take(k as int),
        decreases src@.len() - k,
    {
        out.push(src[k]);
        proof {
            assert(src@.take(k + 1 as int) =~= src@.take(k as int).push(src@[k as int]));
        }
        k = k + 1;
    }
    proof {
        assert(src@.take(src@.len() as int) =~= src@);
    }
}

/// Masks a whole input in order, chunk by chunk: the single-threaded
/// pipeline. The output is the concatenation, in chunk-index order, of the
/// engine's output on each newline-aligned chunk — exactly what the
/// parallel pipeline must write.
#[verifier::rlimit(100)]
#[verifier::spinoff_prover]
#[verifier::loop_isolation(false)]
pub fn process_bytes(engine: &MaskEngine, data: &[u8], chunk_size: usize) -> (r: Vec<u8>)
    requires
        chunk_size >= 1,
    ensures
        r@ == masked_concat(*engine, data@, spec_chunk_bounds(data@, chunk_size as int, 0)),
{
    let bounds = split_into_chunks(data, chunk_size);
    let ghost bv = bounds@.map_values(|b: (usize, usize)| (b.0 as int, b.1 as int));
    let mut out: Vec<u8> = Vec::new();
    proof {
        assert(bv.skip(0) =~= bv);
        assert(Seq::<u8>::empty() + masked_concat(*engine, data@, bv) =~= masked_concat(
            *engine,
            data@,
            bv,
        ));
    }
    let mut i: usize = 0;
    while i < bounds.len()
        invariant
            0 <= i <= bounds@.len(),
            masked_concat(*engine, data@, bv) == out@ + masked_concat(
                *engine,
                data@,
                bv.skip(i as int),
            ),
        decreases bounds@.len() - i,
    {
        let (start, end) = bounds[i];
        proof {
            assert(bv[i as int] == (bounds@[i as int].0 as int, bounds@[i as int].1 as int));
            assert(bv.skip(i as int)[0] == bv[i as int]);
            assert(bv.skip(i as int).drop_first() =~= bv.skip(i + 1));
        }
        let chunk = vstd::slice::slice_subrange(data, start, end);
        let masked = engine.mask_line(chunk);
        let ghost out0 = out@;
        append_bytes(&mut out, &masked);
        proof {
            assert(chunk@ == data@.subrange(bv[i as int].0, bv[i as int].1));
            assert(masked_concat(*engine, data@, bv.skip(i as int)) == masked@ + masked_concat(
                *engine,
                data@,
                bv.skip(i + 1),
            ));
            vstd::seq_lib::lemma_concat_associative(
                out0,
                masked@,
                masked_concat(*engine, data@, bv.skip(i + 1)),
            );
        }
        i = i + 1;
    }
    proof {
        assert(bv.skip(bv.len() as int) =~= Seq::<(int, int)>::empty());
        assert(out@ + Seq::<u8>::empty() =~= out@);
    }
    out
}

// ===========================================================================
// Back-pressure bookkeeping
// ===========================================================================

/// The pipeline's back-pressure account: a worker takes a permit before it
/// reads a chunk and the writer returns the permit when that chunk is
/// flushed. The number of chunks in flight therefore never exceeds the
/// capacity — with chunk size C and capacity K, resident chunk memory stays
/// within K·C plus the writer's buffer, whatever the file size.
pub struct PermitGauge {
    capacity: usize,
    available: usize,
}

impl PermitGauge {
    /// How many chunks may be in flight at once.
    pub closed spec fn cap(self) -> int {
        self.capacity as int
    }

    /// How many chunks are in flight now.
    pub closed spec fn in_flight(self) -> int {
        self.capacity - self.available
    }

    /// Law (bounded memory): the account never goes negative and in-flight
    /// chunks never exceed the capacity.
    pub closed spec fn wf(self) -> bool {
        self.available <= self.capacity
    }

    /// A full account: nothing in flight.
    pub fn new(capacity: usize) -> (r: Self)
        ensures
            r.wf(),
            r.cap() == capacity,
            r.in_flight() == 0,
    {
        PermitGauge { capacity, available: capacity }
    }

    /// Takes a permit when one is free: either a permit is taken and one
    /// more chunk is in flight, or the account was exhausted and nothing
    /// changes — the worker must wait for the writer.
    pub fn try_acquire(&mut self) -> (ok: bool)
        requires
            old(self).wf(),
        ensures
            final(self).wf(),
            final(self).cap() == old(self).cap(),
            ok ==> old(self).in_flight() < old(self).cap() && final(self).in_flight() == old(
                self,
            ).in_flight() + 1,
            !ok ==> old(self).in_flight() == old(self).cap() && *final(self) == *old(self),
    {
        if self.available > 0 {
            self.available = self.available - 1;
            true
        } else {
            false
        }
    }

    /// Returns a permit after its chunk has been written out.
    pub fn release(&mut self)
        requires
            old(self).wf(),
            old(self).in_flight() > 0,
        ensures
            final(self).wf(),
            final(self).cap() == old(self).cap(),
            final(self).in_flight() == old(self).in_flight() - 1,
    {
        self.available = self.available + 1;
    }
}

// ===========================================================================
// Reassembling out-of-order chunk results
// ===========================================================================

/// The view of a pending entry: chunk index and masked bytes.
pub open spec fn pair_views(s: Seq<(usize, Vec<u8>)>) -> Seq<(int, Seq<u8>)> {
    s.map_values(|p: (usize, Vec<u8>)| (p.0 as int, p.1@))
}

/// The position of the first pending entry with the given chunk index, or
/// the length when there is none.
pub open spec fn key_index(pairs: Seq<(int, Seq<u8>)>, key: int) -> int
    decreases pairs.len(),
{
    if pairs.len() == 0 {
        0
    } else if pairs[0].0 == key {
        0
    } else {
        1 + key_index(pairs.drop_first(), key)
    }
}

/// A position before which no entry has the key, and whose entry has it, is
/// the key's index.
proof fn lemma_key_index_at(pairs: Seq<(int, Seq<u8>)>, key: int, k: int)
    requires
        0 <= k <= pairs.len(),
        forall|j: int| 0 <= j < k ==> (#[trigger] pairs[j]).0 != key,
        k < pairs.len() ==> pairs[k].0 == key,
    ensures
        key_index(pairs, key) == if k < pairs.len() {
            k
        } else {
            pairs.len() as int
        },
    decreases k + 1,
{
    if pairs.len() > 0 && pairs[0].0 != key {
        let rest = pairs.drop_first();
        assert(forall|j: int| 0 <= j < k - 1 ==> (#[trigger] rest[j]).0 == pairs[j + 1].0);
        lemma_key_index_at(rest, key, if k == 0 { 0 } else { k - 1 });
    }
}

/// What flushing from a pending set does: starting at `next`, repeatedly
/// remove the entry with the next expected index; stop at the first gap.
/// Yields the flushed contents in index order, the remaining entries, and
/// the new next-expected index.
pub open spec fn drain(pairs: Seq<(int, Seq<u8>)>, next: int) -> (Seq<Seq<u8>>, Seq<(int, Seq<u8>)>, int)
    decreases pairs.len(),
{
    let i = key_index(pairs, next);
    if 0 <= i < pairs.len() {
        let rest = drain(pairs.remove(i), next + 1);
        (seq![pairs[i].1] + rest.0, rest.1, rest.2)
    } else {
        (Seq::empty(), pairs, next)
    }
}

/// Buffers chunk results that arrive out of order and hands them out in
/// chunk-index order. The writer inserts each arrival; whatever comes back
/// is contiguous from the next expected index and is written straight out.
pub struct ReorderBuffer {
    pending: Vec<(usize, Vec<u8>)>,
    next: usize,
}

impl ReorderBuffer {
    /// The entries waiting for their turn.
    pub closed spec fn pending_view(self) -> Seq<(int, Seq<u8>)> {
        pair_views(self.pending@)
    }

    /// The next chunk index the output expects.
    pub closed spec fn next_expected(self) -> int {
        self.next as int
    }

    /// Entries hold distinct indices, none below the next expected one, and
    /// all small enough that the expected index cannot overflow.
    pub closed spec fn wf(self) -> bool {
        &&& (forall|i: int, j: int|
            0 <= i < j < self.pending@.len() ==> (#[trigger] self.pending@[i]).0 != (
            #[trigger] self.pending@[j]).0)
        &&& (forall|i: int|
            0 <= i < self.pending@.len() ==> (#[trigger] self.pending@[i]).0 >= self.next)
        &&& (forall|i: int|
            0 <= i < self.pending@.len() ==> (#[trigger] self.pending@[i]).0 < usize::MAX)
    }

    /// An empty buffer expecting the first chunk.
    pub fn new() -> (r: Self)
        ensures
            r.wf(),
            r.pending_view() == Seq::<(int, Seq<u8>)>::empty(),
            r.next_expected() == 0,
    {
        proof {
            assert(pair_views(Seq::<(usize, Vec<u8>)>::empty()) =~= Seq::<(int, Seq<u8>)>::empty());
        }
        ReorderBuffer { pending: Vec::new(), next: 0 }
    }

    /// How many results sit in the buffer.
    pub fn pending_len(&self) -> (r: usize)
        ensures
            r == self.pending_view().len(),
    {
        self.pending.len()
    }

    /// Takes one chunk result and returns everything now flushable, in
    /// chunk-index order: nothing when the chunk is still ahead of the next
    /// expected index, otherwise the maximal contiguous run from it.
    pub fn accept(&mut self, idx: usize, data: Vec<u8>) -> (out: Vec<Vec<u8>>)
        requires
            old(self).wf(),
            idx >= old(self).next_expected(),
            idx < usize::MAX,
            forall|i: int|
                0 <= i < old(self).pending_view().len() ==> (#[trigger] old(
                    self,
                ).pending_view()[i]).0 != idx,
        ensures
            final(self).wf(),
            (
                out@.map_values(|v: Vec<u8>| v@),
                final(self).pending_view(),
                final(self).next_expected(),
            ) == drain(
                old(self).pending_view().push((idx as int, data@)),
                old(self).next_expected(),
            ),
            final(self).pending_view().len() + out@.len() == old(self).pending_view().len() + 1,
    {
        let ghost pairs0 = old(self).pending_view().push((idx as int, data@));
        let ghost next0 = old(self).next_expected();
        self.pending.push((idx, data));
        proof {
            assert(self.pending_view() =~= pairs0);
            assert forall|i: int| 0 <= i < old(self).pending@.len() implies (#[trigger] old(
                self,
            ).pending@[i]).0 != idx by {
                assert(old(self).pending_view()[i] == (
                    old(self).pending@[i].0 as int,
                    old(self).pending@[i].1@,
                ));
            }
        }
        let mut out: Vec<Vec<u8>> = Vec::new();
        proof {
            assert(seq![] + drain(pairs0, next0).0 =~= drain(pairs0, next0).0);
            assert(out@.map_values(|v: Vec<u8>| v@) =~= Seq::<Seq<u8>>::empty());
        }
        loop
            invariant
                self.wf(),
                drain(pairs0, next0).0 == out@.map_values(|v: Vec<u8>| v@) + drain(
                    self.pending_view(),
                    self.next_expected(),
                ).0,
                drain(pairs0, next0).1 == drain(self.pending_view(), self.next_expected()).1,
                drain(pairs0, next0).2 == drain(self.pending_view(), self.next_expected()).2,
                self.pending_view().len() + out@.len() == pairs0.len(),
            ensures
                self.wf(),
                drain(pairs0, next0).0 == out@.map_values(|v: Vec<u8>| v@),
                drain(pairs0, next0).1 == self.pending_view(),
                drain(pairs0, next0).2 == self.next_expected(),
                self.pending_view().len() + out@.len() == pairs0.len(),
            decreases self.pending@.len(),
        {
            // find the entry with the next expected index, if it arrived
            let mut pos: usize = 0;
            let mut found: bool = false;
            let ghost cur = self.pending@;
            let next_val = self.next;
            while pos < self.pending.len()
                invariant_except_break
                    !found,
                invariant
                    0 <= pos <= self.pending@.len(),
                    self.pending@ == cur,
                    forall|j: int| 0 <= j < pos ==> (#[trigger] cur[j]).0 != next_val,
                ensures
                    self.pending@ == cur,
                    0 <= pos <= cur.len(),
                    forall|j: int| 0 <= j < pos ==> (#[trigger] cur[j]).0 != next_val,
                    found ==> pos < cur.len() && cur[pos as int].0 == next_val,
                    !found ==> pos == cur.len(),
                decreases self.pending@.len() - pos,
            {
                if self.pending[pos].0 == next_val {
                    found = true;
                    break ;
                }
                pos = pos + 1;
            }
            if !found {
                proof {
                    assert forall|j: int| 0 <= j < self.pending_view().len() implies (
                    #[trigger] self.pending_view()[j]).0 != self.next_expected() by {
                        assert(self.pending_view()[j] == (
                            self.pending@[j].0 as int,
                            self.pending@[j].1@,
                        ));
                    }
                    lemma_key_index_at(
                        self.pending_view(),
                        self.next_expected(),
                        self.pending_view().len() as int,
                    );
                }
                break ;
            }
            proof {
                assert forall|j: int| 0 <= j < pos implies (#[trigger] self.pending_view()[j]).0
                    != self.next_expected() by {
                    assert(self.pending_view()[j] == (
                        self.pending@[j].0 as int,
                        self.pending@[j].1@,
                    ));
                }
                assert(self.pending_view()[pos as int] == (
                    self.pending@[pos as int].0 as int,
                    self.pending@[pos as int].1@,
                ));
                lemma_key_index_at(self.pending_view(), self.next_expected(), pos as int);
            }
            let ghost pv0 = self.pending_view();
            let ghost out_v0 = out@.map_values(|v: Vec<u8>| v@);
            let (_, v) = self.pending.remove(pos);
            out.push(v);
            self.next = self.next + 1;
            proof {
                assert(self.pending_view() =~= pv0.remove(pos as int));
                assert(out@.map_values(|v: Vec<u8>| v@) =~= out_v0.push(pv0[pos as int].1));
                assert(drain(pv0, self.next - 1).0 == seq![pv0[pos as int].1] + drain(
                    self.pending_view(),
                    self.next as int,
                ).0);
                assert(out_v0 + drain(pv0, self.next - 1).0 =~= out@.map_values(|v: Vec<u8>| v@)
                    + drain(self.pending_view(), self.next as int).0);
            }
        }
        out
    }
}

/// Every pending entry agrees with the chunk sequence: it names a real
/// chunk index and holds that chunk's bytes.
pub open spec fn pairs_consistent(pairs: Seq<(int, Seq<u8>)>, chunks: Seq<Seq<u8>>) -> bool {
    forall|i: int|
        0 <= i < pairs.len() ==> 0 <= (#[trigger] pairs[i]).0 < chunks.len() && pairs[i].1
            == chunks[pairs[i].0]
}

/// Law (ordering): whatever order chunk results arrive in, what the buffer
/// flushes is the chunks themselves, in chunk-index order: a flush starting
/// at `next` hands out exactly `chunks[next]`, `chunks[next+1]`, … up to the
/// first gap, and what remains pending still agrees with the chunks.
pub proof fn lemma_reorder_in_order(pairs: Seq<(int, Seq<u8>)>, next: int, chunks: Seq<Seq<u8>>)
    requires
        pairs_consistent(pairs, chunks),
        0 <= next,
    ensures
        pairs_consistent(drain(pairs, next).1, chunks),
        drain(pairs, next).2 >= next,
        drain(pairs, next).0.len() == drain(pairs, next).2 - next,
        forall|i: int|
            0 <= i < drain(pairs, next).0.len() ==> #[trigger] drain(pairs, next).0[i]
                == chunks[next + i],
    decreases pairs.len(),
{
    let k = key_index(pairs, next);
    lemma_key_index_props(pairs, next);
    if k < pairs.len() {
        let rest = pairs.remove(k);
        assert forall|i: int| 0 <= i < rest.len() implies 0 <= (#[trigger] rest[i]).0
            < chunks.len() && rest[i].1 == chunks[rest[i].0] by {
            if i < k {
                assert(rest[i] == pairs[i]);
            } else {
                assert(rest[i] == pairs[i + 1]);
            }
        }
        lemma_reorder_in_order(rest, next + 1, chunks);
        assert(pairs[k].1 == chunks[next]);
    }
}

/// The key index is in range and, when it is a real position, that entry
/// holds the key.
proof fn lemma_key_index_props(pairs: Seq<(int, Seq<u8>)>, key: int)
    ensures
        0 <= key_index(pairs, key) <= pairs.len(),
        key_index(pairs, key) < pairs.len() ==> pairs[key_index(pairs, key)].0 == key,
    decreases pairs.len(),
{
    if pairs.len() > 0 && pairs[0].0 != key {
        lemma_key_index_props(pairs.drop_first(), key);
    }
}

} // verus!
