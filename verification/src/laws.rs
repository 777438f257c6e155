//! The engine's guarantees, stated and proved: clean input comes back
//! unchanged, masking is idempotent once its output is clean, and the
//! conflict-resolution walk decides overlaps by priority, class and
//! containment exactly as documented.

use vstd::prelude::*;

use crate::chunker::chunks_partition;
use crate::engine::MaskEngine;
use crate::engine::SpanView;
use crate::engine::apply_spans;
use crate::engine::insert_span;
use crate::engine::lemma_sort_spans_elems;
use crate::engine::lit_spans;
use crate::engine::regex_layer_spans;
use crate::engine::regex_rule_spans;
use crate::engine::sort_spans;
use crate::engine::sorted_spans;
use crate::engine::span_le;
use crate::pipeline::masked_concat;

verus! {

// ===========================================================================
// Clean input and idempotence
// ===========================================================================

/// Law (zero-copy on clean input): when no rule matches, the output is
/// byte-identical to the input.
pub proof fn lemma_mask_clean_identity(e: MaskEngine, input: Seq<u8>)
    requires
        e.gathered_spans(input).len() == 0,
    ensures
        e.mask_spec(input) == input,
{
    reveal(MaskEngine::mask_spec);
    lemma_sort_spans_elems(e.gathered_spans(input));
    assert(sort_spans(e.gathered_spans(input)).len() == 0);
    assert(e.mask_spec(input) == input.subrange(0, input.len() as int));
    assert(input.subrange(0, input.len() as int) =~= input);
}

/// Law (idempotence): masking its own output changes nothing, whenever no
/// rule matches that output — that is, whenever no mask value itself
/// produces a match.
pub proof fn lemma_mask_idempotent(e: MaskEngine, input: Seq<u8>)
    requires
        e.gathered_spans(e.mask_spec(input)).len() == 0,
    ensures
        e.mask_spec(e.mask_spec(input)) == e.mask_spec(input),
{
    lemma_mask_clean_identity(e, e.mask_spec(input));
}

// ===========================================================================
// The walk, span by span: cursor and emitted spans
// ===========================================================================

/// The walk's cursor just before it looks at candidate `k`: the end of the
/// last emitted candidate among the first `k`, or 0 when none was emitted.
pub open spec fn cursor_before(spans: Seq<SpanView>, k: int) -> int
    decreases k when k >= 0
{
    if k <= 0 {
        0
    } else if spans[k - 1].start >= cursor_before(spans, k - 1) {
        spans[k - 1].end
    } else {
        cursor_before(spans, k - 1)
    }
}

/// Whether the walk emits candidate `k`: it does exactly when the candidate
/// does not start before the cursor.
pub open spec fn span_emitted(spans: Seq<SpanView>, k: int) -> bool {
    spans[k].start >= cursor_before(spans, k)
}

/// Every span's start does not exceed its end.
pub open spec fn spans_wf(spans: Seq<SpanView>) -> bool {
    forall|k: int| 0 <= k < spans.len() ==> (#[trigger] spans[k]).start <= spans[k].end
}

/// The cursor never moves backwards.
pub proof fn lemma_cursor_nondecreasing(spans: Seq<SpanView>, a: int, b: int)
    requires
        spans_wf(spans),
        0 <= a <= b <= spans.len(),
    ensures
        cursor_before(spans, a) <= cursor_before(spans, b),
    decreases b - a,
{
    if a < b {
        lemma_cursor_nondecreasing(spans, a, b - 1);
        if spans[b - 1].start >= cursor_before(spans, b - 1) {
            assert(cursor_before(spans, b) == spans[b - 1].end);
            assert(spans[b - 1].start <= spans[b - 1].end);
        }
    }
}

/// The resolution walk, re-stated span by span: candidate `k` contributes
/// the gap before it and its mask exactly when it is emitted.
pub open spec fn walk_output(input: Seq<u8>, spans: Seq<SpanView>, k: int) -> Seq<u8>
    decreases spans.len() - k when k >= 0
{
    if k >= spans.len() {
        input.subrange(cursor_before(spans, k), input.len() as int)
    } else if span_emitted(spans, k) {
        input.subrange(cursor_before(spans, k), spans[k].start) + spans[k].mask + walk_output(
            input,
            spans,
            k + 1,
        )
    } else {
        walk_output(input, spans, k + 1)
    }
}

/// The span-by-span restatement is the resolution walk: from any step, the
/// walk continued with the cursor at `cursor_before` produces exactly
/// `walk_output`.
pub proof fn lemma_walk_output(input: Seq<u8>, spans: Seq<SpanView>, k: int)
    requires
        0 <= k <= spans.len(),
    ensures
        walk_output(input, spans, k) == apply_spans(input, spans, k, cursor_before(spans, k)),
    decreases spans.len() - k,
{
    if k < spans.len() {
        lemma_walk_output(input, spans, k + 1);
        if span_emitted(spans, k) {
            assert(cursor_before(spans, k + 1) == spans[k].end);
        } else {
            assert(cursor_before(spans, k + 1) == cursor_before(spans, k));
        }
    }
}

/// What masking returns is the span-by-span walk over the sorted candidates:
/// the emitted candidates are exactly those of [`span_emitted`].
pub proof fn lemma_mask_spec_is_walk(e: MaskEngine, input: Seq<u8>)
    ensures
        e.mask_spec(input) == walk_output(input, sort_spans(e.gathered_spans(input)), 0),
{
    reveal(MaskEngine::mask_spec);
    lemma_walk_output(input, sort_spans(e.gathered_spans(input)), 0);
}

// ===========================================================================
// The sort is a sort
// ===========================================================================

/// The sort order is total.
proof fn lemma_span_le_total(a: SpanView, b: SpanView)
    ensures
        span_le(a, b) || span_le(b, a),
{
}

/// The sort order is transitive.
proof fn lemma_span_le_trans(a: SpanView, b: SpanView, c: SpanView)
    requires
        span_le(a, b),
        span_le(b, c),
    ensures
        span_le(a, c),
{
}

/// Inserting into a sorted sequence keeps it sorted.
proof fn lemma_insert_span_sorted(s: Seq<SpanView>, x: SpanView)
    requires
        sorted_spans(s),
    ensures
        sorted_spans(insert_span(s, x)),
    decreases s.len(),
{
    if s.len() == 0 {
    } else if !span_le(s[0], x) {
        lemma_span_le_total(s[0], x);
        let r = seq![x] + s;
        assert forall|i: int| 0 <= i < r.len() - 1 implies span_le(#[trigger] r[i], r[i + 1]) by {
            if i > 0 {
                assert(r[i] == s[i - 1]);
                assert(r[i + 1] == s[i]);
            }
        }
    } else {
        let rest = s.drop_first();
        assert forall|i: int| 0 <= i < rest.len() - 1 implies span_le(
            #[trigger] rest[i],
            rest[i + 1],
        ) by {
            assert(rest[i] == s[i + 1]);
            assert(rest[i + 1] == s[i + 2]);
        }
        lemma_insert_span_sorted(rest, x);
        let inner = insert_span(rest, x);
        let r = seq![s[0]] + inner;
        assert(insert_span(s, x) == r);
        assert forall|i: int| 0 <= i < r.len() - 1 implies span_le(#[trigger] r[i], r[i + 1]) by {
            if i == 0 {
                if rest.len() == 0 {
                    assert(inner[0] == x);
                } else if !span_le(rest[0], x) {
                    assert(inner[0] == x);
                } else {
                    assert(inner[0] == rest[0]);
                    assert(rest[0] == s[1]);
                }
            } else {
                assert(r[i] == inner[i - 1]);
                assert(r[i + 1] == inner[i]);
            }
        }
    }
}

/// The sorted candidate sequence is sorted under the policy order.
pub proof fn lemma_sort_spans_sorted(s: Seq<SpanView>)
    ensures
        sorted_spans(sort_spans(s)),
    decreases s.len(),
{
    if s.len() > 0 {
        lemma_sort_spans_sorted(s.drop_last());
        lemma_insert_span_sorted(sort_spans(s.drop_last()), s.last());
    }
}

/// Sortedness of adjacent pairs extends to any pair.
pub proof fn lemma_sorted_pairwise(s: Seq<SpanView>, i: int, j: int)
    requires
        sorted_spans(s),
        0 <= i <= j < s.len(),
    ensures
        span_le(s[i], s[j]),
    decreases j - i,
{
    if i < j {
        lemma_sorted_pairwise(s, i, j - 1);
        lemma_span_le_trans(s[i], s[j - 1], s[j]);
    }
}

// ===========================================================================
// How overlaps are decided
// ===========================================================================

/// Once any candidate at an offset has been seen, no later candidate at the
/// same offset is emitted: the cursor has moved past it.
proof fn lemma_second_at_same_start_suppressed(spans: Seq<SpanView>, i: int, j: int)
    requires
        spans_wf(spans),
        0 <= i < j < spans.len(),
        spans[i].start == spans[j].start,
        spans[i].start < spans[i].end,
    ensures
        !span_emitted(spans, j),
{
    if span_emitted(spans, i) {
        assert(cursor_before(spans, i + 1) == spans[i].end);
        lemma_cursor_nondecreasing(spans, i + 1, j);
    } else {
        assert(spans[i].start < cursor_before(spans, i));
        lemma_cursor_nondecreasing(spans, i, j);
    }
}

/// Law (priority): among overlapping candidates starting at the same offset,
/// the emitted one carries the highest priority; every other candidate at
/// that offset is suppressed.
pub proof fn lemma_priority_wins(spans: Seq<SpanView>, i: int, j: int)
    requires
        sorted_spans(spans),
        spans_wf(spans),
        0 <= i < spans.len(),
        0 <= j < spans.len(),
        i != j,
        spans[i].start == spans[j].start,
        spans[i].start < spans[i].end,
        spans[j].start < spans[j].end,
        span_emitted(spans, i),
    ensures
        !span_emitted(spans, j),
        spans[j].priority <= spans[i].priority,
{
    if j < i {
        lemma_second_at_same_start_suppressed(spans, j, i);
        assert(false);
    }
    lemma_second_at_same_start_suppressed(spans, i, j);
    lemma_sorted_pairwise(spans, i, j);
}

/// Law (literal dominance): a literal candidate (at the literal sentinel
/// priority) beats every regex candidate (below the sentinel) starting at
/// the same offset — the regex candidate is never emitted, whatever the two
/// lengths.
pub proof fn lemma_literal_dominance(spans: Seq<SpanView>, i: int, j: int, sentinel: int)
    requires
        sorted_spans(spans),
        spans_wf(spans),
        0 <= i < spans.len(),
        0 <= j < spans.len(),
        i != j,
        spans[i].start == spans[j].start,
        spans[i].start < spans[i].end,
        spans[i].priority == sentinel,
        spans[j].priority < sentinel,
    ensures
        !span_emitted(spans, j),
{
    if j < i {
        lemma_sorted_pairwise(spans, j, i);
        assert(spans[j].priority >= spans[i].priority);
        assert(false);
    }
    lemma_second_at_same_start_suppressed(spans, i, j);
}

/// Law (containment): an emitted candidate suppresses every candidate of
/// lower or equal priority whose span it strictly contains.
pub proof fn lemma_containment(spans: Seq<SpanView>, i: int, j: int)
    requires
        sorted_spans(spans),
        spans_wf(spans),
        0 <= i < spans.len(),
        0 <= j < spans.len(),
        i != j,
        spans[i].start <= spans[j].start,
        spans[j].end <= spans[i].end,
        spans[i].start < spans[j].start || spans[j].end < spans[i].end,
        spans[j].start < spans[j].end,
        spans[j].priority <= spans[i].priority,
        span_emitted(spans, i),
    ensures
        !span_emitted(spans, j),
{
    if j < i {
        lemma_sorted_pairwise(spans, j, i);
        // the sort would have put the container first: equal starts force
        // equal priorities and then the longer span first, which
        // contradicts strict containment
        assert(spans[j].start == spans[i].start);
        assert(spans[j].priority == spans[i].priority);
        assert(spans[j].end - spans[j].start >= spans[i].end - spans[i].start);
        assert(false);
    }
    assert(cursor_before(spans, i + 1) == spans[i].end);
    lemma_cursor_nondecreasing(spans, i + 1, j);
    assert(spans[j].start < spans[i].end);
}

// ===========================================================================
// Masking distributes over an aligned split
// ===========================================================================

/// Every candidate span is non-empty and lies inside an input of the given
/// length.
pub open spec fn spans_strict(s: Seq<SpanView>, len: int) -> bool {
    forall|k: int| 0 <= k < s.len() ==> 0 <= (#[trigger] s[k]).start < s[k].end <= len
}

/// A span moved right by an offset.
pub open spec fn shift_span(s: SpanView, off: int) -> SpanView {
    SpanView { start: s.start + off, end: s.end + off, priority: s.priority, mask: s.mask }
}

/// All spans moved right by an offset.
pub open spec fn shift_spans(s: Seq<SpanView>, off: int) -> Seq<SpanView> {
    s.map_values(|v: SpanView| shift_span(v, off))
}

/// The literal layer's candidates are strict: non-empty, inside the input.
proof fn lemma_lit_spans_strict(found: Seq<(int, int, int)>, masks: Seq<Seq<u8>>, len: int)
    ensures
        spans_strict(lit_spans(found, masks, len), len),
    decreases found.len(),
{
    if found.len() > 0 {
        lemma_lit_spans_strict(found.drop_last(), masks, len);
    }
}

/// One regex rule's candidates are strict.
proof fn lemma_regex_rule_spans_strict(found: Seq<(int, int)>, priority: int, mask: Seq<u8>, len: int)
    ensures
        spans_strict(regex_rule_spans(found, priority, mask, len), len),
    decreases found.len(),
{
    if found.len() > 0 {
        lemma_regex_rule_spans_strict(found.drop_last(), priority, mask, len);
    }
}

/// The regex layer's candidates are strict.
proof fn lemma_regex_layer_spans_strict(rules: Seq<crate::engine::RegexRuleView>, input: Seq<u8>)
    ensures
        spans_strict(regex_layer_spans(rules, input), input.len() as int),
    decreases rules.len(),
{
    if rules.len() > 0 {
        lemma_regex_layer_spans_strict(rules.drop_last(), input);
        lemma_regex_rule_spans_strict(
            crate::engine::regex_found(rules.last().pattern, input),
            rules.last().priority,
            rules.last().mask,
            input.len() as int,
        );
    }
}

/// Everything the engine gathers is strict: a candidate is never empty and
/// never reaches outside the input.
pub proof fn lemma_gathered_strict(e: MaskEngine, input: Seq<u8>)
    ensures
        spans_strict(e.gathered_spans(input), input.len() as int),
{
    if e.ac is Some {
        lemma_lit_spans_strict(
            crate::engine::ac_found(crate::engine::ac_patterns(e.ac->Some_0), input),
            crate::engine::mask_views(e.ac_masks@),
            input.len() as int,
        );
    }
    lemma_regex_layer_spans_strict(crate::engine::regex_views(e.regex_rules@), input);
}

/// Strictness survives the sort.
proof fn lemma_sort_preserves_strict(s: Seq<SpanView>, len: int)
    requires
        spans_strict(s, len),
    ensures
        spans_strict(sort_spans(s), len),
{
    lemma_sort_spans_elems(s);
    assert forall|k: int| 0 <= k < sort_spans(s).len() implies 0 <= (#[trigger] sort_spans(
        s,
    )[k]).start < sort_spans(s)[k].end <= len by {
        let e = sort_spans(s)[k];
        assert(s.contains(e));
        let j = choose|j: int| 0 <= j < s.len() && s[j] == e;
    }
}

/// The candidate list the engine actually walks — its gathered spans,
/// sorted — is sorted under the policy order, non-empty-span and in bounds,
/// so the overlap laws above apply to every real scan.
pub proof fn lemma_engine_walk_spans(e: MaskEngine, input: Seq<u8>)
    ensures
        sorted_spans(sort_spans(e.gathered_spans(input))),
        spans_strict(sort_spans(e.gathered_spans(input)), input.len() as int),
        spans_wf(sort_spans(e.gathered_spans(input))),
{
    lemma_sort_spans_sorted(e.gathered_spans(input));
    lemma_gathered_strict(e, input);
    lemma_sort_preserves_strict(e.gathered_spans(input), input.len() as int);
    let s = sort_spans(e.gathered_spans(input));
    assert forall|k: int| 0 <= k < s.len() implies (#[trigger] s[k]).start <= s[k].end by {
        assert(0 <= s[k].start < s[k].end <= input.len());
    }
}

/// Inserting past a prefix everything of which precedes the new span leaves
/// the prefix in place.
proof fn lemma_insert_past_prefix(u: Seq<SpanView>, v: Seq<SpanView>, z: SpanView)
    requires
        forall|i: int| 0 <= i < u.len() ==> span_le(#[trigger] u[i], z),
    ensures
        insert_span(u + v, z) == u + insert_span(v, z),
    decreases u.len(),
{
    if u.len() == 0 {
        assert(u + v =~= v);
        assert(u + insert_span(v, z) =~= insert_span(v, z));
    } else {
        let w = u + v;
        assert(w[0] == u[0]);
        assert(span_le(w[0], z));
        assert(w.len() > 0);
        assert(insert_span(w, z) == seq![w[0]] + insert_span(w.drop_first(), z));
        assert(w.drop_first() =~= u.drop_first() + v);
        assert(forall|i: int|
            0 <= i < u.drop_first().len() ==> span_le(#[trigger] u.drop_first()[i], z));
        lemma_insert_past_prefix(u.drop_first(), v, z);
        assert(seq![u[0]] + (u.drop_first() + insert_span(v, z)) =~= u + insert_span(v, z));
    }
}

/// Sorting a concatenation whose left part everywhere starts before its
/// right part sorts the parts independently.
proof fn lemma_sort_concat(x: Seq<SpanView>, y: Seq<SpanView>)
    requires
        forall|i: int, j: int|
            0 <= i < x.len() && 0 <= j < y.len() ==> (#[trigger] x[i]).start < (
            #[trigger] y[j]).start,
    ensures
        sort_spans(x + y) == sort_spans(x) + sort_spans(y),
    decreases y.len(),
{
    if y.len() == 0 {
        assert(x + y =~= x);
        assert(sort_spans(x) + sort_spans(y) =~= sort_spans(x));
    } else {
        let w = x + y;
        assert(w.drop_last() =~= x + y.drop_last());
        assert(forall|i: int, j: int|
            0 <= i < x.len() && 0 <= j < y.drop_last().len() ==> (#[trigger] x[i]).start < (
            #[trigger] y.drop_last()[j]).start);
        lemma_sort_concat(x, y.drop_last());
        assert(w.last() == y.last());
        assert(sort_spans(w) == insert_span(sort_spans(x) + sort_spans(y.drop_last()), y.last()));
        lemma_sort_spans_elems(x);
        assert forall|i: int| 0 <= i < sort_spans(x).len() implies span_le(
            #[trigger] sort_spans(x)[i],
            y.last(),
        ) by {
            let e = sort_spans(x)[i];
            assert(x.contains(e));
            let j = choose|j: int| 0 <= j < x.len() && x[j] == e;
            assert(x[j].start < y.last().start);
        }
        lemma_insert_past_prefix(sort_spans(x), sort_spans(y.drop_last()), y.last());
    }
}

/// Shifting commutes with insertion: the order never looks at absolute
/// positions, only at differences.
proof fn lemma_insert_shift(s: Seq<SpanView>, x: SpanView, off: int)
    ensures
        insert_span(shift_spans(s, off), shift_span(x, off)) == shift_spans(insert_span(s, x), off),
    decreases s.len(),
{
    if s.len() == 0 {
        assert(insert_span(shift_spans(s, off), shift_span(x, off)) =~= shift_spans(
            insert_span(s, x),
            off,
        ));
    } else {
        assert(shift_spans(s, off)[0] == shift_span(s[0], off));
        assert(span_le(shift_span(s[0], off), shift_span(x, off)) == span_le(s[0], x));
        if !span_le(s[0], x) {
            assert(insert_span(shift_spans(s, off), shift_span(x, off)) =~= shift_spans(
                insert_span(s, x),
                off,
            ));
        } else {
            assert(shift_spans(s, off).drop_first() =~= shift_spans(s.drop_first(), off));
            lemma_insert_shift(s.drop_first(), x, off);
            assert(insert_span(shift_spans(s, off), shift_span(x, off)) =~= shift_spans(
                insert_span(s, x),
                off,
            ));
        }
    }
}

/// Shifting commutes with the sort.
proof fn lemma_sort_shift(s: Seq<SpanView>, off: int)
    ensures
        sort_spans(shift_spans(s, off)) == shift_spans(sort_spans(s), off),
    decreases s.len(),
{
    if s.len() == 0 {
        assert(sort_spans(shift_spans(s, off)) =~= shift_spans(sort_spans(s), off));
    } else {
        assert(shift_spans(s, off).drop_last() =~= shift_spans(s.drop_last(), off));
        assert(shift_spans(s, off).last() == shift_span(s.last(), off));
        lemma_sort_shift(s.drop_last(), off);
        lemma_insert_shift(sort_spans(s.drop_last()), s.last(), off);
    }
}

/// Walking a tail of a concatenated span list is walking the tail list.
proof fn lemma_walk_tail_offset(input: Seq<u8>, u: Seq<SpanView>, w: Seq<SpanView>, j: int, last: int)
    requires
        0 <= j <= w.len(),
    ensures
        apply_spans(input, u + w, u.len() + j, last) == apply_spans(input, w, j, last),
    decreases w.len() - j,
{
    let full = u + w;
    if j < w.len() {
        assert(full[u.len() + j] == w[j]);
        lemma_walk_tail_offset(input, u, w, j + 1, last);
        lemma_walk_tail_offset(input, u, w, j + 1, w[j].end);
    }
}

/// Walking shifted spans over the concatenation, from a cursor past the
/// left part, is walking the original spans over the right part alone.
proof fn lemma_walk_shifted(a: Seq<u8>, b: Seq<u8>, sy: Seq<SpanView>, j: int, lastb: int)
    requires
        spans_strict(sy, b.len() as int),
        0 <= j <= sy.len(),
        0 <= lastb <= b.len(),
    ensures
        apply_spans(a + b, shift_spans(sy, a.len() as int), j, a.len() + lastb) == apply_spans(
            b,
            sy,
            j,
            lastb,
        ),
    decreases sy.len() - j,
{
    let off = a.len() as int;
    let sh = shift_spans(sy, off);
    if j >= sy.len() {
        assert((a + b).subrange(off + lastb, (a + b).len() as int) =~= b.subrange(
            lastb,
            b.len() as int,
        ));
    } else {
        assert(sh[j] == shift_span(sy[j], off));
        if sy[j].start < lastb {
            lemma_walk_shifted(a, b, sy, j + 1, lastb);
        } else {
            lemma_walk_shifted(a, b, sy, j + 1, sy[j].end);
            assert((a + b).subrange(off + lastb, off + sy[j].start) =~= b.subrange(
                lastb,
                sy[j].start,
            ));
        }
    }
}

/// Crossing the boundary: walking the shifted right-hand spans from a
/// cursor still inside the left part keeps the left tail and then walks the
/// right part from its start.
proof fn lemma_walk_boundary(a: Seq<u8>, b: Seq<u8>, sy: Seq<SpanView>, last: int)
    requires
        spans_strict(sy, b.len() as int),
        0 <= last <= a.len(),
    ensures
        apply_spans(a + b, shift_spans(sy, a.len() as int), 0, last) == a.subrange(
            last,
            a.len() as int,
        ) + apply_spans(b, sy, 0, 0),
{
    let off = a.len() as int;
    let sh = shift_spans(sy, off);
    if sy.len() == 0 {
        assert((a + b).subrange(last, (a + b).len() as int) =~= a.subrange(last, off)
            + b.subrange(0, b.len() as int));
        assert(apply_spans(b, sy, 0, 0) == b.subrange(0, b.len() as int));
    } else {
        assert(sh[0] == shift_span(sy[0], off));
        assert(sh[0].start >= last);
        lemma_walk_shifted(a, b, sy, 1, sy[0].end);
        assert((a + b).subrange(last, off + sy[0].start) =~= a.subrange(last, off) + b.subrange(
            0,
            sy[0].start,
        ));
        assert(apply_spans(b, sy, 0, 0) == b.subrange(0, sy[0].start) + sy[0].mask + apply_spans(
            b,
            sy,
            1,
            sy[0].end,
        ));
        vstd::seq_lib::lemma_concat_associative(
            a.subrange(last, off),
            b.subrange(0, sy[0].start),
            sy[0].mask + apply_spans(b, sy, 1, sy[0].end),
        );
        vstd::seq_lib::lemma_concat_associative(
            a.subrange(last, off) + b.subrange(0, sy[0].start),
            sy[0].mask,
            apply_spans(b, sy, 1, sy[0].end),
        );
        vstd::seq_lib::lemma_concat_associative(
            b.subrange(0, sy[0].start),
            sy[0].mask,
            apply_spans(b, sy, 1, sy[0].end),
        );
    }
}

/// Walking the concatenated input over left-part spans followed by shifted
/// right-part spans is walking each part over its own spans.
proof fn lemma_walk_split(a: Seq<u8>, b: Seq<u8>, sx: Seq<SpanView>, sy: Seq<SpanView>, i: int, last: int)
    requires
        spans_strict(sx, a.len() as int),
        spans_strict(sy, b.len() as int),
        0 <= i <= sx.len(),
        0 <= last <= a.len(),
    ensures
        apply_spans(a + b, sx + shift_spans(sy, a.len() as int), i, last) == apply_spans(
            a,
            sx,
            i,
            last,
        ) + apply_spans(b, sy, 0, 0),
    decreases sx.len() - i,
{
    let off = a.len() as int;
    let full = sx + shift_spans(sy, off);
    if i >= sx.len() {
        lemma_walk_tail_offset(a + b, sx, shift_spans(sy, off), 0, last);
        assert(i == sx.len());
        lemma_walk_boundary(a, b, sy, last);
    } else {
        assert(full[i] == sx[i]);
        if sx[i].start < last {
            lemma_walk_split(a, b, sx, sy, i + 1, last);
        } else {
            lemma_walk_split(a, b, sx, sy, i + 1, sx[i].end);
            assert((a + b).subrange(last, sx[i].start) =~= a.subrange(last, sx[i].start));
            vstd::seq_lib::lemma_concat_associative(
                a.subrange(last, sx[i].start),
                sx[i].mask,
                apply_spans(a, sx, i + 1, sx[i].end) + apply_spans(b, sy, 0, 0),
            );
            vstd::seq_lib::lemma_concat_associative(
                sx[i].mask,
                apply_spans(a, sx, i + 1, sx[i].end),
                apply_spans(b, sy, 0, 0),
            );
            vstd::seq_lib::lemma_concat_associative(
                a.subrange(last, sx[i].start),
                sx[i].mask + apply_spans(a, sx, i + 1, sx[i].end),
                apply_spans(b, sy, 0, 0),
            );
        }
    }
}

/// Law (ordering): masking distributes over a split on which no match
/// straddles the boundary — when the candidates gathered on the whole input
/// are exactly the left part's candidates followed by the right part's
/// candidates moved right, masking the whole equals masking the parts and
/// concatenating. A newline-aligned chunking of line-oriented input
/// satisfies the hypothesis at every boundary, so the pipeline's output —
/// the masked chunks in index order — is the masking of the whole file.
pub proof fn lemma_mask_splits(e: MaskEngine, a: Seq<u8>, b: Seq<u8>)
    requires
        e.gathered_spans(a + b) == e.gathered_spans(a) + shift_spans(
            e.gathered_spans(b),
            a.len() as int,
        ),
    ensures
        e.mask_spec(a + b) == e.mask_spec(a) + e.mask_spec(b),
{
    reveal(MaskEngine::mask_spec);
    let gx = e.gathered_spans(a);
    let gy = e.gathered_spans(b);
    let off = a.len() as int;
    lemma_gathered_strict(e, a);
    lemma_gathered_strict(e, b);
    assert forall|i: int, j: int|
        0 <= i < gx.len() && 0 <= j < shift_spans(gy, off).len() implies (#[trigger] gx[i]).start
        < (#[trigger] shift_spans(gy, off)[j]).start by {
        assert(shift_spans(gy, off)[j] == shift_span(gy[j], off));
        assert(gy[j].start >= 0);
        assert(gx[i].start < gx[i].end <= off);
    }
    lemma_sort_concat(gx, shift_spans(gy, off));
    lemma_sort_shift(gy, off);
    lemma_sort_preserves_strict(gx, a.len() as int);
    lemma_sort_preserves_strict(gy, b.len() as int);
    lemma_walk_split(a, b, sort_spans(gx), sort_spans(gy), 0, 0);
}

/// Masking an empty input returns the empty input: no candidate can fit in
/// it.
pub proof fn lemma_mask_empty(e: MaskEngine)
    ensures
        e.mask_spec(Seq::empty()) == Seq::<u8>::empty(),
{
    lemma_gathered_strict(e, Seq::empty());
    let g = e.gathered_spans(Seq::empty());
    if g.len() > 0 {
        assert(0 <= g[0].start < g[0].end <= 0);
    }
    lemma_mask_clean_identity(e, Seq::empty());
}

/// No match straddles a chunk boundary: at every boundary, the candidates
/// gathered on the rest of the input are the boundary chunk's candidates
/// followed by the candidates of what comes after it, moved right. This is
/// the line-boundary contract: chunks end after a newline, and rule matches
/// of line-oriented input do not cross lines.
pub open spec fn no_straddle(e: MaskEngine, data: Seq<u8>, bounds: Seq<(int, int)>) -> bool {
    forall|i: int|
        0 <= i < bounds.len() ==> e.gathered_spans(
            data.subrange((#[trigger] bounds[i]).0, data.len() as int),
        ) == e.gathered_spans(data.subrange(bounds[i].0, bounds[i].1)) + shift_spans(
            e.gathered_spans(data.subrange(bounds[i].1, data.len() as int)),
            bounds[i].1 - bounds[i].0,
        )
}

/// One boundary of the split: masking from a boundary chunk's start to the
/// input's end equals masking the chunk and masking what follows it.
proof fn lemma_suffix_step(e: MaskEngine, data: Seq<u8>, b0: int, b1: int)
    requires
        0 <= b0 < b1 <= data.len(),
        e.gathered_spans(data.subrange(b0, data.len() as int)) == e.gathered_spans(
            data.subrange(b0, b1),
        ) + shift_spans(e.gathered_spans(data.subrange(b1, data.len() as int)), b1 - b0),
    ensures
        e.mask_spec(data.subrange(b0, data.len() as int)) == e.mask_spec(data.subrange(b0, b1))
            + e.mask_spec(data.subrange(b1, data.len() as int)),
{
    let len = data.len() as int;
    let chunk = data.subrange(b0, b1);
    let rest = data.subrange(b1, len);
    assert(data.subrange(b0, len) =~= chunk + rest);
    lemma_mask_splits(e, chunk, rest);
}

/// From any chunk on, the masked chunks concatenated equal masking the rest
/// of the input in one piece.
proof fn lemma_masked_concat_suffix(e: MaskEngine, data: Seq<u8>, bounds: Seq<(int, int)>, i: int)
    requires
        chunks_partition(bounds, data.len() as int),
        no_straddle(e, data, bounds),
        0 <= i <= bounds.len(),
        i < bounds.len() ==> bounds[i].0 >= 0,
    ensures
        masked_concat(e, data, bounds.skip(i)) == if i < bounds.len() {
            e.mask_spec(data.subrange(bounds[i].0, data.len() as int))
        } else {
            Seq::<u8>::empty()
        },
    decreases bounds.len() - i,
{
    if i == bounds.len() {
        assert(bounds.skip(i) =~= Seq::<(int, int)>::empty());
    } else {
        lemma_masked_concat_suffix(e, data, bounds, i + 1);
        let b0 = bounds[i].0;
        let b1 = bounds[i].1;
        let len = data.len() as int;
        assert(bounds.skip(i)[0] == bounds[i]);
        assert(bounds.skip(i).drop_first() =~= bounds.skip(i + 1));
        lemma_suffix_step(e, data, b0, b1);
        if i + 1 < bounds.len() {
            assert(bounds[i + 1].0 == b1);
        } else {
            // the last chunk runs to the input's end; what follows is empty
            assert(b1 == len);
            lemma_mask_empty(e);
            assert(data.subrange(b1, len) =~= Seq::<u8>::empty());
            assert(e.mask_spec(data.subrange(b0, b1)) + Seq::<u8>::empty() =~= e.mask_spec(
                data.subrange(b0, b1),
            ));
        }
    }
}

/// Law (ordering): for any input and any chunking into aligned chunks on
/// which no match straddles a boundary, the pipeline's output — the masked
/// chunks concatenated in chunk-index order — is byte-for-byte the masking
/// of the whole input.
pub proof fn lemma_pipeline_equals_whole(e: MaskEngine, data: Seq<u8>, bounds: Seq<(int, int)>)
    requires
        chunks_partition(bounds, data.len() as int),
        no_straddle(e, data, bounds),
    ensures
        masked_concat(e, data, bounds) == e.mask_spec(data),
{
    if bounds.len() == 0 {
        assert(data.len() == 0);
        assert(data =~= Seq::<u8>::empty());
        lemma_mask_empty(e);
    } else {
        lemma_masked_concat_suffix(e, data, bounds, 0);
        assert(bounds.skip(0) =~= bounds);
        assert(data.subrange(bounds[0].0, data.len() as int) =~= data);
    }
}

} // verus!
