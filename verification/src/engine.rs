//! The mask engine: rules compiled into a literal automaton plus a list of
//! regexes, a scanner that gathers candidate matches from both layers, and
//! the conflict-resolution walk that turns candidates into redacted bytes.
//!
//! The outside matchers (aho-corasick, regex) stand behind trusted items;
//! everything from the gathered candidates to the output bytes is verified.

use vstd::prelude::*;
use vstd::string::StrSliceExecFns;
use vstd::string::StringSliceAdditionalSpecFns;
use vstd::utf8::encode_utf8;

use crate::rules::Rule;
use crate::rules::is_literal;
use crate::rules::spec_is_literal;

verus! {

/// The implicit priority of every literal (fixed keyword) match. It lies
/// strictly above every representable rule priority (an `i32`), so a literal
/// beats any regex rule on an equal-start conflict.
pub const LITERAL_PRIORITY: i64 = 999_000_000_000;

// ===========================================================================
// Trusted declarations for the outside matchers
// ===========================================================================

#[verifier::external_type_specification]
#[verifier::external_body]
pub struct ExAhoCorasick(aho_corasick::AhoCorasick);

#[verifier::external_type_specification]
#[verifier::external_body]
pub struct ExRegex(regex::bytes::Regex);

/// Whether the automaton builder accepts a pattern list. The builder is
/// always configured the same way, so success is a function of the patterns
/// alone.
pub uninterp spec fn ac_builds(patterns: Seq<Seq<u8>>) -> bool;

/// The patterns a literal automaton was built from, in insertion order.
pub uninterp spec fn ac_patterns(ac: aho_corasick::AhoCorasick) -> Seq<Seq<u8>>;

/// What a leftmost-longest search of the automaton returns on a haystack:
/// the (start, end, pattern index) of each match, in order of position.
pub uninterp spec fn ac_found(patterns: Seq<Seq<u8>>, haystack: Seq<u8>) -> Seq<(int, int, int)>;

/// Whether the regex engine accepts a pattern. Compilation is always run
/// with the same configuration, so success is a function of the pattern
/// alone.
pub uninterp spec fn regex_compiles(pattern: Seq<char>) -> bool;

/// Whether a compiled regex matches the empty string — the mark of a rule
/// that can produce a zero-width match on any input. A function of the
/// pattern alone.
pub uninterp spec fn regex_matches_empty(pattern: Seq<char>) -> bool;

/// The pattern a compiled regex was built from.
pub uninterp spec fn regex_pattern(re: regex::bytes::Regex) -> Seq<char>;

/// What a regex search returns on a haystack: the (start, end) of each
/// non-overlapping match, in order of position.
pub uninterp spec fn regex_found(pattern: Seq<char>, haystack: Seq<u8>) -> Seq<(int, int)>;

/// Structural facts the automaton's search guarantees of its matches: spans
/// lie inside the haystack, name a real pattern, reproduce that pattern's
/// bytes, and come in increasing, non-overlapping position order.
pub open spec fn ac_found_wf(found: Seq<(int, int, int)>, patterns: Seq<Seq<u8>>, haystack: Seq<u8>) -> bool {
    &&& (forall|i: int|
        0 <= i < found.len() ==> {
            let m = #[trigger] found[i];
            &&& 0 <= m.0 <= m.1 <= haystack.len()
            &&& 0 <= m.2 < patterns.len()
            &&& haystack.subrange(m.0, m.1) == patterns[m.2]
        })
    &&& (forall|i: int| 0 <= i < found.len() - 1 ==> (#[trigger] found[i]).1 <= found[i + 1].0)
}

/// Structural facts a regex search guarantees of its matches: spans lie
/// inside the haystack and come in increasing, non-overlapping order.
pub open spec fn regex_found_wf(found: Seq<(int, int)>, haystack: Seq<u8>) -> bool {
    &&& (forall|i: int|
        0 <= i < found.len() ==> {
            let m = #[trigger] found[i];
            0 <= m.0 <= m.1 <= haystack.len()
        })
    &&& (forall|i: int| 0 <= i < found.len() - 1 ==> (#[trigger] found[i]).1 <= found[i + 1].0)
}

/// Relies on aho_corasick::AhoCorasickBuilder::build with
/// MatchKind::LeftmostLongest: the fixed-configuration build succeeds as a
/// function of the patterns alone, and on success the automaton holds
/// exactly the given patterns, each under its insertion index.
#[verifier::external_body]
fn build_automaton(patterns: &Vec<Vec<u8>>) -> (r: Option<aho_corasick::AhoCorasick>)
    ensures
        r is Some <==> ac_builds(patterns@.map_values(|p: Vec<u8>| p@)),
        r matches Some(ac) ==> ac_patterns(ac) == patterns@.map_values(|p: Vec<u8>| p@),
{
    aho_corasick::AhoCorasick::builder()
        .match_kind(aho_corasick::MatchKind::LeftmostLongest)
        .build(patterns)
        .ok()
}

/// Relies on aho_corasick::AhoCorasick::find_iter: a leftmost-longest search
/// yields non-overlapping matches in increasing position order, each one an
/// occurrence of the pattern whose index it names.
#[verifier::external_body]
fn find_literal_matches(ac: &aho_corasick::AhoCorasick, haystack: &[u8]) -> (r: Vec<(usize, usize, usize)>)
    ensures
        r@.map_values(|m: (usize, usize, usize)| (m.0 as int, m.1 as int, m.2 as int))
            == ac_found(ac_patterns(*ac), haystack@),
        ac_found_wf(
            r@.map_values(|m: (usize, usize, usize)| (m.0 as int, m.1 as int, m.2 as int)),
            ac_patterns(*ac),
            haystack@,
        ),
{
    let mut v = Vec::new();
    for m in ac.find_iter(haystack) {
        v.push((m.start(), m.end(), m.pattern().as_usize()));
    }
    v
}

/// Relies on regex::bytes::Regex::new: the default-configuration compile
/// succeeds as a function of the pattern alone, and on success the regex
/// was compiled from exactly the given pattern text.
#[verifier::external_body]
fn compile_regex(pattern: &str) -> (r: Option<regex::bytes::Regex>)
    ensures
        r is Some <==> regex_compiles(pattern@),
        r matches Some(re) ==> regex_pattern(re) == pattern@,
{
    regex::bytes::Regex::new(pattern).ok()
}

/// Relies on regex::bytes::Regex::is_match on the empty haystack: whether
/// the regex matches the empty string, hence can produce a zero-width match
/// on any input. A zero-width match tied to surrounding text (a bare word
/// boundary) is not caught here; the scanner's runtime filter handles it.
#[verifier::external_body]
fn matches_empty_input(re: &regex::bytes::Regex) -> (r: bool)
    ensures
        r == regex_matches_empty(regex_pattern(*re)),
{
    re.is_match(b"")
}

/// Relies on regex::bytes::Regex::find_iter: successive non-overlapping
/// matches of the regex, leftmost-first, in increasing position order.
#[verifier::external_body]
fn find_regex_matches(re: &regex::bytes::Regex, haystack: &[u8]) -> (r: Vec<(usize, usize)>)
    ensures
        r@.map_values(|m: (usize, usize)| (m.0 as int, m.1 as int))
            == regex_found(regex_pattern(*re), haystack@),
        regex_found_wf(r@.map_values(|m: (usize, usize)| (m.0 as int, m.1 as int)), haystack@),
{
    let mut v = Vec::new();
    for m in re.find_iter(haystack) {
        v.push((m.start(), m.end()));
    }
    v
}

// ===========================================================================
// Match spans and the conflict-resolution walk
// ===========================================================================

/// One candidate match: a half-open byte span of the input, the priority of
/// the rule that produced it, and the mask to substitute.
pub struct MatchSpan {
    pub start: usize,
    pub end: usize,
    pub priority: i64,
    pub mask: Vec<u8>,
}

/// The mathematical shape of a candidate match.
pub ghost struct SpanView {
    pub start: int,
    pub end: int,
    pub priority: int,
    pub mask: Seq<u8>,
}

impl View for MatchSpan {
    type V = SpanView;

    open spec fn view(&self) -> SpanView {
        SpanView {
            start: self.start as int,
            end: self.end as int,
            priority: self.priority as int,
            mask: self.mask@,
        }
    }
}

/// The views of a sequence of spans.
pub open spec fn span_views(s: Seq<MatchSpan>) -> Seq<SpanView> {
    s.map_values(|m: MatchSpan| m@)
}

/// A span lies inside an input of the given length.
pub open spec fn span_in_bounds(s: SpanView, len: int) -> bool {
    0 <= s.start <= s.end <= len
}

/// All spans of a sequence lie inside an input of the given length.
pub open spec fn spans_in_bounds(s: Seq<SpanView>, len: int) -> bool {
    forall|i: int| 0 <= i < s.len() ==> span_in_bounds(#[trigger] s[i], len)
}

/// The conflict-resolution walk from candidate index `i` with cursor `last`:
/// a candidate starting before the cursor is suppressed; otherwise the bytes
/// up to its start are kept, its mask is emitted, and the cursor moves to
/// its end. After the last candidate the tail of the input is kept.
pub open spec fn apply_spans(input: Seq<u8>, spans: Seq<SpanView>, i: int, last: int) -> Seq<u8>
    decreases spans.len() - i when i >= 0
{
    if i >= spans.len() {
        input.subrange(last, input.len() as int)
    } else if spans[i].start < last {
        apply_spans(input, spans, i + 1, last)
    } else {
        input.subrange(last, spans[i].start) + spans[i].mask + apply_spans(
            input,
            spans,
            i + 1,
            spans[i].end,
        )
    }
}

// ===========================================================================
// The sort policy: start ascending, priority descending, length descending,
// ties kept in gathering order (the sort is stable)
// ===========================================================================

/// The ordering of the conflict-resolution sort: by start ascending, then
/// priority descending, then length descending. Candidates equal under all
/// three keys compare equal both ways; the stable sort keeps their gathering
/// order.
pub open spec fn span_le(a: SpanView, b: SpanView) -> bool {
    if a.start != b.start {
        a.start < b.start
    } else if a.priority != b.priority {
        a.priority > b.priority
    } else {
        a.end - a.start >= b.end - b.start
    }
}

/// Inserts a candidate into an already sorted sequence, after every element
/// it does not strictly precede (so equal keys keep their original order).
pub open spec fn insert_span(sorted: Seq<SpanView>, x: SpanView) -> Seq<SpanView>
    decreases sorted.len(),
{
    if sorted.len() == 0 {
        seq![x]
    } else if !span_le(sorted[0], x) {
        seq![x] + sorted
    } else {
        seq![sorted[0]] + insert_span(sorted.drop_first(), x)
    }
}

/// Stable insertion sort under [`span_le`], the exact order the resolution
/// walk consumes.
pub open spec fn sort_spans(s: Seq<SpanView>) -> Seq<SpanView>
    decreases s.len(),
{
    if s.len() == 0 {
        Seq::empty()
    } else {
        insert_span(sort_spans(s.drop_last()), s.last())
    }
}

/// A sequence is sorted when each element precedes-or-ties its successor.
pub open spec fn sorted_spans(s: Seq<SpanView>) -> bool {
    forall|i: int| 0 <= i < s.len() - 1 ==> span_le(#[trigger] s[i], s[i + 1])
}

/// Inserting at the first position whose element strictly follows `x` is
/// exactly what [`insert_span`] does.
proof fn lemma_insert_at(s: Seq<SpanView>, x: SpanView, k: int)
    requires
        0 <= k <= s.len(),
        forall|j: int| 0 <= j < k ==> span_le(#[trigger] s[j], x),
        k < s.len() ==> !span_le(s[k], x),
    ensures
        insert_span(s, x) == s.take(k) + seq![x] + s.skip(k),
    decreases k,
{
    if k == 0 {
        assert(insert_span(s, x) =~= s.take(0) + seq![x] + s.skip(0));
    } else {
        let rest = s.drop_first();
        assert(forall|j: int| 0 <= j < k - 1 ==> span_le(#[trigger] rest[j], x));
        lemma_insert_at(rest, x, k - 1);
        assert(insert_span(s, x) =~= s.take(k) + seq![x] + s.skip(k));
    }
}

/// Compares two candidates under the sort policy.
fn span_le_exec(a: &MatchSpan, b: &MatchSpan) -> (r: bool)
    requires
        a.start <= a.end,
        b.start <= b.end,
    ensures
        r == span_le(a@, b@),
{
    if a.start != b.start {
        a.start < b.start
    } else if a.priority != b.priority {
        a.priority > b.priority
    } else {
        a.end - a.start >= b.end - b.start
    }
}

/// Sorts the candidates by start ascending, priority descending, length
/// descending; candidates equal under all keys keep their gathering order.
pub fn sort_matches(spans: Vec<MatchSpan>) -> (r: Vec<MatchSpan>)
    requires
        forall|i: int| 0 <= i < spans@.len() ==> (#[trigger] spans@[i]).start <= spans@[i].end,
    ensures
        span_views(r@) == sort_spans(span_views(spans@)),
{
    let ghost orig = span_views(spans@);
    let mut rest = spans;
    let mut out: Vec<MatchSpan> = Vec::new();
    let ghost n: int = 0;
    while rest.len() > 0
        invariant
            0 <= n <= orig.len(),
            n + rest@.len() == orig.len(),
            span_views(rest@) =~= orig.skip(n),
            span_views(out@) == sort_spans(orig.take(n)),
            forall|i: int| 0 <= i < rest@.len() ==> (#[trigger] rest@[i]).start <= rest@[i].end,
            forall|i: int| 0 <= i < out@.len() ==> (#[trigger] out@[i]).start <= out@[i].end,
        decreases rest@.len(),
    {
        let ghost rest0 = rest@;
        let x = rest.remove(0);
        proof {
            assert(span_views(rest0)[0] == rest0[0]@);
            assert(x@ == orig[n]);
            assert forall|t: int| 0 <= t < rest@.len() implies span_views(rest@)[t] == orig.skip(
                n + 1,
            )[t] by {
                assert(rest@[t] == rest0[t + 1]);
                assert(span_views(rest0)[t + 1] == rest0[t + 1]@);
            }
            assert(span_views(rest@) =~= orig.skip(n + 1));
        }
        // find the first position whose element strictly follows x
        let mut k: usize = 0;
        while k < out.len() && span_le_exec(&out[k], &x)
            invariant
                0 <= k <= out@.len(),
                forall|i: int| 0 <= i < out@.len() ==> (#[trigger] out@[i]).start <= out@[i].end,
                x.start <= x.end,
                forall|j: int| 0 <= j < k ==> span_le(span_views(out@)[j], x@),
            decreases out@.len() - k,
        {
            k = k + 1;
        }
        proof {
            lemma_insert_at(span_views(out@), x@, k as int);
        }
        let ghost out_before = span_views(out@);
        out.insert(k, x);
        proof {
            assert(span_views(out@) =~= out_before.take(k as int) + seq![x@] + out_before.skip(
                k as int,
            ));
            assert(orig.take(n + 1).drop_last() =~= orig.take(n));
            assert(orig.take(n + 1).last() == orig[n]);
            assert(span_views(out@) == sort_spans(orig.take(n + 1)));
        }
        proof {
            n = n + 1;
        }
    }
    proof {
        assert(orig.take(n) =~= orig);
    }
    out
}

// ===========================================================================
// Gathering candidates from both matcher layers
// ===========================================================================

/// One compiled regex rule: the regex, its mask bytes, and its priority.
pub struct CompiledRegex {
    pub re: regex::bytes::Regex,
    pub mask: Vec<u8>,
    pub priority: i64,
}

/// The mathematical shape of a compiled regex rule.
pub ghost struct RegexRuleView {
    pub pattern: Seq<char>,
    pub mask: Seq<u8>,
    pub priority: int,
}

impl View for CompiledRegex {
    type V = RegexRuleView;

    open spec fn view(&self) -> RegexRuleView {
        RegexRuleView {
            pattern: regex_pattern(self.re),
            mask: self.mask@,
            priority: self.priority as int,
        }
    }
}

/// The views of a list of compiled regex rules.
pub open spec fn regex_views(s: Seq<CompiledRegex>) -> Seq<RegexRuleView> {
    s.map_values(|c: CompiledRegex| c@)
}

/// The views of a list of mask byte strings.
pub open spec fn mask_views(s: Seq<Vec<u8>>) -> Seq<Seq<u8>> {
    s.map_values(|v: Vec<u8>| v@)
}

/// An automaton match is kept when its span is non-empty, lies inside the
/// input, and names a pattern with a recorded mask. Zero-width matches are
/// treated as non-matching.
pub open spec fn lit_valid(m: (int, int, int), masks_len: int, input_len: int) -> bool {
    0 <= m.0 < m.1 <= input_len && 0 <= m.2 < masks_len
}

/// The candidate spans contributed by the literal automaton: each kept match
/// becomes a span at the fixed literal priority with its pattern's mask.
pub open spec fn lit_spans(found: Seq<(int, int, int)>, masks: Seq<Seq<u8>>, input_len: int) -> Seq<SpanView>
    decreases found.len(),
{
    if found.len() == 0 {
        Seq::empty()
    } else {
        lit_spans(found.drop_last(), masks, input_len) + (if lit_valid(
            found.last(),
            masks.len() as int,
            input_len,
        ) {
            seq![
                SpanView {
                    start: found.last().0,
                    end: found.last().1,
                    priority: LITERAL_PRIORITY as int,
                    mask: masks[found.last().2],
                },
            ]
        } else {
            Seq::empty()
        })
    }
}

/// The candidate spans contributed by one regex rule: each non-empty match
/// inside the input becomes a span at the rule's priority with its mask.
/// Zero-width matches are treated as non-matching.
pub open spec fn regex_rule_spans(found: Seq<(int, int)>, priority: int, mask: Seq<u8>, input_len: int) -> Seq<SpanView>
    decreases found.len(),
{
    if found.len() == 0 {
        Seq::empty()
    } else {
        regex_rule_spans(found.drop_last(), priority, mask, input_len) + (if 0 <= found.last().0
            < found.last().1 <= input_len {
            seq![
                SpanView { start: found.last().0, end: found.last().1, priority: priority, mask: mask },
            ]
        } else {
            Seq::empty()
        })
    }
}

/// The candidate spans of all regex rules, in rule order.
pub open spec fn regex_layer_spans(rules: Seq<RegexRuleView>, input: Seq<u8>) -> Seq<SpanView>
    decreases rules.len(),
{
    if rules.len() == 0 {
        Seq::empty()
    } else {
        regex_layer_spans(rules.drop_last(), input) + regex_rule_spans(
            regex_found(rules.last().pattern, input),
            rules.last().priority,
            rules.last().mask,
            input.len() as int,
        )
    }
}

/// Copies a byte string.
fn copy_bytes(v: &Vec<u8>) -> (r: Vec<u8>)
    ensures
        r@ == v@,
{
    let mut r: Vec<u8> = Vec::new();
    let mut i: usize = 0;
    while i < v.len()
        invariant
            0 <= i <= v@.len(),
            r@ == v@.take(i as int),
        decreases v@.len() - i,
    {
        r.push(v[i]);
        proof {
            assert(v@.take(i + 1 as int) =~= v@.take(i as int).push(v@[i as int]));
        }
        i = i + 1;
    }
    proof {
        assert(v@.take(v@.len() as int) =~= v@);
    }
    r
}

/// Appends `input[from..to]` to `out`.
fn append_range(out: &mut Vec<u8>, input: &[u8], from: usize, to: usize)
    requires
        from <= to <= input@.len(),
    ensures
        final(out)@ == old(out)@ + input@.subrange(from as int, to as int),
{
    let mut k: usize = from;
    while k < to
        invariant
            from <= k <= to <= input@.len(),
            out@ == old(out)@ + input@.subrange(from as int, k as int),
        decreases to - k,
    {
        out.push(input[k]);
        proof {
            assert(input@.subrange(from as int, k + 1 as int) =~= input@.subrange(
                from as int,
                k as int,
            ).push(input@[k as int]));
        }
        k = k + 1;
    }
    proof {
        assert(out@ =~= old(out)@ + input@.subrange(from as int, to as int));
    }
}

/// Resolves a list of candidate matches against the input: walks the
/// candidates in order with a cursor, suppressing every candidate that
/// starts before the cursor, and emits kept bytes and masks.
///
/// The candidates are taken exactly in the order given; sort them first to
/// get the engine's priority policy.
pub fn resolve_matches(input: &[u8], spans: &Vec<MatchSpan>) -> (r: Vec<u8>)
    requires
        spans_in_bounds(span_views(spans@), input@.len() as int),
    ensures
        r@ == apply_spans(input@, span_views(spans@), 0, 0),
{
    let ghost vs = span_views(spans@);
    let mut out: Vec<u8> = Vec::new();
    let mut last: usize = 0;
    let mut i: usize = 0;
    while i < spans.len()
        invariant
            0 <= i <= spans@.len(),
            last <= input@.len(),
            vs == span_views(spans@),
            spans_in_bounds(vs, input@.len() as int),
            apply_spans(input@, vs, 0, 0) == out@ + apply_spans(input@, vs, i as int, last as int),
        decreases spans@.len() - i,
    {
        proof {
            assert(vs[i as int] == spans@[i as int]@);
        }
        let s_start = spans[i].start;
        let s_end = spans[i].end;
        if s_start >= last {
            let ghost out0 = out@;
            let ghost last0 = last as int;
            append_range(&mut out, input, last, s_start);
            let ghost out1 = out@;
            let mask = &spans[i].mask;
            let mut k: usize = 0;
            while k < mask.len()
                invariant
                    0 <= k <= mask@.len(),
                    out@ == out1 + mask@.subrange(0, k as int),
                decreases mask@.len() - k,
            {
                out.push(mask[k]);
                proof {
                    assert(mask@.subrange(0, k + 1 as int) =~= mask@.subrange(0, k as int).push(
                        mask@[k as int],
                    ));
                }
                k = k + 1;
            }
            proof {
                assert(mask@.subrange(0, mask@.len() as int) =~= mask@);
                assert(apply_spans(input@, vs, i as int, last0) == input@.subrange(
                    last0,
                    vs[i as int].start,
                ) + vs[i as int].mask + apply_spans(input@, vs, i + 1, vs[i as int].end));
                assert(out@ =~= out0 + input@.subrange(last0, s_start as int) + mask@);
                assert(apply_spans(input@, vs, 0, 0) =~= out@ + apply_spans(
                    input@,
                    vs,
                    i + 1,
                    s_end as int,
                ));
            }
            last = s_end;
        } else {
            proof {
                assert(apply_spans(input@, vs, i as int, last as int) == apply_spans(
                    input@,
                    vs,
                    i + 1,
                    last as int,
                ));
            }
        }
        i = i + 1;
    }
    append_range(&mut out, input, last, input.len());
    proof {
        assert(apply_spans(input@, vs, i as int, last as int) == input@.subrange(
            last as int,
            input@.len() as int,
        ));
    }
    out
}

// ===========================================================================
// What the sort keeps: length and elements (hence bounds)
// ===========================================================================

/// Inserting adds one element; everything in the result is the new element
/// or one of the old ones.
proof fn lemma_insert_span_props(s: Seq<SpanView>, x: SpanView)
    ensures
        insert_span(s, x).len() == s.len() + 1,
        forall|i: int|
            0 <= i < insert_span(s, x).len() ==> (#[trigger] insert_span(s, x)[i] == x
                || s.contains(insert_span(s, x)[i])),
    decreases s.len(),
{
    if s.len() == 0 {
    } else if !span_le(s[0], x) {
        assert forall|i: int| 0 <= i < insert_span(s, x).len() implies (#[trigger] insert_span(
            s,
            x,
        )[i] == x || s.contains(insert_span(s, x)[i])) by {
            if i > 0 {
                assert(insert_span(s, x)[i] == s[i - 1]);
            }
        }
    } else {
        let rest = s.drop_first();
        lemma_insert_span_props(rest, x);
        assert forall|i: int| 0 <= i < insert_span(s, x).len() implies (#[trigger] insert_span(
            s,
            x,
        )[i] == x || s.contains(insert_span(s, x)[i])) by {
            if i == 0 {
                assert(insert_span(s, x)[0] == s[0]);
                assert(s.contains(s[0]));
            } else {
                assert(insert_span(s, x)[i] == insert_span(rest, x)[i - 1]);
                if insert_span(rest, x)[i - 1] != x {
                    let e = insert_span(rest, x)[i - 1];
                    assert(rest.contains(e));
                    let j = choose|j: int| 0 <= j < rest.len() && rest[j] == e;
                    assert(s[j + 1] == e);
                }
            }
        }
    }
}

/// The sort is a permutation: same length, and every element of the result
/// is an element of the input.
pub proof fn lemma_sort_spans_elems(s: Seq<SpanView>)
    ensures
        sort_spans(s).len() == s.len(),
        forall|i: int| 0 <= i < sort_spans(s).len() ==> s.contains(#[trigger] sort_spans(s)[i]),
    decreases s.len(),
{
    if s.len() == 0 {
    } else {
        let prefix = s.drop_last();
        lemma_sort_spans_elems(prefix);
        lemma_insert_span_props(sort_spans(prefix), s.last());
        assert forall|i: int| 0 <= i < sort_spans(s).len() implies s.contains(
            #[trigger] sort_spans(s)[i],
        ) by {
            let e = sort_spans(s)[i];
            if e == s.last() {
                assert(s[s.len() - 1] == e);
            } else {
                assert(sort_spans(prefix).contains(e));
                let j = choose|j: int| 0 <= j < sort_spans(prefix).len() && sort_spans(prefix)[j]
                    == e;
                assert(prefix.contains(e));
                let k = choose|k: int| 0 <= k < prefix.len() && prefix[k] == e;
                assert(s[k] == e);
            }
        }
    }
}

/// Sorting keeps every span inside the input.
pub proof fn lemma_sort_preserves_bounds(s: Seq<SpanView>, len: int)
    requires
        spans_in_bounds(s, len),
    ensures
        spans_in_bounds(sort_spans(s), len),
{
    lemma_sort_spans_elems(s);
    assert forall|i: int| 0 <= i < sort_spans(s).len() implies span_in_bounds(
        #[trigger] sort_spans(s)[i],
        len,
    ) by {
        let e = sort_spans(s)[i];
        assert(s.contains(e));
        let j = choose|j: int| 0 <= j < s.len() && s[j] == e;
        assert(span_in_bounds(s[j], len));
    }
}

// ===========================================================================
// Classifying and ordering rules for construction
// ===========================================================================

/// The UTF-8 bytes of a rule's pattern.
pub open spec fn rule_pattern_bytes(r: Rule) -> Seq<u8> {
    encode_utf8(r.pattern@)
}

/// The UTF-8 bytes of a rule's mask.
pub open spec fn rule_mask_bytes(r: Rule) -> Seq<u8> {
    encode_utf8(r.mask@)
}

/// The UTF-8 bytes of a rule's name.
pub open spec fn rule_name_bytes(r: Rule) -> Seq<u8> {
    encode_utf8(r.name@)
}

/// Whether a rule belongs to the literal class (no regex metacharacter in
/// its pattern).
pub open spec fn rule_is_literal(r: Rule) -> bool {
    spec_is_literal(rule_pattern_bytes(r))
}

/// The patterns of the enabled literal rules, in rule order: what the
/// literal automaton is built from.
pub open spec fn lit_pattern_list(rules: Seq<Rule>) -> Seq<Seq<u8>>
    decreases rules.len(),
{
    if rules.len() == 0 {
        Seq::empty()
    } else {
        lit_pattern_list(rules.drop_last()) + (if rules.last().enabled && rule_is_literal(
            rules.last(),
        ) {
            seq![rule_pattern_bytes(rules.last())]
        } else {
            Seq::empty()
        })
    }
}

/// The masks of the enabled literal rules, in rule order, indexed like
/// [`lit_pattern_list`].
pub open spec fn lit_mask_list(rules: Seq<Rule>) -> Seq<Seq<u8>>
    decreases rules.len(),
{
    if rules.len() == 0 {
        Seq::empty()
    } else {
        lit_mask_list(rules.drop_last()) + (if rules.last().enabled && rule_is_literal(
            rules.last(),
        ) {
            seq![rule_mask_bytes(rules.last())]
        } else {
            Seq::empty()
        })
    }
}

/// A regex rule awaiting compilation: name (the sort tie-break), pattern,
/// mask, and priority.
struct RegexCand {
    name: Vec<u8>,
    pattern: String,
    mask: Vec<u8>,
    priority: i32,
}

/// The mathematical shape of a regex candidate.
pub ghost struct RegexCandView {
    pub name: Seq<u8>,
    pub pattern: Seq<char>,
    pub mask: Seq<u8>,
    pub priority: int,
}

impl View for RegexCand {
    type V = RegexCandView;

    closed spec fn view(&self) -> RegexCandView {
        RegexCandView {
            name: self.name@,
            pattern: self.pattern@,
            mask: self.mask@,
            priority: self.priority as int,
        }
    }
}

/// The views of a list of regex candidates.
spec fn cand_views(s: Seq<RegexCand>) -> Seq<RegexCandView> {
    s.map_values(|c: RegexCand| c@)
}

/// The candidate of one rule.
pub open spec fn cand_of(r: Rule) -> RegexCandView {
    RegexCandView {
        name: rule_name_bytes(r),
        pattern: r.pattern@,
        mask: rule_mask_bytes(r),
        priority: r.priority as int,
    }
}

/// The enabled regex rules as candidates, in rule order.
pub open spec fn regex_cands(rules: Seq<Rule>) -> Seq<RegexCandView>
    decreases rules.len(),
{
    if rules.len() == 0 {
        Seq::empty()
    } else {
        regex_cands(rules.drop_last()) + (if rules.last().enabled && !rule_is_literal(
            rules.last(),
        ) {
            seq![cand_of(rules.last())]
        } else {
            Seq::empty()
        })
    }
}

/// Strict lexicographic order on byte strings.
pub open spec fn bytes_lt(a: Seq<u8>, b: Seq<u8>) -> bool
    decreases a.len(),
{
    if b.len() == 0 {
        false
    } else if a.len() == 0 {
        true
    } else if a[0] != b[0] {
        a[0] < b[0]
    } else {
        bytes_lt(a.drop_first(), b.drop_first())
    }
}

/// The order regex rules are compiled in: by priority descending, ties by
/// name ascending; candidates equal under both keys keep their rule order.
pub open spec fn cand_le(a: RegexCandView, b: RegexCandView) -> bool {
    if a.priority != b.priority {
        a.priority > b.priority
    } else if a.name != b.name {
        bytes_lt(a.name, b.name)
    } else {
        true
    }
}

/// Inserts a candidate into an already sorted sequence, after every element
/// it does not strictly precede.
pub open spec fn insert_cand(sorted: Seq<RegexCandView>, x: RegexCandView) -> Seq<RegexCandView>
    decreases sorted.len(),
{
    if sorted.len() == 0 {
        seq![x]
    } else if !cand_le(sorted[0], x) {
        seq![x] + sorted
    } else {
        seq![sorted[0]] + insert_cand(sorted.drop_first(), x)
    }
}

/// Stable insertion sort of the regex candidates under [`cand_le`].
pub open spec fn sort_cands(s: Seq<RegexCandView>) -> Seq<RegexCandView>
    decreases s.len(),
{
    if s.len() == 0 {
        Seq::empty()
    } else {
        insert_cand(sort_cands(s.drop_last()), s.last())
    }
}

/// Inserting at the first position whose element strictly follows `x` is
/// exactly what [`insert_cand`] does.
proof fn lemma_insert_cand_at(s: Seq<RegexCandView>, x: RegexCandView, k: int)
    requires
        0 <= k <= s.len(),
        forall|j: int| 0 <= j < k ==> cand_le(#[trigger] s[j], x),
        k < s.len() ==> !cand_le(s[k], x),
    ensures
        insert_cand(s, x) == s.take(k) + seq![x] + s.skip(k),
    decreases k,
{
    if k == 0 {
        assert(insert_cand(s, x) =~= s.take(0) + seq![x] + s.skip(0));
    } else {
        let rest = s.drop_first();
        assert(forall|j: int| 0 <= j < k - 1 ==> cand_le(#[trigger] rest[j], x));
        lemma_insert_cand_at(rest, x, k - 1);
        assert(insert_cand(s, x) =~= s.take(k) + seq![x] + s.skip(k));
    }
}

/// Whether two byte strings hold the same bytes.
fn bytes_eq(a: &Vec<u8>, b: &Vec<u8>) -> (r: bool)
    ensures
        r == (a@ == b@),
{
    if a.len() != b.len() {
        proof {
            assert(a@ != b@);
        }
        return false;
    }
    let mut i: usize = 0;
    while i < a.len()
        invariant
            0 <= i <= a@.len(),
            a@.len() == b@.len(),
            forall|j: int| 0 <= j < i ==> a@[j] == b@[j],
        decreases a@.len() - i,
    {
        if a[i] != b[i] {
            return false;
        }
        i = i + 1;
    }
    proof {
        assert(a@ =~= b@);
    }
    true
}

/// Compares two byte strings lexicographically.
fn bytes_lt_exec(a: &Vec<u8>, b: &Vec<u8>) -> (r: bool)
    ensures
        r == bytes_lt(a@, b@),
{
    proof {
        assert(a@.skip(0) =~= a@);
        assert(b@.skip(0) =~= b@);
    }
    let mut i: usize = 0;
    while i < a.len() && i < b.len()
        invariant
            0 <= i <= a@.len(),
            0 <= i <= b@.len(),
            bytes_lt(a@, b@) == bytes_lt(a@.skip(i as int), b@.skip(i as int)),
        decreases a@.len() - i,
    {
        let x = a[i];
        let y = b[i];
        proof {
            assert(a@.skip(i as int)[0] == a@[i as int]);
            assert(b@.skip(i as int)[0] == b@[i as int]);
            assert(a@.skip(i as int).drop_first() =~= a@.skip(i + 1));
            assert(b@.skip(i as int).drop_first() =~= b@.skip(i + 1));
        }
        if x < y {
            return true;
        }
        if x > y {
            return false;
        }
        i = i + 1;
    }
    proof {
        assert(bytes_lt(a@.skip(i as int), b@.skip(i as int)) == (a@.len() < b@.len()));
    }
    a.len() < b.len()
}

/// Compares two candidates under the compile order.
fn cand_le_exec(a: &RegexCand, b: &RegexCand) -> (r: bool)
    ensures
        r == cand_le(a@, b@),
{
    if a.priority != b.priority {
        a.priority > b.priority
    } else if !bytes_eq(&a.name, &b.name) {
        bytes_lt_exec(&a.name, &b.name)
    } else {
        true
    }
}

/// Sorts the regex candidates by priority descending, ties by name
/// ascending; candidates equal under both keys keep their rule order.
fn sort_regex_cands(cands: Vec<RegexCand>) -> (r: Vec<RegexCand>)
    ensures
        cand_views(r@) == sort_cands(cand_views(cands@)),
{
    let ghost orig = cand_views(cands@);
    let mut rest = cands;
    let mut out: Vec<RegexCand> = Vec::new();
    let ghost n: int = 0;
    while rest.len() > 0
        invariant
            0 <= n <= orig.len(),
            n + rest@.len() == orig.len(),
            cand_views(rest@) =~= orig.skip(n),
            cand_views(out@) == sort_cands(orig.take(n)),
        decreases rest@.len(),
    {
        let ghost rest0 = rest@;
        let x = rest.remove(0);
        proof {
            assert(cand_views(rest0)[0] == rest0[0]@);
            assert(x@ == orig[n]);
            assert forall|t: int| 0 <= t < rest@.len() implies cand_views(rest@)[t] == orig.skip(
                n + 1,
            )[t] by {
                assert(rest@[t] == rest0[t + 1]);
                assert(cand_views(rest0)[t + 1] == rest0[t + 1]@);
            }
            assert(cand_views(rest@) =~= orig.skip(n + 1));
        }
        let mut k: usize = 0;
        while k < out.len() && cand_le_exec(&out[k], &x)
            invariant
                0 <= k <= out@.len(),
                forall|j: int| 0 <= j < k ==> cand_le(cand_views(out@)[j], x@),
            decreases out@.len() - k,
        {
            k = k + 1;
        }
        proof {
            lemma_insert_cand_at(cand_views(out@), x@, k as int);
        }
        let ghost out_before = cand_views(out@);
        out.insert(k, x);
        proof {
            assert(cand_views(out@) =~= out_before.take(k as int) + seq![x@] + out_before.skip(
                k as int,
            ));
            assert(orig.take(n + 1).drop_last() =~= orig.take(n));
            assert(orig.take(n + 1).last() == orig[n]);
            assert(cand_views(out@) == sort_cands(orig.take(n + 1)));
        }
        proof {
            n = n + 1;
        }
    }
    proof {
        assert(orig.take(n) =~= orig);
    }
    out
}

// ===========================================================================
// Which regexes the engine keeps
// ===========================================================================

/// A candidate is kept exactly when the regex engine accepts its pattern
/// and the pattern cannot match the empty string. An unparseable pattern is
/// quarantined fail-soft; one that could produce zero-width matches is
/// rejected at construction time.
pub open spec fn cand_kept(c: RegexCandView) -> bool {
    regex_compiles(c.pattern) && !regex_matches_empty(c.pattern)
}

/// The compiled rule a kept candidate turns into.
pub open spec fn rule_of_cand(c: RegexCandView) -> RegexRuleView {
    RegexRuleView { pattern: c.pattern, mask: c.mask, priority: c.priority }
}

/// Exactly the compiled rules construction owes: the kept candidates, in
/// candidate order, each realized with its pattern, mask and priority.
pub open spec fn compiled_rules_of(cands: Seq<RegexCandView>) -> Seq<RegexRuleView>
    decreases cands.len(),
{
    if cands.len() == 0 {
        Seq::empty()
    } else {
        compiled_rules_of(cands.drop_last()) + (if cand_kept(cands.last()) {
            seq![rule_of_cand(cands.last())]
        } else {
            Seq::empty()
        })
    }
}

// ===========================================================================
// The engine
// ===========================================================================

/// The compiled rule set: a literal automaton over the fixed keywords with
/// their masks, and the compiled regex rules in their configured order.
/// Immutable once built; scanning never fails and never blocks.
pub struct MaskEngine {
    /// The literal automaton over the fixed keywords; None when there are
    /// no literal rules or the automaton could not be built.
    pub ac: Option<aho_corasick::AhoCorasick>,
    /// The mask of each literal pattern, indexed like the automaton's
    /// patterns.
    pub ac_masks: Vec<Vec<u8>>,
    /// The compiled regex rules, ordered by priority descending then name
    /// ascending.
    pub regex_rules: Vec<CompiledRegex>,
}

impl MaskEngine {
    /// The candidate spans the literal automaton contributes on an input.
    pub open spec fn lit_candidates(self, input: Seq<u8>) -> Seq<SpanView> {
        if self.ac is Some {
            lit_spans(
                ac_found(ac_patterns(self.ac->Some_0), input),
                mask_views(self.ac_masks@),
                input.len() as int,
            )
        } else {
            Seq::empty()
        }
    }

    /// Every candidate span the engine gathers on an input: the literal
    /// layer first, then each regex rule in order.
    pub open spec fn gathered_spans(self, input: Seq<u8>) -> Seq<SpanView> {
        self.lit_candidates(input) + regex_layer_spans(regex_views(self.regex_rules@), input)
    }

    /// What masking an input returns: the gathered candidates, sorted under
    /// the priority policy, consumed by the resolution walk. A pure function
    /// of the rule set and the input.
    #[verifier::opaque]
    pub open spec fn mask_spec(self, input: Seq<u8>) -> Seq<u8> {
        apply_spans(input, sort_spans(self.gathered_spans(input)), 0, 0)
    }

    /// Every regex rule's priority lies strictly below the literal sentinel,
    /// so a literal always outranks a regex. Construction guarantees it.
    pub open spec fn wf(self) -> bool {
        forall|j: int|
            0 <= j < self.regex_rules@.len() ==> (#[trigger] regex_views(self.regex_rules@)[j]).priority
                < LITERAL_PRIORITY as int
    }

    /// Runs both matcher layers and collects every candidate span.
    #[verifier::loop_isolation(false)]
    fn gather_matches(&self, input: &[u8]) -> (r: Vec<MatchSpan>)
        ensures
            span_views(r@) == self.gathered_spans(input@),
            spans_in_bounds(span_views(r@), input@.len() as int),
    {
        let ghost len = input@.len() as int;
        let mut out: Vec<MatchSpan> = Vec::new();
        match &self.ac {
            Some(ac) => {
                let found = find_literal_matches(ac, input);
                let ghost fv = found@.map_values(
                    |m: (usize, usize, usize)| (m.0 as int, m.1 as int, m.2 as int),
                );
                let mut i: usize = 0;
                while i < found.len()
                    invariant
                        0 <= i <= found@.len(),
                        span_views(out@) == lit_spans(
                            fv.take(i as int),
                            mask_views(self.ac_masks@),
                            len,
                        ),
                        spans_in_bounds(span_views(out@), len),
                    decreases found@.len() - i,
                {
                    let f = found[i];
                    proof {
                        assert(fv[i as int] == (f.0 as int, f.1 as int, f.2 as int));
                        assert(fv.take(i + 1).drop_last() =~= fv.take(i as int));
                        assert(fv.take(i + 1).last() == fv[i as int]);
                    }
                    let ghost before = span_views(out@);
                    if f.0 < f.1 && f.1 <= input.len() && f.2 < self.ac_masks.len() {
                        let mask = copy_bytes(&self.ac_masks[f.2]);
                        out.push(
                            MatchSpan { start: f.0, end: f.1, priority: LITERAL_PRIORITY, mask },
                        );
                        proof {
                            assert(span_views(out@) =~= before + seq![out@.last()@]);
                        }
                    }
                    proof {
                        assert(span_views(out@) =~= lit_spans(
                            fv.take(i + 1),
                            mask_views(self.ac_masks@),
                            len,
                        ));
                    }
                    i = i + 1;
                }
                proof {
                    assert(fv.take(found@.len() as int) =~= fv);
                }
            },
            None => {},
        }
        proof {
            assert(span_views(out@) == self.lit_candidates(input@));
        }
        let ghost lit_part = span_views(out@);
        let ghost rv = regex_views(self.regex_rules@);
        let mut j: usize = 0;
        while j < self.regex_rules.len()
            invariant
                0 <= j <= self.regex_rules@.len(),
                span_views(out@) == lit_part + regex_layer_spans(rv.take(j as int), input@),
                spans_in_bounds(span_views(out@), len),
            decreases self.regex_rules@.len() - j,
        {
            let rule = &self.regex_rules[j];
            proof {
                assert(rv[j as int] == rule@);
            }
            let found = find_regex_matches(&rule.re, input);
            let ghost gv = found@.map_values(|m: (usize, usize)| (m.0 as int, m.1 as int));
            let ghost layer_before = lit_part + regex_layer_spans(rv.take(j as int), input@);
            let mut k: usize = 0;
            while k < found.len()
                invariant
                    0 <= k <= found@.len(),
                    span_views(out@) == layer_before + regex_rule_spans(
                        gv.take(k as int),
                        rv[j as int].priority,
                        rv[j as int].mask,
                        len,
                    ),
                    spans_in_bounds(span_views(out@), len),
                decreases found@.len() - k,
            {
                let f = found[k];
                proof {
                    assert(gv[k as int] == (f.0 as int, f.1 as int));
                    assert(gv.take(k + 1).drop_last() =~= gv.take(k as int));
                    assert(gv.take(k + 1).last() == gv[k as int]);
                }
                let ghost before = span_views(out@);
                if f.0 < f.1 && f.1 <= input.len() {
                    let mask = copy_bytes(&rule.mask);
                    out.push(MatchSpan { start: f.0, end: f.1, priority: rule.priority, mask });
                    proof {
                        assert(span_views(out@) =~= before + seq![out@.last()@]);
                    }
                }
                proof {
                    assert(span_views(out@) =~= layer_before + regex_rule_spans(
                        gv.take(k + 1),
                        rv[j as int].priority,
                        rv[j as int].mask,
                        len,
                    ));
                }
                k = k + 1;
            }
            proof {
                assert(gv.take(found@.len() as int) =~= gv);
                assert(rv.take(j + 1).drop_last() =~= rv.take(j as int));
                assert(rv.take(j + 1).last() == rv[j as int]);
                assert(span_views(out@) =~= lit_part + regex_layer_spans(
                    rv.take(j + 1),
                    input@,
                ));
            }
            j = j + 1;
        }
        proof {
            assert(rv.take(self.regex_rules@.len() as int) =~= rv);
        }
        out
    }

    /// Builds an engine from a rule sequence: disabled rules are dropped,
    /// the remaining ones are split into literals and regexes by
    /// [`is_literal`], the regexes are ordered by priority descending then
    /// name ascending, and each layer is compiled. Construction never
    /// fails: a regex the engine cannot compile is quarantined (skipped),
    /// and a regex that matches the empty string — one that could produce
    /// zero-width matches anywhere — is rejected here. Every other rule is
    /// compiled and active.
    ///
    /// The automaton is built exactly when there are literal rules and the
    /// builder accepts them, and then holds exactly the enabled literal
    /// patterns in rule order; the compiled regex rules are exactly the kept
    /// candidates, in order.
    #[verifier::loop_isolation(false)]
    pub fn new(rules: Vec<Rule>) -> (e: MaskEngine)
        ensures
            e.wf(),
            e.ac is Some <==> lit_pattern_list(rules@).len() > 0 && ac_builds(
                lit_pattern_list(rules@),
            ),
            e.ac matches Some(ac) ==> ac_patterns(ac) == lit_pattern_list(rules@),
            mask_views(e.ac_masks@) == lit_mask_list(rules@),
            regex_views(e.regex_rules@) == compiled_rules_of(sort_cands(regex_cands(rules@))),
    {
        let ghost orig = rules@;
        let mut rest = rules;
        let mut lit_pats: Vec<Vec<u8>> = Vec::new();
        let mut lit_masks: Vec<Vec<u8>> = Vec::new();
        let mut cands: Vec<RegexCand> = Vec::new();
        let ghost n: int = 0;
        while rest.len() > 0
            invariant
                0 <= n <= orig.len(),
                n + rest@.len() == orig.len(),
                rest@ =~= orig.skip(n),
                lit_pats@.map_values(|p: Vec<u8>| p@) == lit_pattern_list(orig.take(n)),
                mask_views(lit_masks@) == lit_mask_list(orig.take(n)),
                cand_views(cands@) == regex_cands(orig.take(n)),
            decreases rest@.len(),
        {
            let x = rest.remove(0);
            proof {
                assert(x == orig[n]);
                assert(rest@ =~= orig.skip(n + 1));
                assert(orig.take(n + 1).drop_last() =~= orig.take(n));
                assert(orig.take(n + 1).last() == orig[n]);
            }
            if x.enabled {
                if is_literal(x.pattern.as_str()) {
                    let pat = x.pattern.as_str().as_bytes_vec();
                    let mask = x.mask.as_str().as_bytes_vec();
                    lit_pats.push(pat);
                    lit_masks.push(mask);
                    proof {
                        assert(lit_pats@.map_values(|p: Vec<u8>| p@) =~= lit_pattern_list(
                            orig.take(n + 1),
                        ));
                        assert(mask_views(lit_masks@) =~= lit_mask_list(orig.take(n + 1)));
                    }
                } else {
                    let name = x.name.as_str().as_bytes_vec();
                    let mask = x.mask.as_str().as_bytes_vec();
                    let cand = RegexCand { name, pattern: x.pattern, mask, priority: x.priority };
                    cands.push(cand);
                    proof {
                        assert(cand_views(cands@).last() == cand_of(orig[n]));
                        assert(cand_views(cands@) =~= regex_cands(orig.take(n + 1)));
                    }
                }
            } else {
                proof {
                    assert(lit_pats@.map_values(|p: Vec<u8>| p@) =~= lit_pattern_list(
                        orig.take(n + 1),
                    ));
                    assert(mask_views(lit_masks@) =~= lit_mask_list(orig.take(n + 1)));
                    assert(cand_views(cands@) =~= regex_cands(orig.take(n + 1)));
                }
            }
            proof {
                n = n + 1;
            }
        }
        proof {
            assert(orig.take(n) =~= orig);
        }
        let ac = if lit_pats.len() == 0 {
            None
        } else {
            build_automaton(&lit_pats)
        };
        let sorted = sort_regex_cands(cands);
        let ghost scv = cand_views(sorted@);
        let mut crest = sorted;
        let mut regex_rules: Vec<CompiledRegex> = Vec::new();
        let ghost m: int = 0;
        while crest.len() > 0
            invariant
                0 <= m <= scv.len(),
                m + crest@.len() == scv.len(),
                cand_views(crest@) =~= scv.skip(m),
                regex_views(regex_rules@) == compiled_rules_of(scv.take(m)),
                forall|j: int|
                    0 <= j < regex_rules@.len() ==> (#[trigger] regex_rules@[j]).priority
                        < LITERAL_PRIORITY,
            decreases crest@.len(),
        {
            let ghost crest0 = crest@;
            let c = crest.remove(0);
            proof {
                assert(cand_views(crest0)[0] == crest0[0]@);
                assert(c@ == scv[m]);
                assert forall|t: int| 0 <= t < crest@.len() implies cand_views(crest@)[t]
                    == scv.skip(m + 1)[t] by {
                    assert(crest@[t] == crest0[t + 1]);
                    assert(cand_views(crest0)[t + 1] == crest0[t + 1]@);
                }
                assert(cand_views(crest@) =~= scv.skip(m + 1));
                assert(scv.take(m + 1).drop_last() =~= scv.take(m));
                assert(scv.take(m + 1).last() == scv[m]);
            }
            match compile_regex(c.pattern.as_str()) {
                Some(re) => {
                    if matches_empty_input(&re) {
                        // rejected at construction: this regex could match a
                        // zero-width span anywhere
                        proof {
                            assert(!cand_kept(scv[m]));
                            assert(regex_views(regex_rules@) =~= compiled_rules_of(
                                scv.take(m + 1),
                            ));
                        }
                    } else {
                        let prio: i64 = c.priority as i64;
                        let ghost before = regex_views(regex_rules@);
                        regex_rules.push(CompiledRegex { re, mask: c.mask, priority: prio });
                        proof {
                            assert(cand_kept(scv[m]));
                            assert(regex_rules@.last()@ == rule_of_cand(scv[m]));
                            assert(regex_views(regex_rules@) =~= before.push(
                                regex_rules@.last()@,
                            ));
                            assert(regex_views(regex_rules@) =~= compiled_rules_of(
                                scv.take(m + 1),
                            ));
                        }
                    }
                },
                None => {
                    proof {
                        assert(!cand_kept(scv[m]));
                        assert(regex_views(regex_rules@) =~= compiled_rules_of(scv.take(m + 1)));
                    }
                },
            }
            proof {
                m = m + 1;
            }
        }
        proof {
            assert(scv.take(m) =~= scv);
        }
        MaskEngine { ac, ac_masks: lit_masks, regex_rules }
    }

    /// Masks one byte slice: gathers every candidate match from the literal
    /// automaton and the regex rules, sorts them by start ascending, priority
    /// descending, length descending, and walks them left to right with a
    /// cursor, dropping every candidate that starts before the cursor.
    ///
    /// Never fails: every byte slice is valid input, and a clean input comes
    /// back byte-identical (see [`lemma_mask_clean_identity`]).
    pub fn mask_line(&self, input: &[u8]) -> (r: Vec<u8>)
        ensures
            r@ == self.mask_spec(input@),
    {
        let spans = self.gather_matches(input);
        proof {
            reveal(MaskEngine::mask_spec);
            lemma_sort_preserves_bounds(span_views(spans@), input@.len() as int);
            assert forall|i: int| 0 <= i < spans@.len() implies (#[trigger] spans@[i]).start
                <= spans@[i].end by {
                assert(span_in_bounds(span_views(spans@)[i], input@.len() as int));
            }
        }
        let sorted = sort_matches(spans);
        resolve_matches(input, &sorted)
    }

    /// Masks one byte slice and says whether anything changed: `None` means
    /// the output is byte-identical to the input, so the caller keeps the
    /// original borrow. Clean input takes the zero-copy path: with no
    /// candidate match, nothing proportional to the input is allocated.
    pub fn mask_line_changed(&self, input: &[u8]) -> (r: Option<Vec<u8>>)
        ensures
            match r {
                Some(v) => v@ == self.mask_spec(input@) && v@ != input@,
                None => self.mask_spec(input@) == input@,
            },
    {
        let spans = self.gather_matches(input);
        if spans.len() == 0 {
            proof {
                reveal(MaskEngine::mask_spec);
                assert(self.gathered_spans(input@).len() == 0);
                lemma_sort_spans_elems(self.gathered_spans(input@));
                assert(self.mask_spec(input@) == input@.subrange(0, input@.len() as int));
                assert(input@.subrange(0, input@.len() as int) =~= input@);
            }
            return None;
        }
        proof {
            reveal(MaskEngine::mask_spec);
            lemma_sort_preserves_bounds(span_views(spans@), input@.len() as int);
            assert forall|i: int| 0 <= i < spans@.len() implies (#[trigger] spans@[i]).start
                <= spans@[i].end by {
                assert(span_in_bounds(span_views(spans@)[i], input@.len() as int));
            }
        }
        let sorted = sort_matches(spans);
        let masked = resolve_matches(input, &sorted);
        if eq_bytes_slice(&masked, input) {
            None
        } else {
            Some(masked)
        }
    }
}

/// Whether a byte vector holds exactly the bytes of a slice.
fn eq_bytes_slice(a: &Vec<u8>, b: &[u8]) -> (r: bool)
    ensures
        r == (a@ == b@),
{
    if a.len() != b.len() {
        proof {
            assert(a@ != b@);
        }
        return false;
    }
    let mut i: usize = 0;
    while i < a.len()
        invariant
            0 <= i <= a@.len(),
            a@.len() == b@.len(),
            forall|j: int| 0 <= j < i ==> a@[j] == b@[j],
        decreases a@.len() - i,
    {
        if a[i] != b[i] {
            return false;
        }
        i = i + 1;
    }
    proof {
        assert(a@ =~= b@);
    }
    true
}

} // verus!
