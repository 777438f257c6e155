//! The rule model: a masking rule, groups of rules as they come from one
//! source file, and the classification of a pattern as a fixed keyword
//! (literal) or a regular expression.

use vstd::prelude::*;
use vstd::string::StringSliceAdditionalSpecFns;

verus! {

/// One masking rule. `pattern` is either a fixed keyword or a regular
/// expression; `mask` is the replacement text; a higher `priority` wins
/// conflicts between overlapping matches.
pub struct Rule {
    /// Unique identifier within the active rule set.
    pub name: String,
    /// Fixed keyword or regular expression, decided by [`is_literal`].
    pub pattern: String,
    /// Replacement text substituted for each match; may be empty (deletion).
    pub mask: String,
    /// Higher priority wins conflicts; defaults to 0.
    pub priority: i32,
    /// Disabled rules are dropped when the engine is built.
    pub enabled: bool,
    /// Whether the rule came from the user-writable directory.
    pub is_custom: bool,
}

impl Clone for Rule {
    fn clone(&self) -> (r: Self)
        ensures
            r == *self,
    {
        Rule {
            name: self.name.clone(),
            pattern: self.pattern.clone(),
            mask: self.mask.clone(),
            priority: self.priority,
            enabled: self.enabled,
            is_custom: self.is_custom,
        }
    }
}

/// A named collection of rules as loaded from one source file. Purely a
/// transport shape; the loader flattens groups into a single rule sequence.
pub struct RuleGroup {
    pub group: String,
    pub rules: Vec<Rule>,
}

/// The priority a rule gets when its source file names none.
pub fn default_priority() -> (r: i32)
    ensures
        r == 0,
{
    0
}

/// The enabled flag a rule gets when its source file names none.
pub fn default_true() -> (r: bool)
    ensures
        r,
{
    true
}

/// Whether a byte is one of the regex metacharacters that disqualify a
/// pattern from the literal class.
pub open spec fn is_meta_byte(b: u8) -> bool {
    ||| b == 46  // .
    ||| b == 43  // +
    ||| b == 42  // *
    ||| b == 63  // ?
    ||| b == 40  // (
    ||| b == 41  // )
    ||| b == 124  // |
    ||| b == 91  // [
    ||| b == 93  // ]
    ||| b == 123  // {
    ||| b == 125  // }
    ||| b == 94  // ^
    ||| b == 36  // $
    ||| b == 92  // backslash
}

/// A pattern is a literal when none of its bytes is a regex metacharacter.
/// All metacharacters are ASCII, so a byte-level scan agrees with a
/// character-level one on UTF-8 text.
pub open spec fn spec_is_literal(p: Seq<u8>) -> bool {
    forall|i: int| 0 <= i < p.len() ==> !is_meta_byte(p[i])
}

/// Classifies a pattern: no regex metacharacter means it is a fixed keyword
/// for the literal automaton, otherwise it is compiled as a regex.
pub fn is_literal(pattern: &str) -> (r: bool)
    ensures
        r == spec_is_literal(pattern.spec_bytes()),
{
    let bytes = pattern.as_bytes();
    let mut i: usize = 0;
    while i < bytes.len()
        invariant
            0 <= i <= bytes.len(),
            bytes@ == pattern.spec_bytes(),
            forall|j: int| 0 <= j < i ==> !is_meta_byte(bytes@[j]),
        decreases bytes.len() - i,
    {
        let b = bytes[i];
        if b == 46 || b == 43 || b == 42 || b == 63 || b == 40 || b == 41 || b == 124 || b == 91
            || b == 93 || b == 123 || b == 125 || b == 94 || b == 36 || b == 92 {
            return false;
        }
        i = i + 1;
    }
    true
}

// ===========================================================================
// The loader's logic: flattening, tagging, last-writer-wins, upsert, delete
// ===========================================================================

/// A rule with its provenance flag set.
pub open spec fn with_custom(r: Rule, custom: bool) -> Rule {
    Rule {
        name: r.name,
        pattern: r.pattern,
        mask: r.mask,
        priority: r.priority,
        enabled: r.enabled,
        is_custom: custom,
    }
}

/// The rules of a group list, flattened in order, each tagged with the
/// list's provenance.
pub open spec fn flatten_tagged(groups: Seq<RuleGroup>, custom: bool) -> Seq<Rule>
    decreases groups.len(),
{
    if groups.len() == 0 {
        Seq::empty()
    } else {
        flatten_tagged(groups.drop_last(), custom) + groups.last().rules@.map_values(
            |r: Rule| with_custom(r, custom),
        )
    }
}

/// Whether some rule in the sequence bears the name.
pub open spec fn name_occurs(rules: Seq<Rule>, name: Seq<char>) -> bool {
    exists|i: int| 0 <= i < rules.len() && (#[trigger] rules[i]).name@ == name
}

/// Last writer wins: of rules sharing a name, only the last survives;
/// everything else keeps its order.
pub open spec fn dedup_last(rules: Seq<Rule>) -> Seq<Rule>
    decreases rules.len(),
{
    if rules.len() == 0 {
        Seq::empty()
    } else if name_occurs(rules.drop_first(), rules[0].name@) {
        dedup_last(rules.drop_first())
    } else {
        seq![rules[0]] + dedup_last(rules.drop_first())
    }
}

/// The loader's result on the given group lists: built-in rules first,
/// tagged `is_custom = false`, then user rules tagged `is_custom = true`,
/// with duplicate names resolved last-writer-wins (so a user rule overrides
/// a built-in one of the same name).
pub open spec fn spec_load_all(builtin: Seq<RuleGroup>, custom: Seq<RuleGroup>) -> Seq<Rule> {
    dedup_last(flatten_tagged(builtin, false) + flatten_tagged(custom, true))
}

/// The index of the first rule with the name, or the length when none has
/// it.
pub open spec fn first_name_index(rules: Seq<Rule>, name: Seq<char>) -> int
    decreases rules.len(),
{
    if rules.len() == 0 {
        0
    } else if rules[0].name@ == name {
        0
    } else {
        1 + first_name_index(rules.drop_first(), name)
    }
}

/// A position with no earlier occurrence of the name, holding the name (or
/// the end, when the name is absent), is the first index of that name.
proof fn lemma_first_name_index_at(rules: Seq<Rule>, name: Seq<char>, k: int)
    requires
        0 <= k <= rules.len(),
        forall|j: int| 0 <= j < k ==> (#[trigger] rules[j]).name@ != name,
        k < rules.len() ==> rules[k].name@ == name,
    ensures
        first_name_index(rules, name) == if k < rules.len() {
            k
        } else {
            rules.len() as int
        },
    decreases k + 1,
{
    if rules.len() > 0 && rules[0].name@ != name {
        let rest = rules.drop_first();
        assert(forall|j: int| 0 <= j < k - 1 ==> (#[trigger] rest[j]).name@ == rules[j + 1].name@);
        lemma_first_name_index_at(rest, name, if k == 0 { 0 } else { k - 1 });
    }
}

/// What saving a custom rule does to the custom store: the rule, tagged
/// `is_custom = true`, replaces the first rule of the same name, or goes to
/// the end when the name is new.
pub open spec fn spec_upsert(rules: Seq<Rule>, rule: Rule) -> Seq<Rule> {
    let tagged = with_custom(rule, true);
    let i = first_name_index(rules, rule.name@);
    if i < rules.len() {
        rules.update(i, tagged)
    } else {
        rules.push(tagged)
    }
}

/// What deleting a rule by name leaves: every rule that bears another name,
/// in order.
pub open spec fn spec_remove_named(rules: Seq<Rule>, name: Seq<char>) -> Seq<Rule>
    decreases rules.len(),
{
    if rules.len() == 0 {
        Seq::empty()
    } else {
        spec_remove_named(rules.drop_last(), name) + (if rules.last().name@ == name {
            Seq::empty()
        } else {
            seq![rules.last()]
        })
    }
}

/// The rule store's operations on plain values. The host reads and writes
/// the rule files (one read-only built-in directory, one user-writable
/// custom file) and hands the parsed groups in; what the store means is
/// decided and proved here.
pub struct RuleManager;

impl RuleManager {
    /// Assembles the active rule set from the parsed group lists: built-in
    /// groups are flattened and tagged `is_custom = false`, user groups
    /// `is_custom = true`; of rules sharing a name the last loaded wins, so
    /// user rules override built-ins.
    pub fn load_all_rules(builtin: Vec<RuleGroup>, custom: Vec<RuleGroup>) -> (r: Vec<Rule>)
        ensures
            r@ == spec_load_all(builtin@, custom@),
    {
        let mut all: Vec<Rule> = Vec::new();
        let ghost bgs = builtin@;
        let mut groups = builtin;
        let ghost n: int = 0;
        while groups.len() > 0
            invariant
                0 <= n <= bgs.len(),
                n + groups@.len() == bgs.len(),
                groups@ =~= bgs.skip(n),
                all@ == flatten_tagged(bgs.take(n), false),
            decreases groups@.len(),
        {
            let g = groups.remove(0);
            proof {
                assert(g == bgs[n]);
                assert(groups@ =~= bgs.skip(n + 1));
                assert(bgs.take(n + 1).drop_last() =~= bgs.take(n));
                assert(bgs.take(n + 1).last() == bgs[n]);
            }
            append_tagged(&mut all, g.rules, false);
            proof {
                n = n + 1;
            }
        }
        proof {
            assert(bgs.take(n) =~= bgs);
        }
        let ghost built = all@;
        let ghost cgs = custom@;
        let mut groups = custom;
        let ghost m: int = 0;
        while groups.len() > 0
            invariant
                0 <= m <= cgs.len(),
                m + groups@.len() == cgs.len(),
                groups@ =~= cgs.skip(m),
                all@ == built + flatten_tagged(cgs.take(m), true),
            decreases groups@.len(),
        {
            let g = groups.remove(0);
            proof {
                assert(g == cgs[m]);
                assert(groups@ =~= cgs.skip(m + 1));
                assert(cgs.take(m + 1).drop_last() =~= cgs.take(m));
                assert(cgs.take(m + 1).last() == cgs[m]);
            }
            append_tagged(&mut all, g.rules, true);
            proof {
                assert(all@ =~= built + flatten_tagged(cgs.take(m + 1), true));
                m = m + 1;
            }
        }
        proof {
            assert(cgs.take(m) =~= cgs);
        }
        dedup_by_name(all)
    }

    /// Upserts one rule into the custom store's rule list, by name: the
    /// rule, tagged `is_custom = true`, replaces the first rule of the same
    /// name, or is appended when the name is new. The host then rewrites the
    /// custom file atomically with the result.
    pub fn save_custom_rule(rules: Vec<Rule>, rule: Rule) -> (r: Vec<Rule>)
        ensures
            r@ == spec_upsert(rules@, rule),
    {
        let ghost orig = rules@;
        let ghost orig_rule = rule;
        let mut tagged = rule;
        tagged.is_custom = true;
        proof {
            assert(tagged == with_custom(orig_rule, true));
        }
        let mut out = rules;
        let mut i: usize = 0;
        let mut found = false;
        while i < out.len()
            invariant_except_break
                !found,
            invariant
                0 <= i <= orig.len(),
                out@ == orig,
                tagged == with_custom(orig_rule, true),
                forall|j: int| 0 <= j < i ==> (#[trigger] orig[j]).name@ != orig_rule.name@,
            ensures
                out@ == orig,
                0 <= i <= orig.len(),
                tagged == with_custom(orig_rule, true),
                forall|j: int| 0 <= j < i ==> (#[trigger] orig[j]).name@ != orig_rule.name@,
                found ==> i < orig.len() && orig[i as int].name@ == orig_rule.name@,
                !found ==> i == orig.len(),
            decreases orig.len() - i,
        {
            if out[i].name == tagged.name {
                found = true;
                break ;
            }
            i = i + 1;
        }
        proof {
            lemma_first_name_index_at(orig, orig_rule.name@, i as int);
        }
        if found {
            out.set(i, tagged);
        } else {
            out.push(tagged);
        }
        out
    }

    /// Deletes every rule bearing the name from the custom store's rule
    /// list. The host then rewrites the custom file atomically with the
    /// result.
    pub fn delete_custom_rule(rules: Vec<Rule>, name: &String) -> (r: Vec<Rule>)
        ensures
            r@ == spec_remove_named(rules@, name@),
    {
        let ghost orig = rules@;
        let mut rest = rules;
        let mut out: Vec<Rule> = Vec::new();
        let ghost n: int = 0;
        while rest.len() > 0
            invariant
                0 <= n <= orig.len(),
                n + rest@.len() == orig.len(),
                rest@ =~= orig.skip(n),
                out@ == spec_remove_named(orig.take(n), name@),
            decreases rest@.len(),
        {
            let x = rest.remove(0);
            proof {
                assert(x == orig[n]);
                assert(rest@ =~= orig.skip(n + 1));
                assert(orig.take(n + 1).drop_last() =~= orig.take(n));
                assert(orig.take(n + 1).last() == orig[n]);
            }
            if !(x.name == *name) {
                out.push(x);
                proof {
                    assert(out@ =~= spec_remove_named(orig.take(n + 1), name@));
                }
            } else {
                proof {
                    assert(out@ + Seq::<Rule>::empty() =~= out@);
                }
            }
            proof {
                n = n + 1;
            }
        }
        proof {
            assert(orig.take(n) =~= orig);
        }
        out
    }
}

/// Appends a group's rules to the list, each tagged with the provenance.
fn append_tagged(all: &mut Vec<Rule>, rules: Vec<Rule>, custom: bool)
    ensures
        final(all)@ == old(all)@ + rules@.map_values(|r: Rule| with_custom(r, custom)),
{
    let ghost orig = rules@;
    let mut rest = rules;
    let ghost n: int = 0;
    while rest.len() > 0
        invariant
            0 <= n <= orig.len(),
            n + rest@.len() == orig.len(),
            rest@ =~= orig.skip(n),
            all@ == old(all)@ + orig.take(n).map_values(|r: Rule| with_custom(r, custom)),
        decreases rest@.len(),
    {
        let mut x = rest.remove(0);
        proof {
            assert(x == orig[n]);
            assert(rest@ =~= orig.skip(n + 1));
        }
        x.is_custom = custom;
        all.push(x);
        proof {
            assert(all@ =~= old(all)@ + orig.take(n + 1).map_values(
                |r: Rule| with_custom(r, custom),
            ));
            n = n + 1;
        }
    }
    proof {
        assert(orig.take(n) =~= orig);
    }
}

/// Keeps, of rules sharing a name, only the last, preserving order.
fn dedup_by_name(rules: Vec<Rule>) -> (r: Vec<Rule>)
    ensures
        r@ == dedup_last(rules@),
{
    let ghost orig = rules@;
    let mut out: Vec<Rule> = Vec::new();
    proof {
        assert(orig.skip(0) =~= orig);
        assert(Seq::<Rule>::empty() + dedup_last(orig) =~= dedup_last(orig));
    }
    let mut i: usize = 0;
    while i < rules.len()
        invariant
            0 <= i <= orig.len(),
            orig == rules@,
            dedup_last(orig) == out@ + dedup_last(orig.skip(i as int)),
        decreases orig.len() - i,
    {
        // does the name recur later?
        let mut recurs = false;
        let mut j: usize = i + 1;
        while j < rules.len()
            invariant
                i < j <= orig.len(),
                orig == rules@,
                recurs ==> name_occurs(orig.skip(i + 1), orig[i as int].name@),
                !recurs ==> forall|t: int| i + 1 <= t < j ==> (#[trigger] orig[t]).name@ != orig[
                    i as int
                ].name@,
            decreases orig.len() - j,
        {
            if rules[j].name == rules[i].name {
                proof {
                    assert(orig.skip(i + 1)[j - i - 1] == orig[j as int]);
                }
                recurs = true;
            }
            j = j + 1;
        }
        proof {
            if !recurs {
                assert forall|t: int| 0 <= t < orig.skip(i + 1).len() implies (#[trigger] orig.skip(
                    i + 1,
                )[t]).name@ != orig[i as int].name@ by {
                    assert(orig.skip(i + 1)[t] == orig[t + i + 1]);
                }
            }
            assert(orig.skip(i as int)[0] == orig[i as int]);
            assert(orig.skip(i as int).drop_first() =~= orig.skip(i + 1));
        }
        if !recurs {
            out.push(rules[i].clone());
            proof {
                assert(out@ =~= (out@.drop_last() + seq![orig[i as int]]));
                assert(out@.drop_last() + (seq![orig[i as int]] + dedup_last(orig.skip(i + 1)))
                    =~= out@ + dedup_last(orig.skip(i + 1)));
            }
        }
        i = i + 1;
    }
    proof {
        assert(orig.skip(orig.len() as int) =~= Seq::<Rule>::empty());
        assert(out@ + Seq::<Rule>::empty() =~= out@);
    }
    out
}

// ===========================================================================
// Storage-path policy
// ===========================================================================

/// An ASCII letter folded to lower case; anything else unchanged.
pub open spec fn ascii_lower(b: u8) -> u8 {
    if 65 <= b <= 90 {
        (b + 32) as u8
    } else {
        b
    }
}

/// Whether the path contains the word `temp`, case-insensitively: the mark
/// of a portable build unpacked into a temporary directory.
pub open spec fn spec_contains_temp(path: Seq<u8>) -> bool {
    exists|i: int|
        0 <= i <= path.len() - 4 && ascii_lower(path[i]) == 116 && ascii_lower(#[trigger] path[i
            + 1]) == 101 && ascii_lower(path[i + 2]) == 109 && ascii_lower(path[i + 3]) == 112
}

/// The host's policy for where the writable custom-rule directory lives.
/// The host resolves paths and creates directories; the decision is made
/// here.
pub struct ConfigLoader;

impl ConfigLoader {
    /// Whether the custom rules must live in the per-user application-data
    /// directory rather than beside the executable: true when the executable
    /// runs from a temporary directory (the portable-installer case), whose
    /// path contains `temp` in some letter case. Stateless; the host
    /// re-evaluates it on each load.
    pub fn use_app_data_dir(exe_dir: &Vec<u8>) -> (r: bool)
        ensures
            r == spec_contains_temp(exe_dir@),
    {
        if exe_dir.len() < 4 {
            return false;
        }
        let mut i: usize = 0;
        while i <= exe_dir.len() - 4
            invariant
                exe_dir@.len() >= 4,
                0 <= i <= exe_dir@.len() - 3,
                forall|t: int|
                    0 <= t < i ==> !(ascii_lower(exe_dir@[t]) == 116 && ascii_lower(
                        #[trigger] exe_dir@[t + 1],
                    ) == 101 && ascii_lower(exe_dir@[t + 2]) == 109 && ascii_lower(
                        exe_dir@[t + 3],
                    ) == 112),
            decreases exe_dir@.len() - i,
        {
            let b0 = lower_byte(exe_dir[i]);
            let b1 = lower_byte(exe_dir[i + 1]);
            let b2 = lower_byte(exe_dir[i + 2]);
            let b3 = lower_byte(exe_dir[i + 3]);
            if b0 == 116 && b1 == 101 && b2 == 109 && b3 == 112 {
                return true;
            }
            i = i + 1;
        }
        false
    }
}

/// Folds one ASCII letter to lower case.
fn lower_byte(b: u8) -> (r: u8)
    ensures
        r == ascii_lower(b),
{
    if 65 <= b && b <= 90 {
        b + 32
    } else {
        b
    }
}

} // verus!
