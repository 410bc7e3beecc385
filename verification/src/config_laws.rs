use vstd::prelude::*;
use crate::loader::{
    index_built_from, lemma_first_rule_error_some, lemma_rules_with_head_push, rule_head, rules_built_from,
    rules_with_head, spec_config_error, RawConfig,
};
use crate::rule_config::{rule_built_from, spec_pattern_of, spec_rule_error};
use crate::types::{lemma_priority_sorted, priority_descending, priority_sorted, Rule, RuleIndex};

verus! {

/// Number of rules of the heads below `n`.
pub open spec fn index_rule_count(index: RuleIndex, n: int) -> int
    decreases n,
{
    if n <= 0 {
        0
    } else {
        index_rule_count(index, n - 1) + index.rules_of(n - 1).len()
    }
}

/// Number of rules of `s` whose head is below `n`.
spec fn head_count(s: Seq<Rule>, n: int) -> int
    decreases n,
{
    if n <= 0 {
        0
    } else {
        head_count(s, n - 1) + rules_with_head(s, n - 1).len()
    }
}

proof fn lemma_head_count_push(s: Seq<Rule>, r: Rule, n: int)
    ensures
        head_count(s.push(r), n) == head_count(s, n) + if 0 <= rule_head(r) < n { 1int } else { 0int },
    decreases n,
{
    if n > 0 {
        lemma_head_count_push(s, r, n - 1);
        lemma_rules_with_head_push(s, r, n - 1);
    }
}

proof fn lemma_head_count_all(s: Seq<Rule>)
    requires
        forall|k: int| 0 <= k < s.len() ==> 0 <= #[trigger] rule_head(s[k]) < 256,
    ensures
        head_count(s, 256) == s.len(),
    decreases s.len(),
{
    if s.len() == 0 {
        lemma_head_count_empty(s, 256);
    } else {
        let p = s.drop_last();
        assert forall|k: int| 0 <= k < p.len() implies 0 <= #[trigger] rule_head(p[k]) < 256 by {
            assert(p[k] == s[k]);
        }
        lemma_head_count_all(p);
        assert(s.last() == s[s.len() - 1]);
        lemma_head_count_push(p, s.last(), 256);
        assert(p.push(s.last()) =~= s);
    }
}

proof fn lemma_head_count_empty(s: Seq<Rule>, n: int)
    requires
        s.len() == 0,
    ensures
        head_count(s, n) == 0,
    decreases n,
{
    if n > 0 {
        lemma_head_count_empty(s, n - 1);
    }
}

proof fn lemma_index_count(index: RuleIndex, built: Seq<Rule>, n: int)
    requires
        index_built_from(index, built),
        n <= 256,
    ensures
        index_rule_count(index, n) == head_count(built, n),
    decreases n,
{
    if n > 0 {
        lemma_index_count(index, built, n - 1);
        assert(index.rules_of(n - 1) == priority_sorted(rules_with_head(built, n - 1)));
        lemma_priority_sorted(rules_with_head(built, n - 1));
    }
}

proof fn lemma_rules_with_head_heads(s: Seq<Rule>, h: int)
    ensures
        forall|k: int| 0 <= k < rules_with_head(s, h).len() ==> rule_head(#[trigger] rules_with_head(s, h)[k]) == h,
        rules_with_head(s, h).to_multiset().subset_of(s.to_multiset()),
    decreases s.len(),
{
    broadcast use vstd::seq_lib::group_to_multiset_ensures;
    if s.len() > 0 {
        lemma_rules_with_head_heads(s.drop_last(), h);
        assert(s.drop_last().push(s.last()) =~= s);
    }
}

/// Law: the rule index of a configuration that loads holds one entry per written rule; each
/// head's rules all have that head, are rules built from the written ones, and come by
/// descending priority, equal priorities in the order written (the stable sort
/// `priority_sorted` of the head's rules in file order); a rule written without a pattern
/// gets the one its id spells (`spec_pattern_of`).
pub proof fn lemma_config_index(raw: RawConfig, index: RuleIndex, built: Seq<Rule>)
    requires
        spec_config_error(raw) is None,
        rules_built_from(built, raw.rules@),
        index_built_from(index, built),
    ensures
        index_rule_count(index, 256) == raw.rules@.len(),
        forall|h: int, k: int|
            0 <= h < 256 && 0 <= k < index.rules_of(h).len() ==> rule_head(#[trigger] index.rules_of(h)[k]) == h
                && built.contains(index.rules_of(h)[k]),
        forall|h: int| 0 <= h < 256 ==> priority_descending(#[trigger] index.rules_of(h)),
        forall|h: int| 0 <= h < 256 ==> #[trigger] index.rules_of(h) == priority_sorted(rules_with_head(built, h)),
        forall|k: int|
            0 <= k < built.len() ==> (#[trigger] built[k]).pattern@ == spec_pattern_of(raw.rules@[k]) && 0 <= rule_head(
                built[k],
            ) < 256,
{
    broadcast use vstd::seq_lib::group_to_multiset_ensures;
    assert forall|k: int| 0 <= k < built.len() implies 0 <= #[trigger] rule_head(built[k]) < 256 by {
        if spec_rule_error(raw.rules@[k]) is Some {
            lemma_first_rule_error_some(raw.rules@, k);
        }
        assert(rule_built_from(built[k], raw.rules@[k]));
        if raw.rules@[k].id@.len() == 0 {
            assert(built[k].pattern@.len() > 0);
        }
    }
    lemma_head_count_all(built);
    lemma_index_count(index, built, 256);
    assert forall|h: int, k: int|
        0 <= h < 256 && 0 <= k < index.rules_of(h).len() implies rule_head(#[trigger] index.rules_of(h)[k]) == h
        && built.contains(index.rules_of(h)[k]) by {
        let w = rules_with_head(built, h);
        lemma_priority_sorted(w);
        lemma_rules_with_head_heads(built, h);
        let r = index.rules_of(h)[k];
        assert(index.rules_of(h) == priority_sorted(w));
        assert(priority_sorted(w).to_multiset().count(r) > 0);
        assert(w.to_multiset().count(r) > 0);
        assert(w.contains(r));
        let j = choose|j: int| 0 <= j < w.len() && w[j] == r;
        assert(rule_head(w[j]) == h);
        assert(built.to_multiset().count(r) > 0);
    }
    assert forall|h: int| 0 <= h < 256 implies priority_descending(#[trigger] index.rules_of(h)) by {
        lemma_priority_sorted(rules_with_head(built, h));
    }
}

} // verus!
