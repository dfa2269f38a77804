//! The parse forest seen through node identities, and what a cycle of the
//! parser does to it.

use vstd::prelude::*;
use crate::grammar::{pattern_at, pattern_len, MidRule};
use crate::symbols::Symbol;

verus! {

// The forest seen through identities. A rule application is a rule handle
// with the chart positions between its children, first start to last stop;
// the nodes of the forest are the tokens and the rule applications. A cycle
// adds every rule application anchored at a queued node, and queues the
// nodes of those that are new.

/// The label and span of the node that a rule application `it` (a rule and
/// the chart positions between its children) produces.
pub open spec fn item_triple(rules: Seq<MidRule>, it: (int, Seq<int>)) -> (Symbol, int, int) {
    (Symbol::NonTerminal { val: rules[it.0].result }, it.1[0], it.1[it.1.len() - 1])
}

/// Some node of the forest given by the tokens and the rule applications
/// `items` has label and span `t`.
#[verifier::opaque]
pub open spec fn has_triple(rules: Seq<MidRule>, tokens: Seq<Symbol>, items: Set<(int, Seq<int>)>, t: (Symbol, int, int)) -> bool {
    ||| (0 <= t.1 < tokens.len() && t.2 == t.1 + 1 && t.0 == tokens[t.1])
    ||| exists|it: (int, Seq<int>)| items.contains(it) && item_triple(rules, it) == t
}

/// `it` applies its rule to nodes of the forest, with its base among `queued`.
pub open spec fn item_matches(
    rules: Seq<MidRule>,
    tokens: Seq<Symbol>,
    items: Set<(int, Seq<int>)>,
    queued: Set<(Symbol, int, int)>,
    it: (int, Seq<int>),
) -> bool {
    let r = it.0;
    let bs = it.1;
    let p = rules[r].predecessors@.len() as int;
    &&& 0 <= r < rules.len()
    &&& bs.len() == pattern_len(rules[r]) + 1
    &&& forall|j: int| 0 <= j < bs.len() - 1 ==> has_triple(rules, tokens, items, (pattern_at(rules[r], j), #[trigger] bs[j], bs[j + 1]))
    &&& queued.contains((rules[r].base, bs[p], bs[p + 1]))
}

/// One cycle on the forest given by the tokens and the rule applications
/// `v.0`, with the nodes of label and span in `v.1` queued: every new rule
/// application anchored at a queued node is added, and the nodes it produces
/// are queued next.
#[verifier::opaque]
pub open spec fn forest_step(rules: Seq<MidRule>, tokens: Seq<Symbol>, v: (Set<(int, Seq<int>)>, Set<(Symbol, int, int)>)) -> (
    Set<(int, Seq<int>)>,
    Set<(Symbol, int, int)>,
) {
    let fresh = fresh_items(rules, tokens, v);
    (v.0.union(fresh), fresh.map(|it: (int, Seq<int>)| item_triple(rules, it)))
}

/// The forest before the first cycle: no rule applications, and one queued
/// node per token.
pub open spec fn initial_forest(tokens: Seq<Symbol>) -> (Set<(int, Seq<int>)>, Set<(Symbol, int, int)>) {
    (Set::empty(), Set::new(|t: (Symbol, int, int)| 0 <= t.1 < tokens.len() && t.2 == t.1 + 1 && t.0 == tokens[t.1]))
}

/// The rule applications a cycle adds to `v`.
pub open spec fn fresh_items(rules: Seq<MidRule>, tokens: Seq<Symbol>, v: (Set<(int, Seq<int>)>, Set<(Symbol, int, int)>)) -> Set<(int, Seq<int>)> {
    Set::new(|it: (int, Seq<int>)| item_matches(rules, tokens, v.0, v.1, it) && !v.0.contains(it))
}

/// `k` cycles from `v`.
pub open spec fn forest_iter(rules: Seq<MidRule>, tokens: Seq<Symbol>, v: (Set<(int, Seq<int>)>, Set<(Symbol, int, int)>), k: nat) -> (
    Set<(int, Seq<int>)>,
    Set<(Symbol, int, int)>,
)
    decreases k,
{
    if k == 0 {
        v
    } else {
        forest_step(rules, tokens, forest_iter(rules, tokens, v, (k - 1) as nat))
    }
}

/// Once nothing is queued, further cycles change nothing.
pub proof fn lemma_stays(
    rules: Seq<MidRule>,
    tokens: Seq<Symbol>,
    v: (Set<(int, Seq<int>)>, Set<(Symbol, int, int)>),
    k: nat,
    j: nat,
)
    requires
        forest_iter(rules, tokens, v, k).1.is_empty(),
    ensures
        forest_iter(rules, tokens, v, k + j) == forest_iter(rules, tokens, v, k),
    decreases j,
{
    if j > 0 {
        lemma_stays(rules, tokens, v, k, (j - 1) as nat);
        assert(forest_iter(rules, tokens, v, k + j) == forest_step(rules, tokens, forest_iter(rules, tokens, v, (k + j - 1) as nat)));
        lemma_step_idle(rules, tokens, forest_iter(rules, tokens, v, k));
    }
}

/// Running cycles to the fixpoint gives one result, however many cycles it
/// took: once nothing is queued, a cycle changes nothing.
pub proof fn lemma_fixpoint_unique(
    rules: Seq<MidRule>,
    tokens: Seq<Symbol>,
    v: (Set<(int, Seq<int>)>, Set<(Symbol, int, int)>),
    k1: nat,
    k2: nat,
)
    requires
        forest_iter(rules, tokens, v, k1).1.is_empty(),
        forest_iter(rules, tokens, v, k2).1.is_empty(),
    ensures
        forest_iter(rules, tokens, v, k1) == forest_iter(rules, tokens, v, k2),
{
    if k1 <= k2 {
        lemma_stays(rules, tokens, v, k1, (k2 - k1) as nat);
    } else {
        lemma_stays(rules, tokens, v, k2, (k1 - k2) as nat);
    }
}

/// With nothing queued, a cycle changes nothing.
pub proof fn lemma_step_idle(rules: Seq<MidRule>, tokens: Seq<Symbol>, v: (Set<(int, Seq<int>)>, Set<(Symbol, int, int)>))
    requires
        v.1.is_empty(),
    ensures
        forest_step(rules, tokens, v) == v,
{
    reveal(forest_step);
    let fresh = fresh_items(rules, tokens, v);
    assert forall|it: (int, Seq<int>)| !fresh.contains(it) by {
        if item_matches(rules, tokens, v.0, v.1, it) {
            let r = it.0;
            let p = rules[r].predecessors@.len() as int;
            assert(v.1.contains((rules[r].base, it.1[p], it.1[p + 1])));
        }
    }
    assert(v.0.union(fresh) =~= v.0);
    assert(fresh.map(|it: (int, Seq<int>)| item_triple(rules, it)) =~= v.1);
}

/// Cycles compose: `a` cycles and then `b` more are `a + b` cycles.
pub proof fn lemma_iter_adds(
    rules: Seq<MidRule>,
    tokens: Seq<Symbol>,
    v: (Set<(int, Seq<int>)>, Set<(Symbol, int, int)>),
    a: nat,
    b: nat,
)
    ensures
        forest_iter(rules, tokens, forest_iter(rules, tokens, v, a), b) == forest_iter(rules, tokens, v, a + b),
    decreases b,
{
    if b > 0 {
        lemma_iter_adds(rules, tokens, v, a, (b - 1) as nat);
    }
}

/// Stopping after some cycles and then running to the fixpoint gives what
/// one uninterrupted run to the fixpoint gives.
pub proof fn lemma_resume(
    rules: Seq<MidRule>,
    tokens: Seq<Symbol>,
    v: (Set<(int, Seq<int>)>, Set<(Symbol, int, int)>),
    a: nat,
    b: nat,
    k: nat,
)
    requires
        forest_iter(rules, tokens, forest_iter(rules, tokens, v, a), b).1.is_empty(),
        forest_iter(rules, tokens, v, k).1.is_empty(),
    ensures
        forest_iter(rules, tokens, forest_iter(rules, tokens, v, a), b) == forest_iter(rules, tokens, v, k),
{
    lemma_iter_adds(rules, tokens, v, a, b);
    lemma_fixpoint_unique(rules, tokens, v, a + b, k);
}

} // verus!
