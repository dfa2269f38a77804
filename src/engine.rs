//! The chart parser. Each input token becomes a terminal node; nodes live in
//! an append-only arena, and the chart lists at each position the nodes that
//! start and those that stop there. The parser runs in cycles: every node
//! queued by the previous cycle is matched against the rules anchored at its
//! label, each match growing first through the successors and then through the
//! predecessors, one symbol per round, against the chart as it stood when the
//! cycle began. A completed match becomes a new node unless a node with the
//! same rule, start and child positions exists already; the new nodes are
//! queued for the next cycle. As there are finitely many such identities, the
//! parser reaches a fixpoint on every grammar and input.

use vstd::prelude::*;
use crate::grammar::{
    check_symbol, lemma_rules_with_base, make_rule_map, pattern_at, pattern_len, rule_in_range, rules_with_base, symbol_in_range,
    MidRule, RuleIndex,
};
use crate::counting::{cap, code, digits_below, lemma_cap_mono, lemma_code_bound, lemma_code_injective, lemma_distinct_below, lemma_div_unique};
use crate::forest::{
    forest_iter, forest_step, fresh_items, has_triple, initial_forest, item_matches, item_triple, lemma_fixpoint_unique,
};
use crate::symbols::{NonTerm, Symbol};

verus! {

/// How a node of the forest came to be.
#[derive(Debug)]
pub enum NodeMeta {
    /// The node stands for one input token.
    Terminal { token_idx: usize },
    /// The node was produced by a rule from the given children, in surface order.
    NonTerminal { rule: usize, children: Vec<usize> },
}

/// A node of the parse forest, spanning the chart positions `[start, stop)`.
#[derive(Debug)]
pub struct Node {
    pub label: Symbol,
    pub start: usize,
    pub stop: usize,
    pub meta: NodeMeta,
}

/// The nodes that start and those that stop at one chart position.
#[derive(Debug)]
pub struct TableEntry {
    pub started: Vec<usize>,
    pub terminated: Vec<usize>,
}

impl TableEntry {
    /// An entry with no nodes.
    pub fn new() -> (r: TableEntry)
        ensures
            r.started@.len() == 0,
            r.terminated@.len() == 0,
    {
        TableEntry { started: Vec::new(), terminated: Vec::new() }
    }
}

/// The children of a node, empty for a terminal.
pub open spec fn children_of(n: Node) -> Seq<usize> {
    match n.meta {
        NodeMeta::Terminal { .. } => Seq::empty(),
        NodeMeta::NonTerminal { children, .. } => children@,
    }
}

/// The rule that produced a node, or -1 for a terminal.
pub open spec fn rule_of(n: Node) -> int {
    match n.meta {
        NodeMeta::Terminal { .. } => -1,
        NodeMeta::NonTerminal { rule, .. } => rule as int,
    }
}

/// The children `cs` match rule `r` in surface order: each child has the label
/// the rule asks for at its position, and each child starts where the previous
/// one stops.
#[verifier::opaque]
pub open spec fn is_match(rules: Seq<MidRule>, nodes: Seq<Node>, r: int, cs: Seq<usize>) -> bool {
    &&& 0 <= r < rules.len()
    &&& cs.len() == pattern_len(rules[r])
    &&& forall|j: int| 0 <= j < cs.len() ==> #[trigger] cs[j] < nodes.len()
    &&& forall|j: int| 0 <= j < cs.len() ==> nodes[#[trigger] cs[j] as int].label == pattern_at(rules[r], j)
    &&& forall|j: int| 0 <= j < cs.len() - 1 ==> nodes[#[trigger] cs[j] as int].stop == nodes[cs[j + 1] as int].start
}

/// The identity of a non-terminal node up to the choice of equivalent children:
/// its rule, its start, and the stop of each child in turn.
pub open spec fn item_of(nodes: Seq<Node>, h: int) -> (int, Seq<int>) {
    let cs = children_of(nodes[h]);
    (rule_of(nodes[h]), seq![nodes[h].start as int] + Seq::new(cs.len(), |j: int| nodes[cs[j] as int].stop as int))
}

/// The node at handle `h` is a well-formed node of an arena over `n_tokens` tokens.
#[verifier::opaque]
pub open spec fn node_wf(rules: Seq<MidRule>, nodes: Seq<Node>, n_tokens: int, h: int) -> bool {
    let n = nodes[h];
    &&& n.start < n.stop <= n_tokens
    &&& if h < n_tokens {
        &&& n.meta == (NodeMeta::Terminal { token_idx: h as usize })
        &&& n.start == h
        &&& n.stop == h + 1
    } else {
        let cs = children_of(n);
        let r = rule_of(n);
        &&& n.meta is NonTerminal
        &&& is_match(rules, nodes, r, cs)
        &&& forall|j: int| 0 <= j < cs.len() ==> #[trigger] cs[j] < h
        &&& n.label == (Symbol::NonTerminal { val: rules[r].result })
        &&& n.start == nodes[cs[0] as int].start
        &&& n.stop == nodes[cs[cs.len() - 1] as int].stop
    }
}

/// Which side of the base a partial match is extending.
#[derive(Debug)]
enum CheckStage {
    Right,
    Left,
}

/// A partial match of a rule, grown outward from its base node: first through
/// the successors, then through the predecessors.
#[derive(Debug)]
struct Check {
    rule: usize,
    stage: CheckStage,
    /// Index of the next expected symbol in the list of the current stage
    pos: usize,
    /// Chart position where the next predecessor must stop
    leftmost: usize,
    /// Chart position where the next successor must start
    rightmost: usize,
    base: usize,
    right_nodes: Vec<usize>,
    left_nodes: Vec<usize>,
}

/// A partial match as the rule, the base, the matched successors and the
/// matched predecessors (innermost first).
spec fn view_of(c: Check) -> (int, usize, Seq<usize>, Seq<usize>) {
    (c.rule as int, c.base, c.right_nodes@, c.left_nodes@)
}

/// Number of context symbols of rule `r`.
spec fn context_len(rules: Seq<MidRule>, r: int) -> int {
    (rules[r].predecessors@.len() + rules[r].successors@.len()) as int
}

/// Number of context symbols a partial match has matched.
spec fn progress(v: (int, usize, Seq<usize>, Seq<usize>)) -> int {
    (v.2.len() + v.3.len()) as int
}

/// The children, in surface order, of a completed partial match.
spec fn assemble(base: usize, right: Seq<usize>, left: Seq<usize>) -> Seq<usize> {
    let p = left.len() as int;
    Seq::new(
        (p + 1 + right.len()) as nat,
        |j: int|
            if j < p {
                left[p - 1 - j]
            } else if j == p {
                base
            } else {
                right[j - p - 1]
            },
    )
}

/// The partial match that the full match `cs` of rule `r` passes through once
/// `t` context symbols are matched.
spec fn partial(rules: Seq<MidRule>, r: int, cs: Seq<usize>, t: int) -> (int, usize, Seq<usize>, Seq<usize>) {
    let p = rules[r].predecessors@.len() as int;
    let s = rules[r].successors@.len() as int;
    if t <= s {
        (r, cs[p], cs.subrange(p + 1, p + 1 + t), Seq::empty())
    } else {
        (r, cs[p], cs.subrange(p + 1, p + 1 + s), Seq::new((t - s) as nat, |i: int| cs[p - 1 - i]))
    }
}

/// A partial match extended by the node `x` on the side it is growing.
spec fn extend(rules: Seq<MidRule>, v: (int, usize, Seq<usize>, Seq<usize>), x: usize) -> (int, usize, Seq<usize>, Seq<usize>) {
    if v.2.len() < rules[v.0].successors@.len() {
        (v.0, v.1, v.2.push(x), v.3)
    } else {
        (v.0, v.1, v.2, v.3.push(x))
    }
}

/// The nodes of a partial match are consistent with its rule and with each
/// other, and `leftmost` / `rightmost` are the outer ends of what it spans.
#[verifier::opaque]
spec fn partial_wf(
    rules: Seq<MidRule>,
    nodes: Seq<Node>,
    queue: Seq<usize>,
    v: (int, usize, Seq<usize>, Seq<usize>),
    leftmost: int,
    rightmost: int,
) -> bool {
    let (r, base, right, left) = v;
    let rule = rules[r];
    &&& 0 <= r < rules.len()
    &&& base < nodes.len()
    &&& queue.contains(base)
    &&& nodes[base as int].label == rule.base
    &&& right.len() <= rule.successors@.len()
    &&& left.len() <= rule.predecessors@.len()
    &&& left.len() > 0 ==> right.len() == rule.successors@.len()
    &&& forall|i: int| 0 <= i < right.len() ==> #[trigger] right[i] < nodes.len()
    &&& forall|i: int| 0 <= i < right.len() ==> nodes[#[trigger] right[i] as int].label == rule.successors@[i]
    &&& forall|i: int|
        0 <= i < right.len() ==> nodes[#[trigger] right[i] as int].start == (if i == 0 {
            nodes[base as int].stop
        } else {
            nodes[right[i - 1] as int].stop
        })
    &&& rightmost == (if right.len() == 0 {
        nodes[base as int].stop
    } else {
        nodes[right[right.len() - 1] as int].stop
    })
    &&& forall|i: int| 0 <= i < left.len() ==> #[trigger] left[i] < nodes.len()
    &&& forall|i: int| 0 <= i < left.len() ==> nodes[#[trigger] left[i] as int].label == rule.predecessors@[i]
    &&& forall|i: int|
        0 <= i < left.len() ==> nodes[#[trigger] left[i] as int].stop == (if i == 0 {
            nodes[base as int].start
        } else {
            nodes[left[i - 1] as int].start
        })
    &&& leftmost == (if left.len() == 0 {
        nodes[base as int].start
    } else {
        nodes[left[left.len() - 1] as int].start
    })
}

/// A check in the queue: a well-formed partial match that still expects a symbol.
spec fn check_wf(rules: Seq<MidRule>, nodes: Seq<Node>, queue: Seq<usize>, c: Check) -> bool {
    let v = view_of(c);
    &&& partial_wf(rules, nodes, queue, v, c.leftmost as int, c.rightmost as int)
    &&& progress(v) < context_len(rules, c.rule as int)
    &&& match c.stage {
        CheckStage::Right => c.pos == c.right_nodes@.len() && c.right_nodes@.len() < rules[c.rule as int].successors@.len(),
        CheckStage::Left => c.pos == c.left_nodes@.len() && c.right_nodes@.len() == rules[c.rule as int].successors@.len(),
    }
}

/// A node produced in a cycle: a full match of its rule, anchored at a queued node.
spec fn found_ok(rules: Seq<MidRule>, nodes: Seq<Node>, queue: Seq<usize>, nd: Node) -> bool {
    let cs = children_of(nd);
    let r = rule_of(nd);
    &&& nd.meta is NonTerminal
    &&& is_match(rules, nodes, r, cs)
    &&& queue.contains(cs[rules[r].predecessors@.len() as int])
    &&& nd.label == (Symbol::NonTerminal { val: rules[r].result })
    &&& nd.start == nodes[cs[0] as int].start
    &&& nd.stop == nodes[cs[cs.len() - 1] as int].stop
}

/// The partial match `v` has been taken care of: as a produced node if it is
/// complete, else as a check waiting in `next`.
spec fn recorded(rules: Seq<MidRule>, next: Seq<Check>, found: Seq<Node>, v: (int, usize, Seq<usize>, Seq<usize>)) -> bool {
    if progress(v) == context_len(rules, v.0) {
        exists|i: int| 0 <= i < found.len() && rule_of(#[trigger] found[i]) == v.0 && children_of(found[i]) == assemble(v.1, v.2, v.3)
    } else {
        exists|i: int| 0 <= i < next.len() && view_of(#[trigger] next[i]) == v
    }
}

/// A produced node as its label, span, rule and children.
spec fn summary(nd: Node) -> (Symbol, int, int, int, Seq<usize>) {
    (nd.label, nd.start as int, nd.stop as int, rule_of(nd), children_of(nd))
}

/// The node a complete partial match produces, as its label, span, rule and
/// children.
spec fn found_summary(rules: Seq<MidRule>, nodes: Seq<Node>, v: (int, usize, Seq<usize>, Seq<usize>)) -> (Symbol, int, int, int, Seq<usize>) {
    let cs = assemble(v.1, v.2, v.3);
    (Symbol::NonTerminal { val: rules[v.0].result }, nodes[cs[0] as int].start as int, nodes[cs[cs.len() - 1] as int].stop as int, v.0, cs)
}

/// The partial matches of `vs` that still expect a symbol, in order: the
/// checks that recording `vs` queues.
spec fn pending_of(rules: Seq<MidRule>, vs: Seq<(int, usize, Seq<usize>, Seq<usize>)>) -> Seq<(int, usize, Seq<usize>, Seq<usize>)>
    decreases vs.len(),
{
    if vs.len() == 0 {
        Seq::empty()
    } else {
        let x = vs.last();
        pending_of(rules, vs.drop_last()) + if progress(x) < context_len(rules, x.0) {
            seq![x]
        } else {
            Seq::empty()
        }
    }
}

/// The nodes, in order, that the complete partial matches of `vs` produce.
spec fn completed_of(rules: Seq<MidRule>, nodes: Seq<Node>, vs: Seq<(int, usize, Seq<usize>, Seq<usize>)>) -> Seq<(Symbol, int, int, int, Seq<usize>)>
    decreases vs.len(),
{
    if vs.len() == 0 {
        Seq::empty()
    } else {
        let x = vs.last();
        completed_of(rules, nodes, vs.drop_last()) + if progress(x) < context_len(rules, x.0) {
            Seq::empty()
        } else {
            seq![found_summary(rules, nodes, x)]
        }
    }
}

/// The extensions of the partial match `v` by each node of `entry` that
/// carries `expected`, in the order of `entry`.
spec fn exts_of(rules: Seq<MidRule>, nodes: Seq<Node>, v: (int, usize, Seq<usize>, Seq<usize>), entry: Seq<usize>, expected: Symbol) -> Seq<(int, usize, Seq<usize>, Seq<usize>)>
    decreases entry.len(),
{
    if entry.len() == 0 {
        Seq::empty()
    } else {
        let x = entry.last();
        exts_of(rules, nodes, v, entry.drop_last(), expected) + if nodes[x as int].label == expected {
            seq![extend(rules, v, x)]
        } else {
            Seq::empty()
        }
    }
}

/// The partial matches that starting rule `rs` at node `h` gives, in order.
spec fn starts_of(rs: Seq<usize>, h: usize) -> Seq<(int, usize, Seq<usize>, Seq<usize>)> {
    Seq::new(rs.len(), |i: int| (rs[i] as int, h, Seq::<usize>::empty(), Seq::<usize>::empty()))
}

/// The output of recording the partial matches `vs` in `next` and `found`,
/// starting from `next0` and `found0`.
#[verifier::opaque]
spec fn records_exactly(
    rules: Seq<MidRule>,
    nodes: Seq<Node>,
    next0: Seq<Check>,
    found0: Seq<Node>,
    next: Seq<Check>,
    found: Seq<Node>,
    vs: Seq<(int, usize, Seq<usize>, Seq<usize>)>,
) -> bool {
    &&& next.map_values(|c: Check| view_of(c)) == next0.map_values(|c: Check| view_of(c)) + pending_of(rules, vs)
    &&& found.map_values(|n: Node| summary(n)) == found0.map_values(|n: Node| summary(n)) + completed_of(rules, nodes, vs)
}

/// Recording one more partial match extends the output by its check or its node.
proof fn lemma_records_push(
    rules: Seq<MidRule>,
    nodes: Seq<Node>,
    next0: Seq<Check>,
    found0: Seq<Node>,
    next1: Seq<Check>,
    found1: Seq<Node>,
    next2: Seq<Check>,
    found2: Seq<Node>,
    vs: Seq<(int, usize, Seq<usize>, Seq<usize>)>,
    x: (int, usize, Seq<usize>, Seq<usize>),
)
    requires
        records_exactly(rules, nodes, next0, found0, next1, found1, vs),
        progress(x) < context_len(rules, x.0) ==> found2 == found1 && next2.map_values(|c: Check| view_of(c)) == next1.map_values(
            |c: Check| view_of(c),
        ).push(x),
        progress(x) >= context_len(rules, x.0) ==> next2 == next1 && found2.map_values(|n: Node| summary(n)) == found1.map_values(
            |n: Node| summary(n),
        ).push(found_summary(rules, nodes, x)),
    ensures
        records_exactly(rules, nodes, next0, found0, next2, found2, vs.push(x)),
{
    reveal(records_exactly);
    assert(vs.push(x).drop_last() =~= vs);
    if progress(x) < context_len(rules, x.0) {
        assert(next2.map_values(|c: Check| view_of(c)) =~= next0.map_values(|c: Check| view_of(c)) + pending_of(rules, vs.push(x)));
        assert(found2.map_values(|n: Node| summary(n)) =~= found0.map_values(|n: Node| summary(n)) + completed_of(rules, nodes, vs.push(x)));
    } else {
        assert(next2.map_values(|c: Check| view_of(c)) =~= next0.map_values(|c: Check| view_of(c)) + pending_of(rules, vs.push(x)));
        assert(found2.map_values(|n: Node| summary(n)) =~= found0.map_values(|n: Node| summary(n)) + completed_of(rules, nodes, vs.push(x)));
    }
}

/// Recording nothing leaves the output as it was.
proof fn lemma_records_none(rules: Seq<MidRule>, nodes: Seq<Node>, next0: Seq<Check>, found0: Seq<Node>)
    ensures
        records_exactly(rules, nodes, next0, found0, next0, found0, Seq::empty()),
{
    reveal(records_exactly);
    assert(next0.map_values(|c: Check| view_of(c)) =~= next0.map_values(|c: Check| view_of(c)) + Seq::empty());
    assert(found0.map_values(|n: Node| summary(n)) =~= found0.map_values(|n: Node| summary(n)) + Seq::empty());
}

/// One more entry of a scanned chart list: recorded when it carries the
/// expected label, skipped otherwise.
proof fn lemma_exts_step(
    rules: Seq<MidRule>,
    nodes: Seq<Node>,
    v: (int, usize, Seq<usize>, Seq<usize>),
    entry: Seq<usize>,
    k: int,
    expected: Symbol,
    next0: Seq<Check>,
    found0: Seq<Node>,
    next1: Seq<Check>,
    found1: Seq<Node>,
    next2: Seq<Check>,
    found2: Seq<Node>,
)
    requires
        0 <= k < entry.len(),
        records_exactly(rules, nodes, next0, found0, next1, found1, exts_of(rules, nodes, v, entry.subrange(0, k), expected)),
        nodes[entry[k] as int].label != expected ==> next2 == next1 && found2 == found1,
        nodes[entry[k] as int].label == expected ==> {
            let x = extend(rules, v, entry[k]);
            &&& progress(x) < context_len(rules, x.0) ==> found2 == found1 && next2.map_values(|c: Check| view_of(c))
                == next1.map_values(|c: Check| view_of(c)).push(x)
            &&& progress(x) >= context_len(rules, x.0) ==> next2 == next1 && found2.map_values(|n: Node| summary(n))
                == found1.map_values(|n: Node| summary(n)).push(found_summary(rules, nodes, x))
        },
    ensures
        records_exactly(rules, nodes, next0, found0, next2, found2, exts_of(rules, nodes, v, entry.subrange(0, k + 1), expected)),
{
    let sub = entry.subrange(0, k);
    assert(entry.subrange(0, k + 1).drop_last() =~= sub);
    assert(entry.subrange(0, k + 1).last() == entry[k]);
    if nodes[entry[k] as int].label == expected {
        assert(exts_of(rules, nodes, v, entry.subrange(0, k + 1), expected) =~= exts_of(rules, nodes, v, sub, expected).push(
            extend(rules, v, entry[k]),
        ));
        lemma_records_push(rules, nodes, next0, found0, next1, found1, next2, found2, exts_of(rules, nodes, v, sub, expected), extend(rules, v, entry[k]));
    } else {
        assert(exts_of(rules, nodes, v, entry.subrange(0, k + 1), expected) =~= exts_of(rules, nodes, v, sub, expected));
    }
}

/// Once recorded, a partial match stays recorded as `next` and `found` grow.
proof fn lemma_recorded_grows(
    rules: Seq<MidRule>,
    next: Seq<Check>,
    found: Seq<Node>,
    next2: Seq<Check>,
    found2: Seq<Node>,
    v: (int, usize, Seq<usize>, Seq<usize>),
)
    requires
        recorded(rules, next, found, v),
        next.is_prefix_of(next2),
        found.is_prefix_of(found2),
    ensures
        recorded(rules, next2, found2, v),
{
    if progress(v) == context_len(rules, v.0) {
        let i = choose|i: int| 0 <= i < found.len() && rule_of(#[trigger] found[i]) == v.0 && children_of(found[i]) == assemble(v.1, v.2, v.3);
        assert(found2[i] == found[i]);
    } else {
        let i = choose|i: int| 0 <= i < next.len() && view_of(#[trigger] next[i]) == v;
        assert(next2[i] == next[i]);
    }
}

/// A partial match with every context symbol matched is a full match of its
/// rule, spanning from `leftmost` to `rightmost`.
#[verifier::spinoff_prover]
#[verifier::rlimit(40)]
proof fn lemma_assembled_match(
    rules: Seq<MidRule>,
    nodes: Seq<Node>,
    queue: Seq<usize>,
    v: (int, usize, Seq<usize>, Seq<usize>),
    leftmost: int,
    rightmost: int,
)
    requires
        partial_wf(rules, nodes, queue, v, leftmost, rightmost),
        progress(v) == context_len(rules, v.0),
    ensures
        ({
            let cs = assemble(v.1, v.2, v.3);
            &&& is_match(rules, nodes, v.0, cs)
            &&& queue.contains(cs[rules[v.0].predecessors@.len() as int])
            &&& leftmost == nodes[cs[0] as int].start
            &&& rightmost == nodes[cs[cs.len() - 1] as int].stop
        }),
{
    reveal(is_match);    reveal(partial_wf);
    let (r, base, right, left) = v;
    let p = left.len() as int;
    let s = right.len() as int;
    let cs = assemble(base, right, left);
    let rl = rules[r];
    assert forall|j: int| 0 <= j < cs.len() implies nodes[#[trigger] cs[j] as int].label == pattern_at(rl, j) by {
        if j < p {
            assert(cs[j] == left[p - 1 - j]);
        } else if j > p {
            assert(cs[j] == right[j - p - 1]);
        }
    }
    assert forall|j: int| 0 <= j < cs.len() - 1 implies nodes[#[trigger] cs[j] as int].stop == nodes[cs[j + 1] as int].start by {
        if j < p - 1 {
            assert(cs[j] == left[p - 1 - j]);
            assert(cs[j + 1] == left[p - 1 - j - 1]);
        } else if j == p - 1 {
            assert(cs[j] == left[0]);
        } else if j == p {
            assert(cs[j + 1] == right[0]);
        } else {
            assert(cs[j] == right[j - p - 1]);
            assert(cs[j + 1] == right[j - p]);
        }
    }
    assert forall|j: int| 0 <= j < cs.len() implies #[trigger] cs[j] < nodes.len() by {
        if j < p {
            assert(cs[j] == left[p - 1 - j]);
        } else if j > p {
            assert(cs[j] == right[j - p - 1]);
        }
    }
    if p > 0 {
        assert(cs[0] == left[p - 1]);
    }
    if s > 0 {
        assert(cs[cs.len() - 1] == right[s - 1]);
    }
    assert(cs[p] == base);
}

/// The checks appended over two steps are all well-formed, at progress `t`.
proof fn lemma_checks_appended(
    rules: Seq<MidRule>,
    nodes: Seq<Node>,
    queue: Seq<usize>,
    a: Seq<Check>,
    b: Seq<Check>,
    c: Seq<Check>,
    t: int,
)
    requires
        a.is_prefix_of(b),
        b.is_prefix_of(c),
        forall|i: int| a.len() <= i < b.len() ==> check_wf(rules, nodes, queue, #[trigger] b[i]) && progress(view_of(b[i])) == t,
        forall|i: int| b.len() <= i < c.len() ==> check_wf(rules, nodes, queue, #[trigger] c[i]) && progress(view_of(c[i])) == t,
    ensures
        a.is_prefix_of(c),
        forall|i: int| a.len() <= i < c.len() ==> check_wf(rules, nodes, queue, #[trigger] c[i]) && progress(view_of(c[i])) == t,
{
    assert forall|i: int| a.len() <= i < c.len() implies check_wf(rules, nodes, queue, #[trigger] c[i]) && progress(view_of(c[i])) == t by {
        if i < b.len() {
            assert(c[i] == b[i]);
        }
    }
    assert forall|i: int| 0 <= i < a.len() implies #[trigger] c[i] == a[i] by {
        assert(b[i] == a[i]);
    }
}

/// The nodes appended over two steps are all well-formed.
proof fn lemma_found_appended(
    rules: Seq<MidRule>,
    nodes: Seq<Node>,
    queue: Seq<usize>,
    a: Seq<Node>,
    b: Seq<Node>,
    c: Seq<Node>,
)
    requires
        a.is_prefix_of(b),
        b.is_prefix_of(c),
        forall|i: int| a.len() <= i < b.len() ==> found_ok(rules, nodes, queue, #[trigger] b[i]),
        forall|i: int| b.len() <= i < c.len() ==> found_ok(rules, nodes, queue, #[trigger] c[i]),
    ensures
        a.is_prefix_of(c),
        forall|i: int| a.len() <= i < c.len() ==> found_ok(rules, nodes, queue, #[trigger] c[i]),
{
    assert forall|i: int| a.len() <= i < c.len() implies found_ok(rules, nodes, queue, #[trigger] c[i]) by {
        if i < b.len() {
            assert(c[i] == b[i]);
        }
    }
    assert forall|i: int| 0 <= i < a.len() implies #[trigger] c[i] == a[i] by {
        assert(b[i] == a[i]);
    }
}

/// The children `cs` match rule `r` and the base among them is a queued node.
pub open spec fn anchored_match(rules: Seq<MidRule>, nodes: Seq<Node>, queue: Seq<usize>, r: int, cs: Seq<usize>) -> bool {
    &&& is_match(rules, nodes, r, cs)
    &&& queue.contains(cs[rules[r].predecessors@.len() as int])
}

/// The identity a node made from the match `cs` of rule `r` would have.
pub open spec fn match_item(nodes: Seq<Node>, r: int, cs: Seq<usize>) -> (int, Seq<int>) {
    (r, seq![nodes[cs[0] as int].start as int] + Seq::new(cs.len(), |j: int| nodes[cs[j] as int].stop as int))
}

/// The node of a full match that a partial match at progress `t` adds next.
spec fn next_of(rules: Seq<MidRule>, r: int, cs: Seq<usize>, t: int) -> usize {
    let p = rules[r].predecessors@.len() as int;
    let s = rules[r].successors@.len() as int;
    if t < s {
        cs[p + 1 + t]
    } else {
        cs[p - 1 - (t - s)]
    }
}

/// Walking a full match one context symbol at a time: the partial match at
/// progress `t` is extended by `next_of` to the one at `t + 1`, and at the end
/// the partial match assembles to the full match.
#[verifier::spinoff_prover]
#[verifier::rlimit(50)]
proof fn lemma_partial_step(rules: Seq<MidRule>, nodes: Seq<Node>, queue: Seq<usize>, r: int, cs: Seq<usize>, t: int)
    requires
        anchored_match(rules, nodes, queue, r, cs),
        0 <= t < context_len(rules, r),
    ensures
        extend(rules, partial(rules, r, cs, t), next_of(rules, r, cs, t)) == partial(rules, r, cs, t + 1),
        progress(partial(rules, r, cs, t)) == t,
        progress(partial(rules, r, cs, t + 1)) == t + 1,
        t + 1 == context_len(rules, r) ==> ({
            let v = partial(rules, r, cs, t + 1);
            assemble(v.1, v.2, v.3) == cs
        }),
{
    reveal(is_match);
    let p = rules[r].predecessors@.len() as int;
    let s = rules[r].successors@.len() as int;
    let v = partial(rules, r, cs, t);
    let w = partial(rules, r, cs, t + 1);
    let x = next_of(rules, r, cs, t);
    if t < s {
        assert(w.2 =~= v.2.push(x));
        if t + 1 <= s {
            assert(w.3 =~= v.3);
        }
    } else {
        assert(w.2 =~= v.2);
        assert(w.3 =~= v.3.push(x));
    }
    if t + 1 == context_len(rules, r) {
        assert(assemble(w.1, w.2, w.3) =~= cs);
    }
}

/// A check that sits on a full match at progress `t` expects the next node of
/// that match at its open end.
proof fn lemma_check_on_match(rules: Seq<MidRule>, nodes: Seq<Node>, queue: Seq<usize>, r: int, cs: Seq<usize>, t: int, c: Check)
    requires
        anchored_match(rules, nodes, queue, r, cs),
        0 <= t < context_len(rules, r),
        check_wf(rules, nodes, queue, c),
        view_of(c) == partial(rules, r, cs, t),
    ensures
        c.stage is Right ==> {
            &&& nodes[next_of(rules, r, cs, t) as int].start == c.rightmost
            &&& nodes[next_of(rules, r, cs, t) as int].label == rules[r].successors@[c.right_nodes@.len() as int]
        },
        c.stage is Left ==> {
            &&& nodes[next_of(rules, r, cs, t) as int].stop == c.leftmost
            &&& nodes[next_of(rules, r, cs, t) as int].label == rules[r].predecessors@[c.left_nodes@.len() as int]
        },
        next_of(rules, r, cs, t) < nodes.len(),
{
    reveal(is_match);    reveal(partial_wf);
    let p = rules[r].predecessors@.len() as int;
    let s = rules[r].successors@.len() as int;
    let x = next_of(rules, r, cs, t);
    if t < s {
        assert(x == cs[p + 1 + t]);
        assert(nodes[cs[p + t] as int].stop == nodes[cs[p + t + 1] as int].start);
        if t > 0 {
            assert(c.right_nodes@[t - 1] == cs[p + t]);
        }
    } else {
        let u = t - s;
        assert(x == cs[p - 1 - u]);
        assert(nodes[cs[p - 1 - u] as int].stop == nodes[cs[p - u] as int].start);
        if u > 0 {
            assert(c.left_nodes@[u - 1] == cs[p - u]);
        }
    }
}

/// Largest number of context symbols among the first `upto` rules.
spec fn max_context(rules: Seq<MidRule>, upto: int) -> int
    decreases upto,
{
    if upto <= 0 {
        0
    } else {
        let m = max_context(rules, upto - 1);
        let c = context_len(rules, upto - 1);
        if c > m { c } else { m }
    }
}

proof fn lemma_max_context(rules: Seq<MidRule>, upto: int, r: int)
    requires
        0 <= r < upto,
    ensures
        context_len(rules, r) <= max_context(rules, upto),
    decreases upto,
{
    if r < upto - 1 {
        lemma_max_context(rules, upto - 1, r);
    }
}

/// Facts about a match that only read the nodes it names stay true when nodes
/// are appended to the arena.
proof fn lemma_match_extends(rules: Seq<MidRule>, nodes: Seq<Node>, more: Seq<Node>, r: int, cs: Seq<usize>)
    requires
        is_match(rules, nodes, r, cs),
        nodes.is_prefix_of(more),
    ensures
        is_match(rules, more, r, cs),
        match_item(more, r, cs) == match_item(nodes, r, cs),
{
    reveal(is_match);    assert forall|j: int| 0 <= j < cs.len() implies #[trigger] more[cs[j] as int] == nodes[cs[j] as int] by {}
    assert(match_item(more, r, cs).1 =~= match_item(nodes, r, cs).1);
}

/// A match spans from the start of its first node to the stop of its last,
/// which lie in order.
proof fn lemma_match_span(rules: Seq<MidRule>, nodes: Seq<Node>, n_tokens: int, r: int, cs: Seq<usize>, j: int)
    requires
        is_match(rules, nodes, r, cs),
        forall|h: int| 0 <= h < nodes.len() ==> #[trigger] nodes[h].start < nodes[h].stop <= n_tokens,
        0 <= j < cs.len(),
    ensures
        nodes[cs[0] as int].start < nodes[cs[j] as int].stop <= n_tokens,
    decreases j,
{
    reveal(is_match);    assert(nodes[cs[j] as int].start < nodes[cs[j] as int].stop);
    if j > 0 {
        lemma_match_span(rules, nodes, n_tokens, r, cs, j - 1);
        assert(nodes[cs[j - 1] as int].stop == nodes[cs[j] as int].start);
    }
}

/// A match has one node per symbol of its rule, and all of them in the arena.
proof fn lemma_match_len(rules: Seq<MidRule>, nodes: Seq<Node>, r: int, cs: Seq<usize>)
    requires
        is_match(rules, nodes, r, cs),
    ensures
        cs.len() == pattern_len(rules[r]) >= 1,
        0 <= r < rules.len(),
        forall|j: int| 0 <= j < cs.len() ==> #[trigger] cs[j] < nodes.len(),
{
    reveal(is_match);
}

/// A well-formed node stays well-formed, with the same identity, when nodes
/// are appended to the arena.
#[verifier::spinoff_prover]
#[verifier::rlimit(60)]
proof fn lemma_node_wf_extends(rules: Seq<MidRule>, nodes: Seq<Node>, more: Seq<Node>, n_tokens: int, g: int)
    requires
        0 <= g < nodes.len(),
        node_wf(rules, nodes, n_tokens, g),
        nodes.is_prefix_of(more),
    ensures
        node_wf(rules, more, n_tokens, g),
        item_of(more, g) == item_of(nodes, g),
{
    reveal(node_wf);
    assert(more[g] == nodes[g]);
    let cs = children_of(nodes[g]);
    if g >= n_tokens {
        lemma_match_extends(rules, nodes, more, rule_of(nodes[g]), cs);
        lemma_match_len(rules, nodes, rule_of(nodes[g]), cs);
        assert forall|j: int| 0 <= j < cs.len() implies #[trigger] more[cs[j] as int] == nodes[cs[j] as int] by {}
        assert(more[cs[0] as int] == nodes[cs[0] as int]);
        assert(more[cs[cs.len() - 1] as int] == nodes[cs[cs.len() - 1] as int]);
        assert(item_of(more, g).1 =~= item_of(nodes, g).1);
    } else {
        assert(item_of(more, g).1 =~= item_of(nodes, g).1);
    }
}

/// Appending a produced node, whose identity is new, to a well-formed arena
/// keeps every node well-formed and every earlier identity unchanged.
#[verifier::spinoff_prover]
#[verifier::rlimit(60)]
proof fn lemma_push_found(
    rules: Seq<MidRule>,
    nodes0: Seq<Node>,
    q: Seq<usize>,
    before: Seq<Node>,
    n_tokens: int,
    nd: Node,
)
    requires
        n_tokens <= nodes0.len(),
        nodes0.is_prefix_of(before),
        forall|g: int| 0 <= g < before.len() ==> #[trigger] node_wf(rules, before, n_tokens, g),
        forall|h: int| 0 <= h < nodes0.len() ==> #[trigger] nodes0[h].start < nodes0[h].stop <= n_tokens,
        found_ok(rules, nodes0, q, nd),
    ensures
        forall|g: int| 0 <= g < before.len() + 1 ==> #[trigger] node_wf(rules, before.push(nd), n_tokens, g),
        forall|g: int| 0 <= g < before.len() ==> #[trigger] item_of(before.push(nd), g) == item_of(before, g),
        item_of(before.push(nd), before.len() as int) == match_item(nodes0, rule_of(nd), children_of(nd)),
        nodes0.is_prefix_of(before.push(nd)),
        anchored_match(rules, nodes0, q, rule_of(before.push(nd)[before.len() as int]), children_of(before.push(nd)[before.len() as int])),
{
    let nodes = before.push(nd);
    let cs = children_of(nd);
    let r = rule_of(nd);
    reveal(is_match);
    lemma_match_span(rules, nodes0, n_tokens, r, cs, cs.len() - 1);
    assert(before.is_prefix_of(nodes));
    lemma_match_extends(rules, nodes0, nodes, r, cs);
    assert forall|g: int| 0 <= g < nodes.len() implies #[trigger] node_wf(rules, nodes, n_tokens, g) by {
        if g < before.len() {
            lemma_node_wf_extends(rules, before, nodes, n_tokens, g);
        } else {
            reveal(node_wf);
            assert(nodes[cs[0] as int] == nodes0[cs[0] as int]);
            assert(nodes[cs[cs.len() - 1] as int] == nodes0[cs[cs.len() - 1] as int]);
        }
    }
    assert forall|g: int| 0 <= g < before.len() implies #[trigger] item_of(nodes, g) == item_of(before, g) by {
        lemma_node_wf_extends(rules, before, nodes, n_tokens, g);
    }
    assert(item_of(nodes, before.len() as int).1 =~= match_item(nodes, r, cs).1);
    assert(nodes0.is_prefix_of(nodes)) by {
        assert forall|g: int| 0 <= g < nodes0.len() implies #[trigger] nodes[g] == nodes0[g] by {
            assert(before[g] == nodes0[g]);
        }
    }
}

/// An upper bound on the number of nodes of a well-formed arena over
/// `n_tokens` tokens under `rules`: the tokens, plus one node per rule and
/// choice of chart positions for its children.
pub closed spec fn node_bound(rules: Seq<MidRule>, n_tokens: int) -> int {
    n_tokens + rules.len() * cap(n_tokens + 1, (max_context(rules, rules.len() as int) + 2) as nat)
}

/// A number that identifies the identity of a non-terminal node.
spec fn item_key(n_rules: int, n_tokens: int, it: (int, Seq<int>)) -> int {
    it.0 + n_rules * code(it.1, n_tokens + 1)
}

/// The handles below `upto`, in increasing order, of the nodes that span
/// `[start, stop)` and, when `label` is given, carry that label.
pub open spec fn covering(nodes: Seq<Node>, label: Option<Symbol>, start: int, stop: int, upto: int) -> Seq<usize>
    decreases upto,
{
    if upto <= 0 {
        Seq::empty()
    } else {
        let rest = covering(nodes, label, start, stop, upto - 1);
        let n = nodes[upto - 1];
        if n.start == start && n.stop == stop && (label is None || label == Some(n.label)) {
            rest.push((upto - 1) as usize)
        } else {
            rest
        }
    }
}

/// A handle is listed by `covering` exactly when its node is below `upto`,
/// spans `[start, stop)` and fits the label.
pub proof fn lemma_covering(nodes: Seq<Node>, label: Option<Symbol>, start: int, stop: int, upto: int, h: usize)
    requires
        upto <= nodes.len() <= usize::MAX,
    ensures
        covering(nodes, label, start, stop, upto).contains(h) <==> (h < upto && nodes[h as int].start == start
            && nodes[h as int].stop == stop && (label is None || label == Some(nodes[h as int].label))),
        forall|k: int| 0 <= k < covering(nodes, label, start, stop, upto).len() ==> #[trigger] covering(nodes, label, start, stop, upto)[k] < upto,
    decreases upto,
{
    if upto > 0 {
        lemma_covering(nodes, label, start, stop, upto - 1, h);
        let prev = covering(nodes, label, start, stop, upto - 1);
        let n = nodes[upto - 1];
        if n.start == start && n.stop == stop && (label is None || label == Some(n.label)) {
            let cur = prev.push((upto - 1) as usize);
            assert(covering(nodes, label, start, stop, upto) == cur);
            if h == upto - 1 {
                assert(cur[prev.len() as int] == h);
            }
            if prev.contains(h) {
                let k = choose|k: int| 0 <= k < prev.len() && prev[k] == h;
                assert(cur[k] == h);
            }
            if cur.contains(h) {
                let k = choose|k: int| 0 <= k < cur.len() && cur[k] == h;
                if k < prev.len() {
                    assert(prev[k] == h);
                }
            }
        } else {
            assert(covering(nodes, label, start, stop, upto) == prev);
        }
    } else {
        assert(covering(nodes, label, start, stop, upto).len() == 0);
    }
}

/// The label and span `[start, stop)` of a node.
pub open spec fn triple_of(n: Node) -> (Symbol, int, int) {
    (n.label, n.start as int, n.stop as int)
}

/// The token indices at the leaves, left to right, of the derivation of the
/// node at handle `h`, through its first `k` children.
pub open spec fn leaves_of(nodes: Seq<Node>, h: int, k: int) -> Seq<int>
    decreases h, k,
{
    if h < 0 || h >= nodes.len() {
        Seq::empty()
    } else {
        match nodes[h].meta {
            NodeMeta::Terminal { token_idx } => seq![token_idx as int],
            NodeMeta::NonTerminal { children, .. } => {
                if k <= 0 || k > children@.len() {
                    Seq::empty()
                } else {
                    let c = children@[k - 1] as int;
                    if 0 <= c < h {
                        leaves_of(nodes, h, k - 1) + leaves_of(nodes, c, children_of(nodes[c]).len() as int)
                    } else {
                        Seq::empty()
                    }
                }
            },
        }
    }
}

/// The positions `lo` to `hi - 1`, in order.
pub open spec fn positions(lo: int, hi: int) -> Seq<int> {
    Seq::new((hi - lo) as nat, |i: int| lo + i)
}

/// A derivation tree materialised from the forest.
#[derive(Debug)]
pub enum TreeNode {
    /// The token at `index` of the input
    Terminal { index: usize },
    /// A node produced by a rule with result `rule` and the given variant
    NonTerminal { rule: NonTerm, variant: usize, children: Vec<TreeNode> },
}

/// The tree `t` is the derivation tree of the node at handle `h`.
pub open spec fn represents(rules: Seq<MidRule>, nodes: Seq<Node>, t: TreeNode, h: int) -> bool
    decreases h,
{
    if h < 0 || h >= nodes.len() {
        false
    } else {
        match (t, nodes[h].meta) {
            (TreeNode::Terminal { index }, NodeMeta::Terminal { token_idx }) => index == token_idx,
            (TreeNode::NonTerminal { rule, variant, children }, NodeMeta::NonTerminal { rule: r, children: cs }) => {
                &&& r < rules.len()
                &&& rule == rules[r as int].result
                &&& variant == rules[r as int].variant
                &&& children@.len() == cs@.len()
                &&& forall|j: int| 0 <= j < cs@.len() ==> #[trigger] cs@[j] < h && represents(rules, nodes, children@[j], cs@[j] as int)
            },
            _ => false,
        }
    }
}

/// Why a grammar and input were refused.
#[derive(Debug, Clone, Copy, PartialEq, Eq, Structural)]
pub enum GrammarError {
    /// The rule with this handle names a symbol out of range
    RuleOutOfRange { rule: usize },
    /// The token at this index is out of range
    TokenOutOfRange { index: usize },
}

/// Nodes picked one per symbol of rule `r`, each with that symbol's label and
/// the span between consecutive positions of `bs`, form a match whose item is
/// `(r, bs)`.
proof fn lemma_chain_is_match(rules: Seq<MidRule>, nodes: Seq<Node>, q: Seq<usize>, r: int, bs: Seq<int>, cs: Seq<usize>)
    requires
        0 <= r < rules.len(),
        bs.len() == pattern_len(rules[r]) + 1,
        cs.len() == bs.len() - 1,
        forall|j: int| 0 <= j < cs.len() ==> #[trigger] cs[j] < nodes.len() && triple_of(nodes[cs[j] as int]) == (
            pattern_at(rules[r], j),
            bs[j],
            bs[j + 1],
        ),
        q.contains(cs[rules[r].predecessors@.len() as int]),
    ensures
        anchored_match(rules, nodes, q, r, cs),
        match_item(nodes, r, cs) == (r, bs),
{
    let k = cs.len();
    assert(is_match(rules, nodes, r, cs)) by {
        reveal(is_match);
        assert forall|j: int| 0 <= j < cs.len() - 1 implies nodes[#[trigger] cs[j] as int].stop == nodes[cs[j + 1] as int].start by {
            assert(triple_of(nodes[cs[j] as int]).2 == bs[j + 1]);
            assert(triple_of(nodes[cs[j + 1] as int]).1 == bs[j + 1]);
        }
    }
    assert(match_item(nodes, r, cs).1 =~= bs) by {
        assert(triple_of(nodes[cs[0] as int]).1 == bs[0]);
        assert forall|j: int| 0 <= j < k implies #[trigger] nodes[cs[j] as int].stop == bs[j + 1] by {
            assert(triple_of(nodes[cs[j] as int]).2 == bs[j + 1]);
        }
    }
}

/// `new` is `old` with entries appended, each in `[lo, hi)`.
pub open spec fn grows(old: Seq<usize>, new: Seq<usize>, lo: int, hi: int) -> bool {
    &&& old.is_prefix_of(new)
    &&& forall|k: int| #![trigger new[k]] old.len() <= k < new.len() ==> lo <= new[k] && new[k] < hi
}

/// Every chart list of `t` is the one of `t0` with handles from `[lo, hi)`
/// appended.
#[verifier::opaque]
spec fn chart_grown(t0: Seq<TableEntry>, t: Seq<TableEntry>, lo: int, hi: int) -> bool {
    &&& t.len() == t0.len()
    &&& forall|p: int|
        0 <= p < t0.len() ==> grows(t0[p].started@, #[trigger] t[p].started@, lo, hi) && grows(t0[p].terminated@, t[p].terminated@, lo, hi)
}

proof fn lemma_grows_step(old: Seq<usize>, mid: Seq<usize>, new: Seq<usize>, pushed: bool, h: usize, lo: int)
    requires
        grows(old, mid, lo, h as int),
        lo <= h,
        new == if pushed {
            mid.push(h)
        } else {
            mid
        },
    ensures
        grows(old, new, lo, h + 1),
{
    if pushed {
        lemma_grows_push(old, mid, h, lo, h as int, h + 1);
    } else {
        lemma_grows_wider(old, mid, lo, h as int, h + 1);
    }
}

/// Growing by handles from an empty range leaves a list as it was.
pub proof fn lemma_grows_none(old: Seq<usize>, new: Seq<usize>, lo: int)
    requires
        grows(old, new, lo, lo),
    ensures
        new == old,
{
    if new.len() > old.len() {
        let k = old.len() as int;
        assert(old.len() <= k && k < new.len());
        assert(lo <= new[k]);
        assert(new[k] < lo);
    }
    assert(new.subrange(0, old.len() as int) =~= old);
    assert(new =~= old);
}

proof fn lemma_grows_wider(old: Seq<usize>, new: Seq<usize>, lo: int, hi0: int, hi: int)
    requires
        grows(old, new, lo, hi0),
        hi0 <= hi,
    ensures
        grows(old, new, lo, hi),
{
}

proof fn lemma_grows_push(old: Seq<usize>, mid: Seq<usize>, x: usize, lo: int, hi0: int, hi: int)
    requires
        grows(old, mid, lo, hi0),
        hi0 <= hi,
        lo <= x < hi,
    ensures
        grows(old, mid.push(x), lo, hi),
{
    assert forall|k: int| 0 <= k < old.len() implies #[trigger] mid.push(x)[k] == old[k] by {
        assert(mid[k] == old[k]);
    }
    assert forall|k: int| old.len() <= k < mid.push(x).len() implies lo <= #[trigger] mid.push(x)[k] < hi by {
        if k < mid.len() {
            assert(mid.push(x)[k] == mid[k]);
        }
    }
}

/// Parser state: the grammar, the chart, the node arena and the queue of nodes
/// that still have to be matched against the rules anchored at their label.
pub struct State {
    rules: Vec<MidRule>,
    rule_map: RuleIndex,
    table: Vec<TableEntry>,
    nodes: Vec<Node>,
    node_queue: Vec<usize>,
}

impl State {
    /// The rules of the grammar.
    pub closed spec fn rules_view(&self) -> Seq<MidRule> {
        self.rules@
    }

    /// The arena of nodes, indexed by handle.
    pub closed spec fn nodes_view(&self) -> Seq<Node> {
        self.nodes@
    }

    /// The handles waiting to be matched against the rules.
    pub closed spec fn queue_view(&self) -> Seq<usize> {
        self.node_queue@
    }

    /// The number of input tokens.
    pub closed spec fn num_tokens(&self) -> int {
        self.table@.len() - 1
    }

    /// The nodes that start at position `p`.
    pub closed spec fn started_view(&self, p: int) -> Seq<usize> {
        self.table@[p].started@
    }

    /// The nodes that stop at position `p`.
    pub closed spec fn terminated_view(&self, p: int) -> Seq<usize> {
        self.table@[p].terminated@
    }

    /// Every entry of the chart lists only nodes that start (or stop) there, and
    /// every node is listed at its start and at its stop.
    pub closed spec fn chart_wf(&self) -> bool {
        let nodes = self.nodes@;
        &&& forall|p: int, k: int|
            0 <= p < self.table@.len() && 0 <= k < self.table@[p].started@.len() ==> {
                let h = #[trigger] self.table@[p].started@[k];
                h < nodes.len() && nodes[h as int].start == p
            }
        &&& forall|p: int, k: int|
            0 <= p < self.table@.len() && 0 <= k < self.table@[p].terminated@.len() ==> {
                let h = #[trigger] self.table@[p].terminated@[k];
                h < nodes.len() && nodes[h as int].stop == p
            }
        &&& forall|h: int|
            0 <= h < nodes.len() ==> #[trigger] nodes[h].start < self.table@.len() && nodes[h].stop < self.table@.len()
        &&& forall|h: int|
            0 <= h < nodes.len() ==> self.table@[#[trigger] nodes[h].start as int].started@.contains(h as usize)
        &&& forall|h: int|
            0 <= h < nodes.len() ==> self.table@[#[trigger] nodes[h].stop as int].terminated@.contains(h as usize)
    }

    /// The invariant of the parser state.
    #[verifier::opaque]
    pub closed spec fn wf(&self) -> bool {
        let nodes = self.nodes@;
        let n_tokens = self.num_tokens();
        &&& self.table@.len() >= 1
        &&& self.rules@.len() <= usize::MAX
        &&& nodes.len() <= usize::MAX
        &&& self.rule_map.indexes(self.rules@)
        &&& n_tokens <= nodes.len()
        &&& forall|h: int| 0 <= h < nodes.len() ==> #[trigger] node_wf(self.rules@, nodes, n_tokens, h)
        &&& self.chart_wf()
        &&& forall|i: int| 0 <= i < self.node_queue@.len() ==> #[trigger] self.node_queue@[i] < nodes.len()
        &&& forall|h1: int, h2: int|
            n_tokens <= h1 < nodes.len() && n_tokens <= h2 < nodes.len() && h1 != h2 ==> #[trigger] item_of(nodes, h1) != #[trigger] item_of(nodes, h2)
    }

    /// A parser for `tokens` under the grammar `rules`: one terminal node per
    /// token, each queued for matching.
    pub fn new(rules: Vec<MidRule>, tokens: Vec<Symbol>) -> (s: State)
        requires
            tokens@.len() < usize::MAX,
        ensures
            s.wf(),
            s.rules_view() == rules@,
            s.num_tokens() == tokens@.len(),
            s.nodes_view().len() == tokens@.len(),
            forall|i: int| 0 <= i < tokens@.len() ==> (#[trigger] s.nodes_view()[i]).label == tokens@[i],
            s.queue_view() == Seq::new(tokens@.len(), |i: int| i as usize),
            s.tokens_view() == tokens@,
            s.forest_view() == initial_forest(tokens@),
            forall|i: int|
                0 <= i < tokens@.len() ==> #[trigger] s.nodes_view()[i] == (Node {
                    label: tokens@[i],
                    start: i as usize,
                    stop: (i + 1) as usize,
                    meta: NodeMeta::Terminal { token_idx: i as usize },
                }),
            forall|p: int| 0 <= p < tokens@.len() ==> #[trigger] s.started_view(p) == seq![p as usize],
            s.started_view(tokens@.len() as int).len() == 0,
            s.terminated_view(0).len() == 0,
            forall|p: int| 1 <= p <= tokens@.len() ==> #[trigger] s.terminated_view(p) == seq![(p - 1) as usize],
    {
        let rule_map = make_rule_map(&rules);
        let ghost rules_v = rules@;
        let n_rules = rules.len();
        let n = tokens.len();
        let mut table: Vec<TableEntry> = Vec::new();
        let mut p: usize = 0;
        while p <= n
            invariant
                p <= n + 1,
                n < usize::MAX,
                table@.len() == p,
                forall|q: int| 0 <= q < p ==> (#[trigger] table@[q]).started@.len() == 0 && table@[q].terminated@.len() == 0,
            decreases n + 1 - p,
        {
            table.push(TableEntry::new());
            p = p + 1;
        }
        let mut state = State { rules, rule_map, table, nodes: Vec::new(), node_queue: Vec::new() };
        let mut i: usize = 0;
        while i < n
            invariant
                n == tokens@.len(),
                n < usize::MAX,
                i <= n,
                state.table@.len() == n + 1,
                state.rules@ == rules_v,
                rules_v.len() == n_rules,
                state.rule_map.indexes(state.rules@),
                state.chart_wf(),
                state.nodes@.len() == i,
                forall|h: int| 0 <= h < i ==> {
                    &&& (#[trigger] state.nodes@[h]).label == tokens@[h]
                    &&& state.nodes@[h].start == h
                    &&& state.nodes@[h].stop == h + 1
                    &&& state.nodes@[h].meta == (NodeMeta::Terminal { token_idx: h as usize })
                },
                state.node_queue@ == Seq::new(i as nat, |k: int| k as usize),
                forall|q: int| 0 <= q <= n ==> #[trigger] state.table@[q].started@ == if q < i {
                    seq![q as usize]
                } else {
                    Seq::empty()
                },
                forall|q: int| 0 <= q <= n ==> #[trigger] state.table@[q].terminated@ == if 1 <= q <= i {
                    seq![(q - 1) as usize]
                } else {
                    Seq::empty()
                },
            decreases n - i,
        {
            let ghost before = state;
            let h = state.add_node(Node {
                label: tokens[i],
                start: i,
                stop: i + 1,
                meta: NodeMeta::Terminal { token_idx: i },
            });
            proof {
                assert(state.started_view(i as int) == before.started_view(i as int).push(h));
                assert(state.terminated_view(i + 1) == before.terminated_view(i + 1).push(h));
            }
            let ghost after_add = state;
            state.node_queue.push(h);
            proof {
                assert(state.table == after_add.table);
                assert(before.started_view(i as int) == before.table@[i as int].started@);
                assert(before.table@[i as int].started@ == Seq::<usize>::empty());
                assert forall|q: int| 0 <= q <= n implies #[trigger] state.table@[q].started@ == if q < i + 1 {
                    seq![q as usize]
                } else {
                    Seq::empty()
                } by {
                    assert(state.table@[q].started@ == after_add.started_view(q));
                    assert(after_add.started_view(q) == if q == i {
                        before.started_view(q).push(h)
                    } else {
                        before.started_view(q)
                    });
                    assert(before.table@[q].started@ == before.started_view(q));
                    if q == i {
                        assert(state.table@[q].started@ =~= seq![q as usize]);
                    }
                }
                assert forall|q: int| 0 <= q <= n implies #[trigger] state.table@[q].terminated@ == if 1 <= q <= i + 1 {
                    seq![(q - 1) as usize]
                } else {
                    Seq::empty()
                } by {
                    assert(state.table@[q].terminated@ == after_add.terminated_view(q));
                    assert(after_add.terminated_view(q) == if q == i + 1 {
                        before.terminated_view(q).push(h)
                    } else {
                        before.terminated_view(q)
                    });
                    assert(before.table@[q].terminated@ == before.terminated_view(q));
                    if q == i + 1 {
                        assert(state.table@[q].terminated@ =~= seq![(q - 1) as usize]);
                    }
                }
            }
            i = i + 1;
            assert(state.node_queue@ =~= Seq::new(i as nat, |k: int| k as usize));
        }
        assert forall|h: int| 0 <= h < state.nodes@.len() implies #[trigger] node_wf(state.rules@, state.nodes@, state.num_tokens(), h) by {
            reveal(node_wf);
        }
        proof {
            reveal(State::wf);
            assert(state.tokens_view() =~= tokens@);
            let (k, q) = state.forest_view();
            assert(k =~= Set::<(int, Seq<int>)>::empty());
            assert forall|t: (Symbol, int, int)| q.contains(t) <==> initial_forest(tokens@).1.contains(t) by {
                if initial_forest(tokens@).1.contains(t) {
                    assert(state.node_queue@[t.1] as int == t.1);
                    assert(triple_of(state.nodes@[state.node_queue@[t.1] as int]) == t);
                }
            }
            assert(q =~= initial_forest(tokens@).1);
        }
        state
    }

    /// Copies a list of handles.
    fn copy_handles(v: &Vec<usize>) -> (r: Vec<usize>)
        ensures
            r@ == v@,
    {
        let mut r: Vec<usize> = Vec::new();
        let mut i: usize = 0;
        while i < v.len()
            invariant
                i <= v@.len(),
                r@ == v@.subrange(0, i as int),
            decreases v@.len() - i,
        {
            r.push(v[i]);
            i = i + 1;
            assert(r@ =~= v@.subrange(0, i as int));
        }
        assert(r@ =~= v@);
        r
    }

    /// Records a partial match: as a produced node when every context symbol is
    /// matched, else as a check for the next round.
    fn settle(
        &self,
        Ghost(queue): Ghost<Seq<usize>>,
        rule: usize,
        base: usize,
        right: Vec<usize>,
        left: Vec<usize>,
        leftmost: usize,
        rightmost: usize,
        next: &mut Vec<Check>,
        found: &mut Vec<Node>,
    )
        requires
            partial_wf(self.rules@, self.nodes@, queue, (rule as int, base, right@, left@), leftmost as int, rightmost as int),
        ensures
            old(next)@.is_prefix_of(final(next)@),
            old(found)@.is_prefix_of(final(found)@),
            recorded(self.rules@, final(next)@, final(found)@, (rule as int, base, right@, left@)),
            forall|i: int|
                old(next)@.len() <= i < final(next)@.len() ==> check_wf(self.rules@, self.nodes@, queue, #[trigger] final(next)@[i])
                    && progress(view_of(final(next)@[i])) == progress((rule as int, base, right@, left@)),
            forall|i: int|
                old(found)@.len() <= i < final(found)@.len() ==> found_ok(self.rules@, self.nodes@, queue, #[trigger] final(found)@[i]),
            progress((rule as int, base, right@, left@)) < context_len(self.rules@, rule as int) ==> final(found)@ == old(found)@
                && final(next)@.map_values(|c: Check| view_of(c)) == old(next)@.map_values(|c: Check| view_of(c)).push(
                (rule as int, base, right@, left@),
            ),
            progress((rule as int, base, right@, left@)) >= context_len(self.rules@, rule as int) ==> final(next)@ == old(next)@
                && final(found)@.map_values(|n: Node| summary(n)) == old(found)@.map_values(|n: Node| summary(n)).push(
                found_summary(self.rules@, self.nodes@, (rule as int, base, right@, left@)),
            ),
    {
        let ghost v = (rule as int, base, right@, left@);
        proof {
            reveal(partial_wf);
        }
        let p = self.rules[rule].predecessors.len();
        let s = self.rules[rule].successors.len();
        if left.len() == p && right.len() == s {
            let ghost cs = assemble(base, right@, left@);
            let mut children: Vec<usize> = Vec::new();
            let mut i: usize = p;
            while i > 0
                invariant
                    i <= p,
                    p == left@.len(),
                    s == right@.len(),
                    cs == assemble(base, right@, left@),
                    children@.len() == p - i,
                    forall|k: int| 0 <= k < children@.len() ==> #[trigger] children@[k] == cs[k],
                decreases i,
            {
                i = i - 1;
                children.push(left[i]);
            }
            children.push(base);
            let mut j: usize = 0;
            while j < s
                invariant
                    j <= s,
                    p == left@.len(),
                    s == right@.len(),
                    cs == assemble(base, right@, left@),
                    children@.len() == p + 1 + j,
                    forall|k: int| 0 <= k < children@.len() ==> #[trigger] children@[k] == cs[k],
                decreases s - j,
            {
                children.push(right[j]);
                j = j + 1;
            }
            assert(children@ =~= cs);
            let node = Node {
                label: Symbol::NonTerminal { val: self.rules[rule].result },
                start: leftmost,
                stop: rightmost,
                meta: NodeMeta::NonTerminal { rule, children },
            };
            proof {
                lemma_assembled_match(self.rules@, self.nodes@, queue, v, leftmost as int, rightmost as int);
            }
            found.push(node);
            proof {
                let f = final(found)@;
                assert(f[f.len() - 1] == node);
                assert(old(found)@.is_prefix_of(f));
                assert(summary(node) == found_summary(self.rules@, self.nodes@, v));
                assert(f.map_values(|n: Node| summary(n)) =~= old(found)@.map_values(|n: Node| summary(n)).push(summary(node)));
            }
        } else if right.len() < s {
            let c = Check { rule, stage: CheckStage::Right, pos: right.len(), leftmost, rightmost, base, right_nodes: right, left_nodes: left };
            next.push(c);
            proof {
                let f = final(next)@;
                assert(view_of(f[f.len() - 1]) == v);
                assert(f.map_values(|c: Check| view_of(c)) =~= old(next)@.map_values(|c: Check| view_of(c)).push(v));
            }
        } else {
            let c = Check { rule, stage: CheckStage::Left, pos: left.len(), leftmost, rightmost, base, right_nodes: right, left_nodes: left };
            next.push(c);
            proof {
                let f = final(next)@;
                assert(view_of(f[f.len() - 1]) == v);
                assert(f.map_values(|c: Check| view_of(c)) =~= old(next)@.map_values(|c: Check| view_of(c)).push(v));
            }
        }
    }

    /// Starts a match of every rule anchored at the label of node `h`.
    fn check_node(&self, Ghost(queue): Ghost<Seq<usize>>, h: usize, next: &mut Vec<Check>, found: &mut Vec<Node>)
        requires
            self.wf(),
            h < self.nodes@.len(),
            queue.contains(h),
        ensures
            old(next)@.is_prefix_of(final(next)@),
            old(found)@.is_prefix_of(final(found)@),
            forall|i: int|
                old(next)@.len() <= i < final(next)@.len() ==> check_wf(self.rules@, self.nodes@, queue, #[trigger] final(next)@[i])
                    && progress(view_of(final(next)@[i])) == 0,
            forall|i: int|
                old(found)@.len() <= i < final(found)@.len() ==> found_ok(self.rules@, self.nodes@, queue, #[trigger] final(found)@[i]),
            forall|r: int|
                0 <= r < self.rules@.len() && #[trigger] self.rules@[r].base == self.nodes@[h as int].label ==> recorded(
                    self.rules@,
                    final(next)@,
                    final(found)@,
                    (r, h, Seq::empty(), Seq::empty()),
                ),
            records_exactly(
                self.rules@,
                self.nodes@,
                old(next)@,
                old(found)@,
                final(next)@,
                final(found)@,
                starts_of(rules_with_base(self.rules@, self.nodes@[h as int].label, self.rules@.len() as int), h),
            ),
    {
        proof {
            reveal(State::wf);
        }
        let ghost next0 = next@;
        let ghost found0 = found@;
        let node = &self.nodes[h];
        let label = node.label;
        let start = node.start;
        let stop = node.stop;
        let rule_indices = self.rule_map.rules_for(&label);
        let ghost sel = rules_with_base(self.rules@, label, self.rules@.len() as int);
        assert(rule_indices@ == sel);
        assert(starts_of(sel.subrange(0, 0), h) =~= Seq::empty());
        proof {
            lemma_records_none(self.rules@, self.nodes@, next0, found0);
        }
        let mut k: usize = 0;
        while k < rule_indices.len()
            invariant
                self.rules@.len() <= usize::MAX,
                self.rule_map.indexes(self.rules@),
                h < self.nodes@.len(),
                queue.contains(h),
                label == self.nodes@[h as int].label,
                start == self.nodes@[h as int].start,
                stop == self.nodes@[h as int].stop,
                rule_indices@ == sel,
                sel == rules_with_base(self.rules@, label, self.rules@.len() as int),
                k <= rule_indices@.len(),
                next0.is_prefix_of(next@),
                found0.is_prefix_of(found@),
                forall|i: int|
                    next0.len() <= i < next@.len() ==> check_wf(self.rules@, self.nodes@, queue, #[trigger] next@[i])
                        && progress(view_of(next@[i])) == 0,
                forall|i: int|
                    found0.len() <= i < found@.len() ==> found_ok(self.rules@, self.nodes@, queue, #[trigger] found@[i]),
                forall|k2: int|
                    0 <= k2 < k ==> recorded(self.rules@, next@, found@, (#[trigger] sel[k2] as int, h, Seq::empty(), Seq::empty())),
                records_exactly(self.rules@, self.nodes@, next0, found0, next@, found@, starts_of(sel.subrange(0, k as int), h)),
            decreases rule_indices@.len() - k,
        {
            let r = rule_indices[k];
            proof {
                lemma_rules_with_base(self.rules@, label, self.rules@.len() as int, r);
                assert(sel.contains(r));
            }
            let ghost next1 = next@;
            let ghost found1 = found@;
            let right: Vec<usize> = Vec::new();
            let left: Vec<usize> = Vec::new();
            assert(r < self.rules@.len());
            assert(self.rules@[r as int].base == label);
            proof {
                reveal(partial_wf);
            }
            self.settle(Ghost(queue), r, h, right, left, start, stop, next, found);
            proof {
                assert(starts_of(sel.subrange(0, k + 1), h) =~= starts_of(sel.subrange(0, k as int), h).push(
                    (r as int, h, Seq::<usize>::empty(), Seq::<usize>::empty()),
                ));
                lemma_records_push(
                    self.rules@,
                    self.nodes@,
                    next0,
                    found0,
                    next1,
                    found1,
                    next@,
                    found@,
                    starts_of(sel.subrange(0, k as int), h),
                    (r as int, h, Seq::<usize>::empty(), Seq::<usize>::empty()),
                );
                lemma_checks_appended(self.rules@, self.nodes@, queue, next0, next1, next@, 0);
                lemma_found_appended(self.rules@, self.nodes@, queue, found0, found1, found@);
                assert forall|k2: int| 0 <= k2 < k + 1 implies recorded(self.rules@, next@, found@, (#[trigger] sel[k2] as int, h, Seq::empty(), Seq::empty())) by {
                    if k2 < k {
                        lemma_recorded_grows(self.rules@, next1, found1, next@, found@, (sel[k2] as int, h, Seq::empty(), Seq::empty()));
                    }
                }
            }
            k = k + 1;
        }
        proof {
            assert forall|r: int|
                0 <= r < self.rules@.len() && #[trigger] self.rules@[r].base == self.nodes@[h as int].label implies recorded(
                    self.rules@, next@, found@, (r, h, Seq::empty(), Seq::empty())) by {
                lemma_rules_with_base(self.rules@, label, self.rules@.len() as int, r as usize);
                let k2 = choose|k2: int| 0 <= k2 < sel.len() && sel[k2] == r as usize;
                assert(recorded(self.rules@, next@, found@, (sel[k2] as int, h, Seq::empty(), Seq::empty())));
            }
            assert(sel.subrange(0, sel.len() as int) =~= sel);
        }
    }

    /// Extends a check by every node that starts where it ends and carries the
    /// next expected successor.
    #[verifier::spinoff_prover]
    #[verifier::rlimit(100)]
    fn check_right(&self, Ghost(queue): Ghost<Seq<usize>>, c: &Check, next: &mut Vec<Check>, found: &mut Vec<Node>)
        requires
            self.wf(),
            check_wf(self.rules@, self.nodes@, queue, *c),
            c.stage is Right,
        ensures
            old(next)@.is_prefix_of(final(next)@),
            old(found)@.is_prefix_of(final(found)@),
            forall|i: int|
                old(next)@.len() <= i < final(next)@.len() ==> check_wf(self.rules@, self.nodes@, queue, #[trigger] final(next)@[i])
                    && progress(view_of(final(next)@[i])) == progress(view_of(*c)) + 1,
            forall|i: int|
                old(found)@.len() <= i < final(found)@.len() ==> found_ok(self.rules@, self.nodes@, queue, #[trigger] final(found)@[i]),
            forall|k: int|
                0 <= k < self.started_view(c.rightmost as int).len() && self.nodes@[#[trigger] self.started_view(c.rightmost as int)[k] as int].label
                    == self.rules@[c.rule as int].successors@[c.right_nodes@.len() as int] ==> recorded(
                    self.rules@,
                    final(next)@,
                    final(found)@,
                    extend(self.rules@, view_of(*c), self.started_view(c.rightmost as int)[k]),
                ),
            records_exactly(
                self.rules@,
                self.nodes@,
                old(next)@,
                old(found)@,
                final(next)@,
                final(found)@,
                exts_of(self.rules@, self.nodes@, view_of(*c), self.started_view(c.rightmost as int), self.rules@[c.rule as int].successors@[c.right_nodes@.len() as int]),
            ),
    {
        proof {
            reveal(State::wf);
            reveal(partial_wf);
        }
        let ghost next0 = next@;
        let ghost found0 = found@;
        let expected = self.rules[c.rule].successors[c.pos];
        let entry = &self.table[c.rightmost].started;
        assert(forall|k2: int| 0 <= k2 < entry@.len() ==> #[trigger] entry@[k2] < self.nodes@.len() && self.nodes@[entry@[k2] as int].start == c.rightmost);
        assert(exts_of(self.rules@, self.nodes@, view_of(*c), entry@.subrange(0, 0), expected) =~= Seq::empty());
        proof {
            lemma_records_none(self.rules@, self.nodes@, next0, found0);
        }
        let mut k: usize = 0;
        while k < entry.len()
            invariant
                forall|k2: int| 0 <= k2 < entry@.len() ==> #[trigger] entry@[k2] < self.nodes@.len() && self.nodes@[entry@[k2] as int].start == c.rightmost,
                check_wf(self.rules@, self.nodes@, queue, *c),
                c.stage is Right,
                expected == self.rules@[c.rule as int].successors@[c.right_nodes@.len() as int],
                entry@ == self.started_view(c.rightmost as int),
                k <= entry@.len(),
                next0.is_prefix_of(next@),
                found0.is_prefix_of(found@),
                forall|i: int|
                    next0.len() <= i < next@.len() ==> check_wf(self.rules@, self.nodes@, queue, #[trigger] next@[i])
                        && progress(view_of(next@[i])) == progress(view_of(*c)) + 1,
                forall|i: int|
                    found0.len() <= i < found@.len() ==> found_ok(self.rules@, self.nodes@, queue, #[trigger] found@[i]),
                forall|k2: int|
                    0 <= k2 < k && self.nodes@[#[trigger] entry@[k2] as int].label == expected ==> recorded(
                        self.rules@, next@, found@, extend(self.rules@, view_of(*c), entry@[k2])),
                records_exactly(self.rules@, self.nodes@, next0, found0, next@, found@, exts_of(self.rules@, self.nodes@, view_of(*c), entry@.subrange(0, k as int), expected)),
            decreases entry@.len() - k,
        {
            let x = entry[k];
            let ghost next1 = next@;
            let ghost found1 = found@;
            if self.nodes[x].label == expected {
                let mut right = Self::copy_handles(&c.right_nodes);
                right.push(x);
                let left = Self::copy_handles(&c.left_nodes);
                let stop = self.nodes[x].stop;
                proof {
                    let v2 = (c.rule as int, c.base, right@, left@);
                    assert(v2 == extend(self.rules@, view_of(*c), x));
                    let rn = right@;
                    let old_rn = c.right_nodes@;
                    assert(self.nodes@[x as int].start == c.rightmost);
                    assert(rn[rn.len() - 1] == x);
                    assert forall|i: int| 0 <= i < rn.len() - 1 implies #[trigger] rn[i] == old_rn[i] by {}
                    reveal(partial_wf);
                    assert(partial_wf(self.rules@, self.nodes@, queue, v2, c.leftmost as int, stop as int));
                }
                self.settle(Ghost(queue), c.rule, c.base, right, left, c.leftmost, stop, next, found);
                proof {
                    lemma_checks_appended(self.rules@, self.nodes@, queue, next0, next1, next@, progress(view_of(*c)) + 1);
                    lemma_found_appended(self.rules@, self.nodes@, queue, found0, found1, found@);
                }
            }
            proof {
                assert forall|k2: int|
                    0 <= k2 < k + 1 && self.nodes@[#[trigger] entry@[k2] as int].label == expected implies recorded(
                        self.rules@, next@, found@, extend(self.rules@, view_of(*c), entry@[k2])) by {
                    if k2 < k {
                        lemma_recorded_grows(self.rules@, next1, found1, next@, found@, extend(self.rules@, view_of(*c), entry@[k2]));
                    }
                }
            }
            proof {
                lemma_exts_step(self.rules@, self.nodes@, view_of(*c), entry@, k as int, expected, next0, found0, next1, found1, next@, found@);
            }
            k = k + 1;
        }
        assert(entry@.subrange(0, entry@.len() as int) =~= entry@);
    }

    /// Extends a check by every node that stops where it starts and carries the
    /// next expected predecessor.
    #[verifier::spinoff_prover]
    #[verifier::rlimit(100)]
    fn check_left(&self, Ghost(queue): Ghost<Seq<usize>>, c: &Check, next: &mut Vec<Check>, found: &mut Vec<Node>)
        requires
            self.wf(),
            check_wf(self.rules@, self.nodes@, queue, *c),
            c.stage is Left,
        ensures
            old(next)@.is_prefix_of(final(next)@),
            old(found)@.is_prefix_of(final(found)@),
            forall|i: int|
                old(next)@.len() <= i < final(next)@.len() ==> check_wf(self.rules@, self.nodes@, queue, #[trigger] final(next)@[i])
                    && progress(view_of(final(next)@[i])) == progress(view_of(*c)) + 1,
            forall|i: int|
                old(found)@.len() <= i < final(found)@.len() ==> found_ok(self.rules@, self.nodes@, queue, #[trigger] final(found)@[i]),
            forall|k: int|
                0 <= k < self.terminated_view(c.leftmost as int).len() && self.nodes@[#[trigger] self.terminated_view(c.leftmost as int)[k] as int].label
                    == self.rules@[c.rule as int].predecessors@[c.left_nodes@.len() as int] ==> recorded(
                    self.rules@,
                    final(next)@,
                    final(found)@,
                    extend(self.rules@, view_of(*c), self.terminated_view(c.leftmost as int)[k]),
                ),
            records_exactly(
                self.rules@,
                self.nodes@,
                old(next)@,
                old(found)@,
                final(next)@,
                final(found)@,
                exts_of(self.rules@, self.nodes@, view_of(*c), self.terminated_view(c.leftmost as int), self.rules@[c.rule as int].predecessors@[c.left_nodes@.len() as int]),
            ),
    {
        proof {
            reveal(State::wf);
            reveal(partial_wf);
        }
        let ghost next0 = next@;
        let ghost found0 = found@;
        let expected = self.rules[c.rule].predecessors[c.pos];
        let entry = &self.table[c.leftmost].terminated;
        assert(forall|k2: int| 0 <= k2 < entry@.len() ==> #[trigger] entry@[k2] < self.nodes@.len() && self.nodes@[entry@[k2] as int].stop == c.leftmost);
        assert(exts_of(self.rules@, self.nodes@, view_of(*c), entry@.subrange(0, 0), expected) =~= Seq::empty());
        proof {
            lemma_records_none(self.rules@, self.nodes@, next0, found0);
        }
        let mut k: usize = 0;
        while k < entry.len()
            invariant
                forall|k2: int| 0 <= k2 < entry@.len() ==> #[trigger] entry@[k2] < self.nodes@.len() && self.nodes@[entry@[k2] as int].stop == c.leftmost,
                check_wf(self.rules@, self.nodes@, queue, *c),
                c.stage is Left,
                expected == self.rules@[c.rule as int].predecessors@[c.left_nodes@.len() as int],
                entry@ == self.terminated_view(c.leftmost as int),
                k <= entry@.len(),
                next0.is_prefix_of(next@),
                found0.is_prefix_of(found@),
                forall|i: int|
                    next0.len() <= i < next@.len() ==> check_wf(self.rules@, self.nodes@, queue, #[trigger] next@[i])
                        && progress(view_of(next@[i])) == progress(view_of(*c)) + 1,
                forall|i: int|
                    found0.len() <= i < found@.len() ==> found_ok(self.rules@, self.nodes@, queue, #[trigger] found@[i]),
                forall|k2: int|
                    0 <= k2 < k && self.nodes@[#[trigger] entry@[k2] as int].label == expected ==> recorded(
                        self.rules@, next@, found@, extend(self.rules@, view_of(*c), entry@[k2])),
                records_exactly(self.rules@, self.nodes@, next0, found0, next@, found@, exts_of(self.rules@, self.nodes@, view_of(*c), entry@.subrange(0, k as int), expected)),
            decreases entry@.len() - k,
        {
            let x = entry[k];
            let ghost next1 = next@;
            let ghost found1 = found@;
            if self.nodes[x].label == expected {
                let right = Self::copy_handles(&c.right_nodes);
                let mut left = Self::copy_handles(&c.left_nodes);
                left.push(x);
                let start = self.nodes[x].start;
                proof {
                    let v2 = (c.rule as int, c.base, right@, left@);
                    assert(v2 == extend(self.rules@, view_of(*c), x));
                    let ln = left@;
                    let old_ln = c.left_nodes@;
                    assert(self.nodes@[x as int].stop == c.leftmost);
                    assert(ln[ln.len() - 1] == x);
                    assert forall|i: int| 0 <= i < ln.len() - 1 implies #[trigger] ln[i] == old_ln[i] by {}
                    reveal(partial_wf);
                    assert(partial_wf(self.rules@, self.nodes@, queue, v2, start as int, c.rightmost as int));
                }
                self.settle(Ghost(queue), c.rule, c.base, right, left, start, c.rightmost, next, found);
                proof {
                    lemma_checks_appended(self.rules@, self.nodes@, queue, next0, next1, next@, progress(view_of(*c)) + 1);
                    lemma_found_appended(self.rules@, self.nodes@, queue, found0, found1, found@);
                }
            }
            proof {
                assert forall|k2: int|
                    0 <= k2 < k + 1 && self.nodes@[#[trigger] entry@[k2] as int].label == expected implies recorded(
                        self.rules@, next@, found@, extend(self.rules@, view_of(*c), entry@[k2])) by {
                    if k2 < k {
                        lemma_recorded_grows(self.rules@, next1, found1, next@, found@, extend(self.rules@, view_of(*c), entry@[k2]));
                    }
                }
            }
            proof {
                lemma_exts_step(self.rules@, self.nodes@, view_of(*c), entry@, k as int, expected, next0, found0, next1, found1, next@, found@);
            }
            k = k + 1;
        }
        assert(entry@.subrange(0, entry@.len() as int) =~= entry@);
    }

    /// Whether the children lists `a` and `b` stop at the same positions, child by child.
    fn same_stops(&self, a: &Vec<usize>, b: &Vec<usize>) -> (r: bool)
        requires
            forall|j: int| 0 <= j < a@.len() ==> #[trigger] a@[j] < self.nodes@.len(),
            forall|j: int| 0 <= j < b@.len() ==> #[trigger] b@[j] < self.nodes@.len(),
        ensures
            r == (a@.len() == b@.len() && forall|j: int|
                0 <= j < a@.len() ==> self.nodes@[#[trigger] a@[j] as int].stop == self.nodes@[b@[j] as int].stop),
    {
        if a.len() != b.len() {
            return false;
        }
        let mut j: usize = 0;
        while j < a.len()
            invariant
                a@.len() == b@.len(),
                j <= a@.len(),
                forall|i: int| 0 <= i < a@.len() ==> #[trigger] a@[i] < self.nodes@.len(),
                forall|i: int| 0 <= i < b@.len() ==> #[trigger] b@[i] < self.nodes@.len(),
                forall|i: int| 0 <= i < j ==> self.nodes@[#[trigger] a@[i] as int].stop == self.nodes@[b@[i] as int].stop,
            decreases a@.len() - j,
        {
            if self.nodes[a[j]].stop != self.nodes[b[j]].stop {
                return false;
            }
            j = j + 1;
        }
        true
    }

    /// Whether the arena already holds a non-terminal node with the same
    /// identity as the produced node `nd`.
    fn has_item(&self, nd: &Node) -> (r: bool)
        requires
            self.wf(),
            nd.meta is NonTerminal,
            children_of(*nd).len() >= 1,
            forall|j: int| 0 <= j < children_of(*nd).len() ==> #[trigger] children_of(*nd)[j] < self.nodes@.len(),
            nd.start == self.nodes@[children_of(*nd)[0] as int].start,
        ensures
            r == exists|h: int|
                self.num_tokens() <= h < self.nodes@.len() && #[trigger] item_of(self.nodes@, h) == match_item(
                    self.nodes@,
                    rule_of(*nd),
                    children_of(*nd),
                ),
    {
        proof {
            reveal(State::wf);
        }
        let ghost target = match_item(self.nodes@, rule_of(*nd), children_of(*nd));
        let (rule, children) = match &nd.meta {
            NodeMeta::NonTerminal { rule, children } => (*rule, children),
            NodeMeta::Terminal { .. } => {
                return false;
            }
        };
        let n_tokens = self.table.len() - 1;
        let entry = &self.table[nd.start].started;
        let mut k: usize = 0;
        while k < entry.len()
            invariant
                n_tokens == self.num_tokens(),
                self.num_tokens() <= self.nodes@.len(),
                entry@ == self.started_view(nd.start as int),
                forall|k2: int| 0 <= k2 < entry@.len() ==> #[trigger] entry@[k2] < self.nodes@.len() && self.nodes@[entry@[k2] as int].start == nd.start,
                forall|h: int| self.num_tokens() <= h < self.nodes@.len() ==> #[trigger] node_wf(self.rules@, self.nodes@, self.num_tokens(), h),
                children@ == children_of(*nd),
                children@.len() >= 1,
                self.nodes@.len() <= usize::MAX,
                rule as int == rule_of(*nd),
                forall|j: int| 0 <= j < children@.len() ==> #[trigger] children@[j] < self.nodes@.len(),
                target == match_item(self.nodes@, rule_of(*nd), children_of(*nd)),
                nd.start == self.nodes@[children@[0] as int].start,
                k <= entry@.len(),
                forall|k2: int| 0 <= k2 < k ==> item_of(self.nodes@, #[trigger] entry@[k2] as int) != target || entry@[k2] < n_tokens,
            decreases entry@.len() - k,
        {
            let g = entry[k];
            if g >= n_tokens {
                proof {
                    assert(node_wf(self.rules@, self.nodes@, self.num_tokens(), g as int));
                }
                match &self.nodes[g].meta {
                    NodeMeta::NonTerminal { rule: r2, children: c2 } => {
                        proof {
                            reveal(node_wf);
                            reveal(is_match);
                            assert(is_match(self.rules@, self.nodes@, *r2 as int, c2@));
                        }
                        if *r2 == rule && self.same_stops(c2, children) {
                            proof {
                                assert(item_of(self.nodes@, g as int).1 =~= target.1);
                            }
                            return true;
                        }
                        proof {
                            if item_of(self.nodes@, g as int) == target {
                                let a = item_of(self.nodes@, g as int).1;
                                assert(a.len() == c2@.len() + 1);
                                assert forall|j: int| 0 <= j < c2@.len() implies self.nodes@[#[trigger] c2@[j] as int].stop == self.nodes@[children@[j] as int].stop by {
                                    assert(a[j + 1] == target.1[j + 1]);
                                }
                            }
                        }
                    },
                    NodeMeta::Terminal { .. } => {},
                }
            }
            k = k + 1;
        }
        proof {
            assert forall|h: int| self.num_tokens() <= h < self.nodes@.len() implies #[trigger] item_of(self.nodes@, h) != target by {
                if item_of(self.nodes@, h) == target {
                    assert(item_of(self.nodes@, h).1[0] == target.1[0]);
                    reveal(State::wf);
                    assert(self.table@[self.nodes@[h].start as int].started@.contains(h as usize));
                    let k2 = choose|k2: int| 0 <= k2 < entry@.len() && entry@[k2] == h as usize;
                    assert(item_of(self.nodes@, entry@[k2] as int) != target || entry@[k2] < n_tokens);
                }
            }
        }
        false
    }

    /// Whether no node waits to be matched: the parse has reached its fixpoint.
    pub fn done(&self) -> (r: bool)
        ensures
            r == (self.queue_view().len() == 0),
    {
        self.node_queue.len() == 0
    }

    /// Runs cycles until no node waits to be matched. This halts on every
    /// grammar and input: a node is only added when its identity is new, and
    /// there are finitely many identities.
    pub fn run_till_done(&mut self)
        requires
            old(self).wf(),
        ensures
            final(self).wf(),
            final(self).queue_view().len() == 0,
            final(self).rules_view() == old(self).rules_view(),
            final(self).num_tokens() == old(self).num_tokens(),
            old(self).nodes_view().is_prefix_of(final(self).nodes_view()),
            final(self).tokens_view() == old(self).tokens_view(),
            final(self).forest_view().1.is_empty(),
            exists|k: nat| final(self).forest_view() == forest_iter(old(self).rules_view(), old(self).tokens_view(), old(self).forest_view(), k),
    {
        let ghost nodes0 = self.nodes_view();
        let ghost tokens0 = self.tokens_view();
        let ghost v0 = self.forest_view();
        let ghost mut k: nat = 0;
        let ghost rules0 = self.rules_view();
        let ghost n_tokens = self.num_tokens();
        proof {
            State::lemma_size_bound(*self);
        }
        while !self.done()
            invariant
                self.wf(),
                self.rules_view() == rules0,
                self.num_tokens() == n_tokens,
                nodes0.is_prefix_of(self.nodes_view()),
                self.nodes_view().len() <= node_bound(rules0, n_tokens),
                self.tokens_view() == tokens0,
                self.forest_view() == forest_iter(rules0, tokens0, v0, k),
            decreases node_bound(rules0, n_tokens) - self.nodes_view().len(), self.queue_view().len(),
        {
            let ghost before = self.nodes_view();
            self.run_cycle();
            proof {
                k = k + 1;
                State::lemma_size_bound(*self);
                assert(nodes0.is_prefix_of(self.nodes_view())) by {
                    assert forall|i: int| 0 <= i < nodes0.len() implies #[trigger] self.nodes_view()[i] == nodes0[i] by {
                        assert(before[i] == nodes0[i]);
                    }
                }
            }
        }
        proof {
            assert(self.forest_view().1 =~= Set::<(Symbol, int, int)>::empty());
        }
    }

    /// The node at handle `h`.
    pub fn get_node(&self, h: usize) -> (r: &Node)
        requires
            h < self.nodes_view().len(),
        ensures
            *r == self.nodes_view()[h as int],
    {
        &self.nodes[h]
    }

    /// The node at handle `h`, or `None` when no node has that handle.
    pub fn node(&self, h: usize) -> (r: Option<&Node>)
        ensures
            r == (if h < self.nodes_view().len() {
                Some(&self.nodes_view()[h as int])
            } else {
                None
            }),
    {
        if h < self.nodes.len() {
            Some(&self.nodes[h])
        } else {
            None
        }
    }

    /// The rule with handle `r`.
    pub fn get_rule(&self, r: usize) -> (res: &MidRule)
        requires
            r < self.rules_view().len(),
        ensures
            *res == self.rules_view()[r as int],
    {
        &self.rules[r]
    }

    /// The chart entry at position `p`.
    pub fn get_table_entry(&self, p: usize) -> (r: &TableEntry)
        requires
            self.wf(),
            p <= self.num_tokens(),
        ensures
            r.started@ == self.started_view(p as int),
            r.terminated@ == self.terminated_view(p as int),
    {
        proof {
            reveal(State::wf);
        }
        &self.table[p]
    }

    /// The number of nodes in the arena.
    pub fn node_count(&self) -> (r: usize)
        ensures
            r == self.nodes_view().len(),
    {
        self.nodes.len()
    }

    /// The number of input tokens.
    pub fn token_count(&self) -> (r: usize)
        requires
            self.wf(),
        ensures
            r == self.num_tokens(),
    {
        proof {
            reveal(State::wf);
        }
        self.table.len() - 1
    }

    fn scan_covering(&self, label: Option<Symbol>, start: usize, stop: usize) -> (r: Vec<usize>)
        ensures
            r@ == covering(self.nodes@, label, start as int, stop as int, self.nodes@.len() as int),
    {
        let mut r: Vec<usize> = Vec::new();
        let mut h: usize = 0;
        while h < self.nodes.len()
            invariant
                h <= self.nodes@.len(),
                r@ == covering(self.nodes@, label, start as int, stop as int, h as int),
            decreases self.nodes@.len() - h,
        {
            let n = &self.nodes[h];
            let fits = match label {
                Some(l) => n.label == l,
                None => true,
            };
            if n.start == start && n.stop == stop && fits {
                r.push(h);
            }
            h = h + 1;
        }
        r
    }

    /// The handles, in increasing order, of all nodes that span `[start, stop)`.
    pub fn nodes_covering(&self, start: usize, stop: usize) -> (r: Vec<usize>)
        ensures
            r@ == covering(self.nodes_view(), None, start as int, stop as int, self.nodes_view().len() as int),
    {
        self.scan_covering(None, start, stop)
    }

    /// The handles, in increasing order, of all nodes labelled `label` that
    /// span `[start, stop)`.
    pub fn nodes_with_label_covering(&self, label: Symbol, start: usize, stop: usize) -> (r: Vec<usize>)
        ensures
            r@ == covering(self.nodes_view(), Some(label), start as int, stop as int, self.nodes_view().len() as int),
    {
        self.scan_covering(Some(label), start, stop)
    }

    /// The derivation tree of the node at handle `h`, which must exist.
    fn tree_at(&self, h: usize) -> (t: TreeNode)
        requires
            self.wf(),
            h < self.nodes@.len(),
        ensures
            represents(self.rules@, self.nodes@, t, h as int),
        decreases h,
    {
        proof {
            reveal(State::wf);
            assert(node_wf(self.rules@, self.nodes@, self.num_tokens(), h as int));
            reveal(node_wf);
            reveal(is_match);
        }
        match &self.nodes[h].meta {
            NodeMeta::Terminal { token_idx } => TreeNode::Terminal { index: *token_idx },
            NodeMeta::NonTerminal { rule, children } => {
                let mut subtrees: Vec<TreeNode> = Vec::new();
                let mut j: usize = 0;
                while j < children.len()
                    invariant
                        self.wf(),
                        h < self.nodes@.len(),
                        self.nodes@[h as int].meta == (NodeMeta::NonTerminal { rule: *rule, children: *children }),
                        forall|i: int| 0 <= i < children@.len() ==> #[trigger] children@[i] < h,
                        j <= children@.len(),
                        subtrees@.len() == j,
                        forall|i: int| 0 <= i < j ==> represents(self.rules@, self.nodes@, #[trigger] subtrees@[i], children@[i] as int),
                    decreases children@.len() - j,
                {
                    let t = self.tree_at(children[j]);
                    subtrees.push(t);
                    j = j + 1;
                }
                let r = &self.rules[*rule];
                TreeNode::NonTerminal { rule: r.result, variant: r.variant, children: subtrees }
            },
        }
    }

    /// The derivation tree of the node at handle `h`, or `None` when no node
    /// has that handle.
    pub fn build_tree(&self, h: usize) -> (r: Option<TreeNode>)
        requires
            self.wf(),
        ensures
            r is Some <==> h < self.nodes_view().len(),
            r matches Some(t) ==> represents(self.rules_view(), self.nodes_view(), t, h as int),
    {
        if h < self.nodes.len() {
            Some(self.tree_at(h))
        } else {
            None
        }
    }

    /// The derivation trees of all nodes labelled `label` that span the whole
    /// input, in the order of their handles. Nodes are distinct up to their
    /// identity (`item_of`: rule, start and child stops), so derivations that
    /// differ only in which same-span child they use appear once.
    pub fn get_parsed_trees(&self, label: Symbol) -> (r: Vec<TreeNode>)
        requires
            self.wf(),
        ensures
            r@.len() == covering(self.nodes_view(), Some(label), 0, self.num_tokens(), self.nodes_view().len() as int).len(),
            forall|i: int|
                0 <= i < r@.len() ==> represents(
                    self.rules_view(),
                    self.nodes_view(),
                    #[trigger] r@[i],
                    covering(self.nodes_view(), Some(label), 0, self.num_tokens(), self.nodes_view().len() as int)[i] as int,
                ),
    {
        let n_tokens = self.token_count();
        let hs = self.nodes_with_label_covering(label, 0, n_tokens);
        proof {
            reveal(State::wf);
            lemma_covering(self.nodes@, Some(label), 0, self.num_tokens(), self.nodes@.len() as int, 0);
        }
        let mut r: Vec<TreeNode> = Vec::new();
        let mut i: usize = 0;
        while i < hs.len()
            invariant
                self.wf(),
                hs@ == covering(self.nodes@, Some(label), 0, self.num_tokens(), self.nodes@.len() as int),
                forall|k: int| 0 <= k < hs@.len() ==> #[trigger] hs@[k] < self.nodes@.len(),
                i <= hs@.len(),
                r@.len() == i,
                forall|k: int| 0 <= k < i ==> represents(self.rules@, self.nodes@, #[trigger] r@[k], hs@[k] as int),
            decreases hs@.len() - i,
        {
            let t = self.tree_at(hs[i]);
            r.push(t);
            i = i + 1;
        }
        r
    }

    /// Runs cycles until no node waits to be matched or `max_cycles` cycles
    /// have run, whichever comes first, and tells whether the fixpoint was
    /// reached. A partial run leaves a valid forest whose nodes are all
    /// complete derivations; running on from it reaches the same fixpoint.
    pub fn run_bounded(&mut self, max_cycles: usize) -> (r: bool)
        requires
            old(self).wf(),
        ensures
            final(self).wf(),
            r == (final(self).queue_view().len() == 0),
            final(self).rules_view() == old(self).rules_view(),
            final(self).num_tokens() == old(self).num_tokens(),
            old(self).nodes_view().is_prefix_of(final(self).nodes_view()),
            final(self).tokens_view() == old(self).tokens_view(),
            exists|k: nat|
                k <= max_cycles && final(self).forest_view() == forest_iter(old(self).rules_view(), old(self).tokens_view(), old(self).forest_view(), k)
                    && (k < max_cycles ==> r),
    {
        let ghost nodes0 = self.nodes_view();
        let ghost rules0 = self.rules_view();
        let ghost tokens0 = self.tokens_view();
        let ghost v0 = self.forest_view();
        let mut i: usize = 0;
        while i < max_cycles && !self.done()
            invariant
                self.wf(),
                i <= max_cycles,
                self.rules_view() == rules0,
                self.num_tokens() == old(self).num_tokens(),
                nodes0.is_prefix_of(self.nodes_view()),
                self.tokens_view() == tokens0,
                self.forest_view() == forest_iter(rules0, tokens0, v0, i as nat),
            decreases max_cycles - i,
        {
            let ghost before = self.nodes_view();
            self.run_cycle();
            i = i + 1;
            proof {
                assert(nodes0.is_prefix_of(self.nodes_view())) by {
                    assert forall|j: int| 0 <= j < nodes0.len() implies #[trigger] self.nodes_view()[j] == nodes0[j] by {
                        assert(before[j] == nodes0[j]);
                    }
                }
            }
        }
        self.done()
    }

    /// Runs one cycle: matches every queued node against the rules anchored at
    /// its label, extending each partial match round by round through the
    /// chart as it stood when the cycle began, then adds each produced node
    /// whose identity is new to the arena and queues it for the next cycle.
    ///
    /// A node's identity (`item_of`) is its rule, its start and the stop of
    /// each child: two derivations that differ only in which of several
    /// nodes with the same label and span they use as a child give one node,
    /// the one produced first. Keying on the child handles instead would not
    /// terminate on a grammar with a cycle of unit rules (`S <- S`), as each
    /// new node would be the child of another.
    #[verifier::spinoff_prover]
    #[verifier::rlimit(100)]
    pub fn run_cycle(&mut self)
        requires
            old(self).wf(),
        ensures
            final(self).wf(),
            final(self).rules_view() == old(self).rules_view(),
            final(self).num_tokens() == old(self).num_tokens(),
            old(self).nodes_view().is_prefix_of(final(self).nodes_view()),
            final(self).queue_view() == Seq::new(
                (final(self).nodes_view().len() - old(self).nodes_view().len()) as nat,
                |i: int| (old(self).nodes_view().len() + i) as usize,
            ),
            forall|h: int|
                old(self).nodes_view().len() <= h < final(self).nodes_view().len() ==> anchored_match(
                    old(self).rules_view(),
                    old(self).nodes_view(),
                    old(self).queue_view(),
                    rule_of(#[trigger] final(self).nodes_view()[h]),
                    children_of(final(self).nodes_view()[h]),
                ),
            forall|r: int, cs: Seq<usize>|
                #[trigger] anchored_match(old(self).rules_view(), old(self).nodes_view(), old(self).queue_view(), r, cs) ==> exists|h: int|
                    final(self).num_tokens() <= h < final(self).nodes_view().len() && #[trigger] item_of(final(self).nodes_view(), h)
                        == match_item(old(self).nodes_view(), r, cs),
            final(self).tokens_view() == old(self).tokens_view(),
            final(self).forest_view() == forest_step(old(self).rules_view(), old(self).tokens_view(), old(self).forest_view()),
            forall|p: int|
                0 <= p <= old(self).num_tokens() ==> grows(
                    old(self).started_view(p),
                    #[trigger] final(self).started_view(p),
                    old(self).nodes_view().len() as int,
                    final(self).nodes_view().len() as int,
                ) && grows(
                    old(self).terminated_view(p),
                    final(self).terminated_view(p),
                    old(self).nodes_view().len() as int,
                    final(self).nodes_view().len() as int,
                ),
            final(self).nodes_view().len() == old(self).nodes_view().len() ==> forall|p: int|
                0 <= p <= old(self).num_tokens() ==> #[trigger] final(self).started_view(p) == old(self).started_view(p)
                    && final(self).terminated_view(p) == old(self).terminated_view(p),
    {
        let ghost s0 = *self;
        let queue = self.node_queue.split_off(0);
        let ghost q = queue@;
        let ghost rules = self.rules@;
        let ghost nodes0 = self.nodes@;
        proof {
            reveal(State::wf);
            assert(q == old(self).node_queue@);
        }
        let mut checks: Vec<Check> = Vec::new();
        let mut found: Vec<Node> = Vec::new();
        let mut i: usize = 0;
        while i < queue.len()
            invariant
                self.wf(),
                self.rules@ == rules,
                self.nodes@ == nodes0,
                queue@ == q,
                forall|k: int| 0 <= k < q.len() ==> #[trigger] q[k] < nodes0.len(),
                i <= q.len(),
                forall|k: int| 0 <= k < checks@.len() ==> check_wf(rules, nodes0, q, #[trigger] checks@[k]) && progress(view_of(checks@[k])) == 0,
                forall|k: int| 0 <= k < found@.len() ==> found_ok(rules, nodes0, q, #[trigger] found@[k]),
                forall|k: int, r: int|
                    0 <= k < i && 0 <= r < rules.len() && #[trigger] rules[r].base == nodes0[#[trigger] q[k] as int].label ==> recorded(
                        rules, checks@, found@, (r, q[k], Seq::empty(), Seq::empty())),
            decreases q.len() - i,
        {
            let ghost checks1 = checks@;
            let ghost found1 = found@;
            proof {
                assert(q.contains(q[i as int]));
            }
            self.check_node(Ghost(q), queue[i], &mut checks, &mut found);
            proof {
                lemma_checks_appended(rules, nodes0, q, Seq::empty(), checks1, checks@, 0);
                lemma_found_appended(rules, nodes0, q, Seq::empty(), found1, found@);
                assert forall|k: int, r: int|
                    0 <= k < i + 1 && 0 <= r < rules.len() && #[trigger] rules[r].base == nodes0[#[trigger] q[k] as int].label implies recorded(
                        rules, checks@, found@, (r, q[k], Seq::empty(), Seq::empty())) by {
                    if k < i {
                        lemma_recorded_grows(rules, checks1, found1, checks@, found@, (r, q[k], Seq::empty(), Seq::empty()));
                    }
                }
            }
            i = i + 1;
        }
        let ghost max_ctx = max_context(rules, rules.len() as int);
        let ghost mut t: int = 0;
        proof {
            assert forall|r: int, cs: Seq<usize>| #[trigger] anchored_match(rules, nodes0, q, r, cs) implies
                (context_len(rules, r) > 0 ==> exists|k: int| 0 <= k < checks@.len() && view_of(#[trigger] checks@[k]) == partial(rules, r, cs, 0))
                && (context_len(rules, r) <= 0 ==> exists|k: int| 0 <= k < found@.len() && rule_of(#[trigger] found@[k]) == r && children_of(found@[k]) == cs) by {
                reveal(is_match);
                let p = rules[r].predecessors@.len() as int;
                let kq = choose|kq: int| 0 <= kq < q.len() && q[kq] == cs[p];
                assert(rules[r].base == nodes0[q[kq] as int].label);
                assert(recorded(rules, checks@, found@, (r, q[kq], Seq::empty(), Seq::empty())));
                assert(partial(rules, r, cs, 0).2 =~= Seq::<usize>::empty());
                if context_len(rules, r) <= 0 {
                    assert(assemble(cs[p], Seq::empty(), Seq::empty()) =~= cs);
                }
            }
        }
        while checks.len() > 0
            invariant
                self.wf(),
                self.rules@ == rules,
                self.nodes@ == nodes0,
                max_ctx == max_context(rules, rules.len() as int),
                0 <= t,
                forall|k: int| 0 <= k < checks@.len() ==> check_wf(rules, nodes0, q, #[trigger] checks@[k]) && progress(view_of(checks@[k])) == t,
                forall|k: int| 0 <= k < found@.len() ==> found_ok(rules, nodes0, q, #[trigger] found@[k]),
                forall|r: int, cs: Seq<usize>| #[trigger] anchored_match(rules, nodes0, q, r, cs) ==>
                    (context_len(rules, r) > t ==> exists|k: int| 0 <= k < checks@.len() && view_of(#[trigger] checks@[k]) == partial(rules, r, cs, t))
                    && (context_len(rules, r) <= t ==> exists|k: int| 0 <= k < found@.len() && rule_of(#[trigger] found@[k]) == r && children_of(found@[k]) == cs),
            decreases max_ctx - t,
        {
            proof {
                reveal(partial_wf);
                let c0 = checks@[0];
                lemma_max_context(rules, rules.len() as int, c0.rule as int);
            }
            let mut next: Vec<Check> = Vec::new();
            let ghost found_t = found@;
            let mut j: usize = 0;
            while j < checks.len()
                invariant
                    self.wf(),
                    self.rules@ == rules,
                    self.nodes@ == nodes0,
                    j <= checks@.len(),
                    found_t.is_prefix_of(found@),
                    forall|k: int| 0 <= k < checks@.len() ==> check_wf(rules, nodes0, q, #[trigger] checks@[k]) && progress(view_of(checks@[k])) == t,
                    forall|k: int| 0 <= k < next@.len() ==> check_wf(rules, nodes0, q, #[trigger] next@[k]) && progress(view_of(next@[k])) == t + 1,
                    forall|k: int| 0 <= k < found@.len() ==> found_ok(rules, nodes0, q, #[trigger] found@[k]),
                    forall|r: int, cs: Seq<usize>, k: int|
                        #[trigger] anchored_match(rules, nodes0, q, r, cs) && context_len(rules, r) > t && 0 <= k < j
                            && view_of(#[trigger] checks@[k]) == partial(rules, r, cs, t) ==> recorded(rules, next@, found@, partial(rules, r, cs, t + 1)),
                decreases checks@.len() - j,
            {
                let ghost next1 = next@;
                let ghost found1 = found@;
                let c = &checks[j];
                match c.stage {
                    CheckStage::Right => self.check_right(Ghost(q), c, &mut next, &mut found),
                    CheckStage::Left => self.check_left(Ghost(q), c, &mut next, &mut found),
                }
                proof {
                    lemma_checks_appended(rules, nodes0, q, Seq::empty(), next1, next@, t + 1);
                    lemma_found_appended(rules, nodes0, q, Seq::empty(), found1, found@);
                    assert(found_t.is_prefix_of(found@)) by {
                        assert forall|k: int| 0 <= k < found_t.len() implies #[trigger] found@[k] == found_t[k] by {
                            assert(found1[k] == found_t[k]);
                        }
                    }
                    assert forall|r: int, cs: Seq<usize>, k: int|
                        #[trigger] anchored_match(rules, nodes0, q, r, cs) && context_len(rules, r) > t && 0 <= k < j + 1
                            && view_of(#[trigger] checks@[k]) == partial(rules, r, cs, t) implies recorded(rules, next@, found@, partial(rules, r, cs, t + 1)) by {
                        if k < j {
                            lemma_recorded_grows(rules, next1, found1, next@, found@, partial(rules, r, cs, t + 1));
                        } else {
                            lemma_partial_step(rules, nodes0, q, r, cs, t);
                            lemma_check_on_match(rules, nodes0, q, r, cs, t, *c);
                            let x = next_of(rules, r, cs, t);
                            reveal(State::wf);
                            if c.stage is Right {
                                assert(self.table@[nodes0[x as int].start as int].started@.contains(x));
                                let kx = choose|kx: int| 0 <= kx < self.started_view(c.rightmost as int).len() && self.started_view(c.rightmost as int)[kx] == x;
                                assert(self.nodes@[self.started_view(c.rightmost as int)[kx] as int].label == self.rules@[c.rule as int].successors@[c.right_nodes@.len() as int]);
                            } else {
                                assert(self.table@[nodes0[x as int].stop as int].terminated@.contains(x));
                                let kx = choose|kx: int| 0 <= kx < self.terminated_view(c.leftmost as int).len() && self.terminated_view(c.leftmost as int)[kx] == x;
                                assert(self.nodes@[self.terminated_view(c.leftmost as int)[kx] as int].label == self.rules@[c.rule as int].predecessors@[c.left_nodes@.len() as int]);
                            }
                        }
                    }
                }
                j = j + 1;
            }
            proof {
                assert forall|r: int, cs: Seq<usize>| #[trigger] anchored_match(rules, nodes0, q, r, cs) implies
                    (context_len(rules, r) > t + 1 ==> exists|k: int| 0 <= k < next@.len() && view_of(#[trigger] next@[k]) == partial(rules, r, cs, t + 1))
                    && (context_len(rules, r) <= t + 1 ==> exists|k: int| 0 <= k < found@.len() && rule_of(#[trigger] found@[k]) == r && children_of(found@[k]) == cs) by {
                    if context_len(rules, r) > t {
                        let k = choose|k: int| 0 <= k < checks@.len() && view_of(#[trigger] checks@[k]) == partial(rules, r, cs, t);
                        assert(recorded(rules, next@, found@, partial(rules, r, cs, t + 1)));
                        lemma_partial_step(rules, nodes0, q, r, cs, t);
                    } else {
                        let k = choose|k: int| 0 <= k < found_t.len() && rule_of(#[trigger] found_t[k]) == r && children_of(found_t[k]) == cs;
                        assert(found@[k] == found_t[k]);
                    }
                }
            }
            checks = next;
            proof {
                t = t + 1;
            }
        }
        let ghost s1 = *self;
        self.add_found(found, Ghost(q), Ghost(nodes0));
        proof {
            State::lemma_cycle_forest(s0, *self);
            assert(s1.table == s0.table);
            assert forall|p: int| 0 <= p <= s0.num_tokens() implies s1.started_view(p) == s0.started_view(p)
                && #[trigger] s1.terminated_view(p) == s0.terminated_view(p) by {}
            if self.nodes_view().len() == s0.nodes_view().len() {
                assert forall|p: int| 0 <= p <= s0.num_tokens() implies #[trigger] self.started_view(p) == s0.started_view(p)
                    && self.terminated_view(p) == s0.terminated_view(p) by {
                    assert(s1.started_view(p) == s0.started_view(p));
                    assert(s1.terminated_view(p) == s0.terminated_view(p));
                    lemma_grows_none(s0.started_view(p), self.started_view(p), s0.nodes_view().len() as int);
                    lemma_grows_none(s0.terminated_view(p), self.terminated_view(p), s0.nodes_view().len() as int);
                }
            }
        }
    }

    /// Adds to the arena each produced node whose identity is not there yet,
    /// and queues it.
    #[verifier::spinoff_prover]
    #[verifier::rlimit(100)]
    fn add_found(&mut self, found: Vec<Node>, Ghost(q): Ghost<Seq<usize>>, Ghost(nodes0): Ghost<Seq<Node>>)
        requires
            old(self).wf(),
            old(self).nodes@ == nodes0,
            old(self).node_queue@.len() == 0,
            forall|k: int| 0 <= k < found@.len() ==> found_ok(old(self).rules@, nodes0, q, #[trigger] found@[k]),
            forall|r: int, cs: Seq<usize>|
                #[trigger] anchored_match(old(self).rules@, nodes0, q, r, cs) ==> exists|k: int|
                    0 <= k < found@.len() && rule_of(#[trigger] found@[k]) == r && children_of(found@[k]) == cs,
        ensures
            final(self).wf(),
            final(self).rules_view() == old(self).rules_view(),
            final(self).num_tokens() == old(self).num_tokens(),
            nodes0.is_prefix_of(final(self).nodes_view()),
            final(self).queue_view() == Seq::new(
                (final(self).nodes_view().len() - nodes0.len()) as nat,
                |i: int| (nodes0.len() + i) as usize,
            ),
            forall|h: int|
                nodes0.len() <= h < final(self).nodes_view().len() ==> anchored_match(
                    old(self).rules_view(),
                    nodes0,
                    q,
                    rule_of(#[trigger] final(self).nodes_view()[h]),
                    children_of(final(self).nodes_view()[h]),
                ),
            forall|r: int, cs: Seq<usize>|
                #[trigger] anchored_match(old(self).rules_view(), nodes0, q, r, cs) ==> exists|h: int|
                    final(self).num_tokens() <= h < final(self).nodes_view().len() && #[trigger] item_of(final(self).nodes_view(), h)
                        == match_item(nodes0, r, cs),
            forall|p: int|
                0 <= p <= old(self).num_tokens() ==> grows(
                    old(self).started_view(p),
                    #[trigger] final(self).started_view(p),
                    nodes0.len() as int,
                    final(self).nodes_view().len() as int,
                ) && grows(old(self).terminated_view(p), final(self).terminated_view(p), nodes0.len() as int, final(self).nodes_view().len() as int),
    {
        proof {
            reveal(State::wf);
        }
        let ghost s_start = *self;
        assert(chart_grown(s_start.table@, self.table@, nodes0.len() as int, self.nodes@.len() as int)) by {
            reveal(chart_grown);
            assert forall|p: int| 0 <= p < s_start.table@.len() implies #[trigger] s_start.table@[p].started@.is_prefix_of(
                self.table@[p].started@,
            ) && s_start.table@[p].terminated@.is_prefix_of(self.table@[p].terminated@) by {
                assert(self.table@[p].started@.subrange(0, self.table@[p].started@.len() as int) =~= self.table@[p].started@);
                assert(self.table@[p].terminated@.subrange(0, self.table@[p].terminated@.len() as int) =~= self.table@[p].terminated@);
            }
        }
        let ghost rules = self.rules@;
        let ghost all = found@;
        let ghost n_tokens = self.num_tokens();
        assert forall|h: int| 0 <= h < nodes0.len() implies #[trigger] nodes0[h].start < nodes0[h].stop <= n_tokens by {
            assert(node_wf(rules, nodes0, n_tokens, h));
            reveal(node_wf);
        }
        let mut found = found;
        while found.len() > 0
            invariant
                self.wf(),
                self.rules@ == rules,
                self.num_tokens() == n_tokens,
                n_tokens <= nodes0.len(),
                forall|h: int| 0 <= h < nodes0.len() ==> #[trigger] node_wf(rules, nodes0, n_tokens, h),
                forall|h: int| 0 <= h < nodes0.len() ==> #[trigger] nodes0[h].start < nodes0[h].stop <= n_tokens,
                nodes0.is_prefix_of(self.nodes@),
                found@ == all.subrange(0, found@.len() as int),
                found@.len() <= all.len(),
                forall|k: int| 0 <= k < all.len() ==> found_ok(rules, nodes0, q, #[trigger] all[k]),
                self.node_queue@ == Seq::new((self.nodes@.len() - nodes0.len()) as nat, |i: int| (nodes0.len() + i) as usize),
                forall|h: int|
                    nodes0.len() <= h < self.nodes@.len() ==> anchored_match(rules, nodes0, q, rule_of(#[trigger] self.nodes@[h]), children_of(self.nodes@[h])),
                forall|k: int|
                    found@.len() <= k < all.len() ==> exists|h: int|
                        n_tokens <= h < self.nodes@.len() && #[trigger] item_of(self.nodes@, h) == match_item(nodes0, rule_of(#[trigger] all[k]), children_of(all[k])),
                self.table@.len() == s_start.table@.len(),
                s_start.table@.len() == n_tokens + 1,
                chart_grown(s_start.table@, self.table@, nodes0.len() as int, self.nodes@.len() as int),
            decreases found@.len(),
        {
            let ghost before = self.nodes@;
            let ghost s0 = *self;
            let ghost k = found@.len() - 1;
            let nd = found.pop().unwrap();
            proof {
                assert(nd == all[k]);
                State::lemma_found_in_arena(*self, nodes0, q, nd);
            }
            if !self.has_item(&nd) {
                let ghost ndv = nd;
                assert(self.chart_wf()) by {
                    reveal(State::wf);
                }
                let h = self.add_node(nd);
                proof {
                    State::lemma_chart_push(s_start.table@, s0, *self, nodes0.len() as int, ndv.start as int, ndv.stop as int, h);
                }
                let ghost after_add = *self;
                self.node_queue.push(h);
                proof {
                    assert(self.table == after_add.table);
                    assert(self.nodes@.len() == self.nodes.len());
                    State::lemma_push_keeps_wf(s0, *self, nodes0, q, ndv);
                    let nodes = self.nodes@;
                    assert(self.node_queue@ =~= Seq::new((nodes.len() - nodes0.len()) as nat, |i: int| (nodes0.len() + i) as usize));
                    assert forall|k2: int|
                        found@.len() <= k2 < all.len() implies exists|g: int|
                            n_tokens <= g < nodes.len() && #[trigger] item_of(nodes, g) == match_item(nodes0, rule_of(#[trigger] all[k2]), children_of(all[k2])) by {
                        if k2 == k {
                            assert(item_of(nodes, h as int) == match_item(nodes0, rule_of(all[k2]), children_of(all[k2])));
                        } else {
                            let g = choose|g: int| n_tokens <= g < before.len() && #[trigger] item_of(before, g) == match_item(nodes0, rule_of(all[k2]), children_of(all[k2]));
                            assert(item_of(nodes, g) == item_of(before, g));
                        }
                    }
                }
            }
            proof {
                assert(found@ =~= all.subrange(0, found@.len() as int));
            }
        }
        proof {
            reveal(chart_grown);
            assert forall|p: int| 0 <= p <= n_tokens implies grows(
                s_start.started_view(p),
                #[trigger] self.started_view(p),
                nodes0.len() as int,
                self.nodes_view().len() as int,
            ) && grows(s_start.terminated_view(p), self.terminated_view(p), nodes0.len() as int, self.nodes_view().len() as int) by {
                assert(grows(s_start.table@[p].started@, self.table@[p].started@, nodes0.len() as int, self.nodes@.len() as int));
            }
        }
        proof {
            reveal(State::wf);
            assert forall|r: int, cs: Seq<usize>|
                #[trigger] anchored_match(rules, nodes0, q, r, cs) implies exists|h: int|
                    n_tokens <= h < self.nodes@.len() && #[trigger] item_of(self.nodes@, h) == match_item(nodes0, r, cs) by {
                let k = choose|k: int| 0 <= k < all.len() && rule_of(#[trigger] all[k]) == r && children_of(all[k]) == cs;
            }
        }
    }

    /// The identity of each non-terminal node is coded by a number below
    /// the number of rules times the number of choices of child positions.
    proof fn lemma_key_range(s0: State, h: int)
        requires
            s0.wf(),
            s0.num_tokens() <= h < s0.nodes@.len(),
        ensures
            ({
                let it = item_of(s0.nodes@, h);
                let m = s0.num_tokens() + 1;
                let l = max_context(s0.rules@, s0.rules@.len() as int) + 2;
                &&& 0 <= it.0 < s0.rules@.len()
                &&& it.1.len() == pattern_len(s0.rules@[it.0]) + 1
                &&& digits_below(it.1, m)
                &&& 0 <= item_key(s0.rules@.len() as int, s0.num_tokens(), it) < s0.rules@.len() * cap(m, l as nat)
            }),
    {
        reveal(State::wf);
        let nodes = s0.nodes@;
        let n_tokens = s0.num_tokens();
        let it = item_of(nodes, h);
        let m = n_tokens + 1;
        let l = max_context(s0.rules@, s0.rules@.len() as int) + 2;
        let nr = s0.rules@.len() as int;
        assert(node_wf(s0.rules@, nodes, n_tokens, h));
        reveal(node_wf);
        reveal(is_match);
        let cs = children_of(nodes[h]);
        let r = rule_of(nodes[h]);
        assert forall|i: int| 0 <= i < it.1.len() implies 0 <= #[trigger] it.1[i] < m by {
            if i > 0 {
                let c = cs[i - 1];
                assert(node_wf(s0.rules@, nodes, n_tokens, c as int));
            }
        }
        lemma_max_context(s0.rules@, nr, r);
        lemma_code_bound(it.1, m);
        lemma_cap_mono(m, it.1.len(), l as nat);
        let c = code(it.1, m);
        let k = cap(m, l as nat);
        assert(r + nr * c < nr * k) by (nonlinear_arith)
            requires
                0 <= r < nr,
                0 <= c < k,
        ;
        assert(0 <= nr * c) by (nonlinear_arith)
            requires
                0 <= nr,
                0 <= c,
        ;
    }

    /// A well-formed arena holds at most `node_bound` nodes.
    pub proof fn lemma_size_bound(s0: State)
        requires
            s0.wf(),
        ensures
            s0.nodes_view().len() <= node_bound(s0.rules_view(), s0.num_tokens()),
    {
        reveal(State::wf);
        let nodes = s0.nodes@;
        let n_tokens = s0.num_tokens();
        let nr = s0.rules@.len() as int;
        let m = n_tokens + 1;
        let l = max_context(s0.rules@, nr) + 2;
        let bound = nr * cap(m, l as nat);
        let keys = Seq::new((nodes.len() - n_tokens) as nat, |i: int| item_key(nr, n_tokens, item_of(nodes, n_tokens + i)));
        assert forall|i: int| 0 <= i < keys.len() implies 0 <= #[trigger] keys[i] < bound by {
            State::lemma_key_range(s0, n_tokens + i);
        }
        assert forall|i: int, j: int| 0 <= i < keys.len() && 0 <= j < keys.len() && i != j implies #[trigger] keys[i] != #[trigger] keys[j] by {
            let a = item_of(nodes, n_tokens + i);
            let b = item_of(nodes, n_tokens + j);
            State::lemma_key_range(s0, n_tokens + i);
            State::lemma_key_range(s0, n_tokens + j);
            if keys[i] == keys[j] {
                lemma_code_bound(a.1, m);
                lemma_code_bound(b.1, m);
                lemma_div_unique(a.0, code(a.1, m), b.0, code(b.1, m), nr);
                lemma_code_injective(a.1, b.1, m);
                assert(a == b);
            }
        }
        assert(keys.no_duplicates());
        if nr == 0 {
            assert(bound == 0) by (nonlinear_arith)
                requires
                    bound == nr * cap(m, l as nat),
                    nr == 0,
            ;
            assert(keys.len() == 0) by {
                if keys.len() > 0 {
                    State::lemma_key_range(s0, n_tokens);
                }
            }
        } else {
            lemma_cap_mono(m, 0, l as nat);
            assert(0 <= bound) by (nonlinear_arith)
                requires
                    bound == nr * cap(m, l as nat),
                    1 <= nr,
                    1 <= cap(m, l as nat),
            ;
            lemma_distinct_below(keys, bound);
        }
        assert(keys.len() == nodes.len() - n_tokens);
        assert(keys.len() <= bound);
        assert(node_bound(s0.rules@, n_tokens) == n_tokens + bound);
        assert(nodes.len() <= node_bound(s0.rules@, n_tokens));
    }

    /// The input tokens, as the labels of the terminal nodes.
    pub open spec fn tokens_view(&self) -> Seq<Symbol> {
        Seq::new(self.num_tokens() as nat, |i: int| self.nodes_view()[i].label)
    }

    /// The forest seen through identities: the rule applications of its
    /// non-terminal nodes, and the labels and spans of the queued nodes.
    /// A rule application is in `forest_view().0` exactly when some
    /// non-terminal node has it as its identity (`item_of`).
    pub open spec fn forest_view(&self) -> (Set<(int, Seq<int>)>, Set<(Symbol, int, int)>) {
        (
            Set::new(
                |it: (int, Seq<int>)|
                    exists|h: int| self.num_tokens() <= h < self.nodes_view().len() && item_of(self.nodes_view(), h) == it,
            ),
            Set::new(
                |t: (Symbol, int, int)|
                    exists|i: int|
                        0 <= i < self.queue_view().len() && triple_of(self.nodes_view()[self.queue_view()[i] as int]) == t,
            ),
        )
    }

    /// A non-terminal node has the label and span of its rule application.
    pub proof fn lemma_item_triple(s0: State, h: int)
        requires
            s0.wf(),
            s0.num_tokens() <= h < s0.nodes_view().len(),
        ensures
            item_triple(s0.rules_view(), item_of(s0.nodes_view(), h)) == triple_of(s0.nodes_view()[h]),
    {
        reveal(State::wf);
        assert(node_wf(s0.rules@, s0.nodes@, s0.num_tokens(), h));
        reveal(node_wf);
        reveal(is_match);
    }

    /// Some node has label and span `t` exactly when the tokens and the rule
    /// applications of the forest give a node with them.
    pub proof fn lemma_arena_triples(s0: State, t: (Symbol, int, int))
        requires
            s0.wf(),
        ensures
            (exists|h: int| 0 <= h < s0.nodes_view().len() && triple_of(#[trigger] s0.nodes_view()[h]) == t) <==> has_triple(
                s0.rules_view(),
                s0.tokens_view(),
                s0.forest_view().0,
                t,
            ),
    {
        reveal(State::wf);
        reveal(has_triple);
        let n_tokens = s0.num_tokens();
        let tokens = s0.tokens_view();
        let items = s0.forest_view().0;
        if exists|h: int| 0 <= h < s0.nodes@.len() && triple_of(#[trigger] s0.nodes@[h]) == t {
            let h = choose|h: int| 0 <= h < s0.nodes@.len() && triple_of(#[trigger] s0.nodes@[h]) == t;
            if h < n_tokens {
                assert(node_wf(s0.rules@, s0.nodes@, n_tokens, h));
                reveal(node_wf);
                assert(tokens[h] == s0.nodes@[h].label);
            } else {
                State::lemma_item_triple(s0, h);
                assert(items.contains(item_of(s0.nodes@, h)));
            }
        }
        if has_triple(s0.rules@, tokens, items, t) {
            if 0 <= t.1 < tokens.len() && t.2 == t.1 + 1 && t.0 == tokens[t.1] {
                assert(node_wf(s0.rules@, s0.nodes@, n_tokens, t.1));
                reveal(node_wf);
                assert(triple_of(s0.nodes@[t.1]) == t);
            } else {
                let it = choose|it: (int, Seq<int>)| items.contains(it) && item_triple(s0.rules@, it) == t;
                let h = choose|h: int| n_tokens <= h < s0.nodes@.len() && item_of(s0.nodes@, h) == it;
                State::lemma_item_triple(s0, h);
                assert(triple_of(s0.nodes@[h]) == t);
            }
        }
    }

    /// The item of a full match anchored at a queued node is a rule
    /// application anchored at a queued node.
    #[verifier::spinoff_prover]
    #[verifier::rlimit(80)]
    proof fn lemma_match_items_sound(s0: State, r: int, cs: Seq<usize>)
        requires
            s0.wf(),
            anchored_match(s0.rules@, s0.nodes@, s0.node_queue@, r, cs),
        ensures
            item_matches(s0.rules@, s0.tokens_view(), s0.forest_view().0, s0.forest_view().1, match_item(s0.nodes@, r, cs)),
    {
        let rules = s0.rules@;
        let nodes = s0.nodes@;
        let q = s0.node_queue@;
        let tokens = s0.tokens_view();
        let (items, queued) = s0.forest_view();
        let it = match_item(nodes, r, cs);
        reveal(is_match);
        let bs = it.1;
        let p = rules[r].predecessors@.len() as int;
        assert forall|j: int| 0 <= j < bs.len() - 1 implies has_triple(rules, tokens, items, (pattern_at(rules[r], j), #[trigger] bs[j], bs[j + 1])) by {
            if j > 0 {
                assert(nodes[cs[j - 1] as int].stop == nodes[cs[j] as int].start);
            }
            assert(triple_of(nodes[cs[j] as int]) == (pattern_at(rules[r], j), bs[j], bs[j + 1]));
            State::lemma_arena_triples(s0, (pattern_at(rules[r], j), bs[j], bs[j + 1]));
        }
        let kq = choose|kq: int| 0 <= kq < q.len() && q[kq] == cs[p];
        if p > 0 {
            assert(nodes[cs[p - 1] as int].stop == nodes[cs[p] as int].start);
        }
        assert(triple_of(nodes[q[kq] as int]) == (rules[r].base, bs[p], bs[p + 1]));
        assert(queued.contains((rules[r].base, bs[p], bs[p + 1])));
    }

    /// A node with label and span `t`, when there is one.
    spec fn witness(nodes: Seq<Node>, t: (Symbol, int, int)) -> usize {
        (choose|h: int| 0 <= h < nodes.len() && triple_of(#[trigger] nodes[h]) == t) as usize
    }

    proof fn lemma_witness(s0: State, t: (Symbol, int, int))
        requires
            s0.wf(),
            has_triple(s0.rules@, s0.tokens_view(), s0.forest_view().0, t),
        ensures
            State::witness(s0.nodes@, t) < s0.nodes@.len(),
            triple_of(s0.nodes@[State::witness(s0.nodes@, t) as int]) == t,
    {
        State::lemma_arena_triples(s0, t);
        assert(s0.nodes@.len() <= usize::MAX) by {
            reveal(State::wf);
        }
    }

    /// Picks, for each symbol of the rule of a rule application anchored at a
    /// queued node, a node with that symbol's label and span.
    #[verifier::spinoff_prover]
    #[verifier::rlimit(100)]
    proof fn lemma_pick_children(s0: State, it: (int, Seq<int>)) -> (cs: Seq<usize>)
        requires
            s0.wf(),
            item_matches(s0.rules@, s0.tokens_view(), s0.forest_view().0, s0.forest_view().1, it),
        ensures
            cs.len() == it.1.len() - 1,
            forall|j: int| 0 <= j < cs.len() ==> #[trigger] cs[j] < s0.nodes@.len() && triple_of(s0.nodes@[cs[j] as int]) == (
                pattern_at(s0.rules@[it.0], j),
                it.1[j],
                it.1[j + 1],
            ),
            s0.node_queue@.contains(cs[s0.rules@[it.0].predecessors@.len() as int]),
    {
        let rules = s0.rules@;
        let nodes = s0.nodes@;
        let q = s0.node_queue@;
        let r = it.0;
        let bs = it.1;
        let p = rules[r].predecessors@.len() as int;
        let k = bs.len() - 1;
        let qt = (rules[r].base, bs[p], bs[p + 1]);
        assert(s0.forest_view().1.contains(qt));
        let kq = choose|i: int| 0 <= i < q.len() && triple_of(nodes[q[i] as int]) == qt;
        let cs = Seq::new(
            k as nat,
            |j: int| if j == p { q[kq] } else { State::witness(nodes, (pattern_at(rules[r], j), bs[j], bs[j + 1])) },
        );
        assert(q[kq] < nodes.len()) by {
            reveal(State::wf);
        }
        assert forall|j: int| 0 <= j < k implies #[trigger] cs[j] < nodes.len() && triple_of(nodes[cs[j] as int]) == (
            pattern_at(rules[r], j),
            bs[j],
            bs[j + 1],
        ) by {
            if j != p {
                State::lemma_witness(s0, (pattern_at(rules[r], j), bs[j], bs[j + 1]));
            }
        }
        assert(q[kq] == cs[p]);
        cs
    }

    /// A rule application anchored at a queued node is the item of some full
    /// match anchored at a queued node.
    #[verifier::spinoff_prover]
    #[verifier::rlimit(100)]
    proof fn lemma_match_items_complete(s0: State, it: (int, Seq<int>))
        requires
            s0.wf(),
            item_matches(s0.rules@, s0.tokens_view(), s0.forest_view().0, s0.forest_view().1, it),
        ensures
            exists|r: int, cs: Seq<usize>| anchored_match(s0.rules@, s0.nodes@, s0.node_queue@, r, cs) && #[trigger] match_item(s0.nodes@, r, cs) == it,
    {
        let rules = s0.rules@;
        let nodes = s0.nodes@;
        let q = s0.node_queue@;
        let r = it.0;
        let bs = it.1;
        let cs = State::lemma_pick_children(s0, it);
        lemma_chain_is_match(rules, nodes, q, r, bs, cs);
    }

    /// Appending nodes keeps the tokens.
    proof fn lemma_tokens_kept(s0: State, s1: State)
        requires
            s0.wf(),
            s1.num_tokens() == s0.num_tokens(),
            s0.nodes@.is_prefix_of(s1.nodes@),
        ensures
            s1.tokens_view() == s0.tokens_view(),
    {
        assert(0 <= s0.num_tokens() <= s0.nodes@.len()) by {
            reveal(State::wf);
        }
        let n0 = s0.nodes@.len() as int;
        assert forall|i: int| 0 <= i < s0.num_tokens() implies #[trigger] s1.tokens_view()[i] == s0.tokens_view()[i] by {
            assert(s0.nodes@[i] == s1.nodes@.subrange(0, n0)[i]);
        }
        assert(s1.tokens_view() =~= s0.tokens_view());
    }

    /// The effect of a cycle, seen through identities, is `forest_step`.
    #[verifier::spinoff_prover]
    #[verifier::rlimit(100)]
    proof fn lemma_cycle_forest(s0: State, s1: State)
        requires
            s0.wf(),
            s1.wf(),
            s1.rules@ == s0.rules@,
            s1.num_tokens() == s0.num_tokens(),
            s0.nodes@.is_prefix_of(s1.nodes@),
            s1.node_queue@ == Seq::new((s1.nodes@.len() - s0.nodes@.len()) as nat, |i: int| (s0.nodes@.len() + i) as usize),
            forall|h: int|
                s0.nodes@.len() <= h < s1.nodes@.len() ==> anchored_match(
                    s0.rules@,
                    s0.nodes@,
                    s0.node_queue@,
                    rule_of(#[trigger] s1.nodes@[h]),
                    children_of(s1.nodes@[h]),
                ),
            forall|r: int, cs: Seq<usize>|
                #[trigger] anchored_match(s0.rules@, s0.nodes@, s0.node_queue@, r, cs) ==> exists|h: int|
                    s1.num_tokens() <= h < s1.nodes@.len() && #[trigger] item_of(s1.nodes@, h) == match_item(s0.nodes@, r, cs),
        ensures
            s1.tokens_view() == s0.tokens_view(),
            s1.forest_view() == forest_step(s0.rules@, s0.tokens_view(), s0.forest_view()),
    {
        reveal(forest_step);
        let rules = s0.rules@;
        let n_tokens = s0.num_tokens();
        let n0 = s0.nodes@.len() as int;
        let n1 = s1.nodes@.len() as int;
        let nodes0 = s0.nodes@;
        let nodes1 = s1.nodes@;
        let tokens = s0.tokens_view();
        let (k0, q0) = s0.forest_view();
        let (k1, q1) = s1.forest_view();
        let fresh = fresh_items(rules, tokens, s0.forest_view());
        assert(0 <= n_tokens <= n0) by {
            reveal(State::wf);
        }
        assert forall|h: int| 0 <= h < n0 implies #[trigger] item_of(nodes1, h) == item_of(nodes0, h) by {
            reveal(State::wf);
            lemma_node_wf_extends(rules, nodes0, nodes1, n_tokens, h);
        }
        State::lemma_tokens_kept(s0, s1);
        // a new node's identity is that of its match, a rule application anchored at a queued node
        assert forall|h: int| n0 <= h < n1 implies item_matches(rules, tokens, k0, q0, #[trigger] item_of(nodes1, h)) by {
            let r = rule_of(nodes1[h]);
            let cs = children_of(nodes1[h]);
            State::lemma_match_items_sound(s0, r, cs);
            lemma_match_extends(rules, nodes0, nodes1, r, cs);
            reveal(State::wf);
            assert(node_wf(rules, nodes1, n_tokens, h));
            reveal(node_wf);
            assert(item_of(nodes1, h).1 =~= match_item(nodes1, r, cs).1);
        }
        assert forall|h: int| n0 <= h < n1 implies !k0.contains(#[trigger] item_of(nodes1, h)) by {
            if k0.contains(item_of(nodes1, h)) {
                let g = choose|g: int| n_tokens <= g < n0 && item_of(nodes0, g) == item_of(nodes1, h);
                assert(item_of(nodes1, g) == item_of(nodes0, g)) by {
                    reveal(State::wf);
                    lemma_node_wf_extends(rules, nodes0, nodes1, n_tokens, g);
                }
                reveal(State::wf);
                assert(item_of(nodes1, g) != item_of(nodes1, h));
            }
        }
        assert forall|it: (int, Seq<int>)| fresh.contains(it) implies exists|h: int| n0 <= h < n1 && #[trigger] item_of(nodes1, h) == it by {
            assert(item_matches(rules, tokens, k0, q0, it) && !k0.contains(it));
            State::lemma_match_items_complete(s0, it);
            let (r, cs) = choose|r: int, cs: Seq<usize>| anchored_match(rules, nodes0, s0.node_queue@, r, cs) && #[trigger] match_item(nodes0, r, cs) == it;
            assert(anchored_match(s0.rules@, s0.nodes@, s0.node_queue@, r, cs));
            assert(exists|h: int| s1.num_tokens() <= h < n1 && #[trigger] item_of(nodes1, h) == match_item(nodes0, r, cs));
            let h = choose|h: int| s1.num_tokens() <= h < n1 && #[trigger] item_of(nodes1, h) == match_item(nodes0, r, cs);
            if h < n0 {
                assert(item_of(nodes1, h) == item_of(nodes0, h));
                assert(k0.contains(item_of(nodes0, h)));
            }
            assert(n0 <= h < n1 && item_of(nodes1, h) == it);
        }
        assert(k1 =~= k0.union(fresh)) by {
            assert forall|it: (int, Seq<int>)| k1.contains(it) implies k0.union(fresh).contains(it) by {
                let h = choose|h: int| n_tokens <= h < n1 && item_of(nodes1, h) == it;
                if h < n0 {
                    assert(k0.contains(item_of(nodes0, h)));
                }
            }
            assert forall|it: (int, Seq<int>)| k0.union(fresh).contains(it) implies k1.contains(it) by {
                if k0.contains(it) {
                    let h = choose|h: int| n_tokens <= h < n0 && item_of(nodes0, h) == it;
                    assert(item_of(nodes1, h) == it);
                } else {
                    let h = choose|h: int| n0 <= h < n1 && #[trigger] item_of(nodes1, h) == it;
                }
            }
        }
        assert forall|h: int| n0 <= h < n1 implies fresh.contains(#[trigger] item_of(nodes1, h)) by {}
        assert(0 <= s1.num_tokens() <= s0.nodes@.len());
        State::lemma_cycle_queue(s0, s1);
    }

    /// The nodes a cycle queues are those of the rule applications it adds.
    #[verifier::spinoff_prover]
    #[verifier::rlimit(100)]
    proof fn lemma_cycle_queue(s0: State, s1: State)
        requires
            s1.wf(),
            s1.rules@ == s0.rules@,
            s0.nodes@.len() <= s1.nodes@.len(),
            s1.node_queue@ == Seq::new((s1.nodes@.len() - s0.nodes@.len()) as nat, |i: int| (s0.nodes@.len() + i) as usize),
            s0.num_tokens() <= s0.nodes@.len(),
            s1.num_tokens() == s0.num_tokens(),
            forall|h: int|
                s0.nodes@.len() <= h < s1.nodes@.len() ==> fresh_items(s0.rules@, s0.tokens_view(), s0.forest_view()).contains(
                    #[trigger] item_of(s1.nodes@, h),
                ),
            forall|it: (int, Seq<int>)|
                fresh_items(s0.rules@, s0.tokens_view(), s0.forest_view()).contains(it) ==> exists|h: int|
                    s0.nodes@.len() <= h < s1.nodes@.len() && #[trigger] item_of(s1.nodes@, h) == it,
        ensures
            s1.forest_view().1 == fresh_items(s0.rules@, s0.tokens_view(), s0.forest_view()).map(
                |it: (int, Seq<int>)| item_triple(s0.rules@, it),
            ),
    {
        let rules = s0.rules@;
        let n0 = s0.nodes@.len() as int;
        let n1 = s1.nodes@.len() as int;
        let nodes1 = s1.nodes@;
        let fresh = fresh_items(s0.rules@, s0.tokens_view(), s0.forest_view());
        let q1 = s1.forest_view().1;
        assert(n1 <= usize::MAX && 0 <= s1.num_tokens()) by {
            reveal(State::wf);
        }
        assert(q1 =~= fresh.map(|it: (int, Seq<int>)| item_triple(rules, it))) by {
            assert forall|t: (Symbol, int, int)| q1.contains(t) implies fresh.map(|it: (int, Seq<int>)| item_triple(rules, it)).contains(t) by {
                let i = choose|i: int| 0 <= i < s1.node_queue@.len() && triple_of(nodes1[s1.node_queue@[i] as int]) == t;
                let h = n0 + i;
                assert(s1.node_queue@[i] as int == h);
                State::lemma_item_triple(s1, h);
                assert(fresh.contains(item_of(nodes1, h)));
            }
            assert forall|t: (Symbol, int, int)| fresh.map(|it: (int, Seq<int>)| item_triple(rules, it)).contains(t) implies q1.contains(t) by {
                let it = choose|it: (int, Seq<int>)| fresh.contains(it) && item_triple(rules, it) == t;
                let h = choose|h: int| n0 <= h < n1 && #[trigger] item_of(nodes1, h) == it;
                State::lemma_item_triple(s1, h);
                let i = h - n0;
                assert(s1.node_queue@[i] as int == h);
            }
        }
    }

    /// Adding one node at handle `h` keeps every chart list growing by
    /// handles from `lo` on.
    #[verifier::spinoff_prover]
    #[verifier::rlimit(50)]
    proof fn lemma_chart_push(t0: Seq<TableEntry>, s0: State, s1: State, lo: int, start: int, stop: int, h: usize)
        requires
            t0.len() == s0.table@.len(),
            s1.table@.len() == s0.table@.len(),
            lo <= h == s0.nodes@.len(),
            s1.nodes@.len() == h + 1,
            chart_grown(t0, s0.table@, lo, s0.nodes@.len() as int),
            forall|p: int|
                0 <= p < s0.table@.len() ==> #[trigger] s1.started_view(p) == if p == start {
                    s0.started_view(p).push(h)
                } else {
                    s0.started_view(p)
                },
            forall|p: int|
                0 <= p < s0.table@.len() ==> #[trigger] s1.terminated_view(p) == if p == stop {
                    s0.terminated_view(p).push(h)
                } else {
                    s0.terminated_view(p)
                },
        ensures
            chart_grown(t0, s1.table@, lo, s1.nodes@.len() as int),
    {
        reveal(chart_grown);
        assert forall|p: int|
            0 <= p < t0.len() implies grows(t0[p].started@, #[trigger] s1.table@[p].started@, lo, s1.nodes@.len() as int)
                && grows(t0[p].terminated@, s1.table@[p].terminated@, lo, s1.nodes@.len() as int) by {
            assert(grows(t0[p].started@, s0.table@[p].started@, lo, h as int));
            assert(grows(t0[p].terminated@, s0.table@[p].terminated@, lo, h as int));
            assert(s1.started_view(p) == if p == start {
                s0.started_view(p).push(h)
            } else {
                s0.started_view(p)
            });
            assert(s1.terminated_view(p) == if p == stop {
                s0.terminated_view(p).push(h)
            } else {
                s0.terminated_view(p)
            });
            lemma_grows_step(t0[p].started@, s0.table@[p].started@, s1.table@[p].started@, p == start, h, lo);
            lemma_grows_step(t0[p].terminated@, s0.table@[p].terminated@, s1.table@[p].terminated@, p == stop, h, lo);
        }
    }

    /// A produced node fits the arena it is about to be added to: its children
    /// and their positions are already there.
    proof fn lemma_found_in_arena(s0: State, nodes0: Seq<Node>, q: Seq<usize>, nd: Node)
        requires
            s0.wf(),
            nodes0.is_prefix_of(s0.nodes@),
            found_ok(s0.rules@, nodes0, q, nd),
        ensures
            nd.meta is NonTerminal,
            children_of(nd).len() >= 1,
            forall|j: int| 0 <= j < children_of(nd).len() ==> #[trigger] children_of(nd)[j] < s0.nodes@.len(),
            nd.start == s0.nodes@[children_of(nd)[0] as int].start,
            nd.start < s0.table@.len(),
            nd.stop < s0.table@.len(),
            match_item(s0.nodes@, rule_of(nd), children_of(nd)) == match_item(nodes0, rule_of(nd), children_of(nd)),
    {
        reveal(State::wf);
        reveal(is_match);
        let cs = children_of(nd);
        lemma_match_extends(s0.rules@, nodes0, s0.nodes@, rule_of(nd), cs);
        assert(nodes0[cs[0] as int] == s0.nodes@[cs[0] as int]);
        assert(nodes0[cs[cs.len() - 1] as int] == s0.nodes@[cs[cs.len() - 1] as int]);
        assert(s0.nodes@[cs[0] as int].start < s0.table@.len());
        assert(s0.nodes@[cs[cs.len() - 1] as int].start < s0.table@.len());
    }

    /// Adding a produced node whose identity is new keeps the state well-formed.
    #[verifier::spinoff_prover]
    #[verifier::rlimit(60)]
    proof fn lemma_push_keeps_wf(s0: State, s1: State, nodes0: Seq<Node>, q: Seq<usize>, nd: Node)
        requires
            s0.wf(),
            s0.num_tokens() <= nodes0.len(),
            nodes0.is_prefix_of(s0.nodes@),
            found_ok(s0.rules@, nodes0, q, nd),
            !exists|h: int|
                s0.num_tokens() <= h < s0.nodes@.len() && #[trigger] item_of(s0.nodes@, h) == match_item(
                    s0.nodes@,
                    rule_of(nd),
                    children_of(nd),
                ),
            s1.rules == s0.rules,
            s1.rule_map == s0.rule_map,
            s1.table@.len() == s0.table@.len(),
            s1.chart_wf(),
            s1.nodes@ == s0.nodes@.push(nd),
            s1.nodes@.len() <= usize::MAX,
            s1.node_queue@ == s0.node_queue@.push(s0.nodes@.len() as usize),
        ensures
            s1.wf(),
            forall|g: int| 0 <= g < s0.nodes@.len() ==> #[trigger] item_of(s1.nodes@, g) == item_of(s0.nodes@, g),
            item_of(s1.nodes@, s0.nodes@.len() as int) == match_item(nodes0, rule_of(nd), children_of(nd)),
            nodes0.is_prefix_of(s1.nodes@),
            anchored_match(s0.rules@, nodes0, q, rule_of(s1.nodes@[s0.nodes@.len() as int]), children_of(s1.nodes@[s0.nodes@.len() as int])),
    {
        reveal(State::wf);
        let n_tokens = s0.num_tokens();
        let before = s0.nodes@;
        let nodes = s1.nodes@;
        assert forall|h: int| 0 <= h < nodes0.len() implies #[trigger] nodes0[h].start < nodes0[h].stop <= n_tokens by {
            assert(nodes0[h] == before[h]);
            assert(node_wf(s0.rules@, before, n_tokens, h));
            reveal(node_wf);
        }
        State::lemma_found_in_arena(s0, nodes0, q, nd);
        lemma_push_found(s0.rules@, nodes0, q, before, n_tokens, nd);
        assert forall|h1: int, h2: int|
            n_tokens <= h1 < nodes.len() && n_tokens <= h2 < nodes.len() && h1 != h2 implies #[trigger] item_of(nodes, h1)
                != #[trigger] item_of(nodes, h2) by {
            if h1 < before.len() && h2 < before.len() {
                assert(item_of(before, h1) != item_of(before, h2));
            }
        }
        assert forall|i: int| 0 <= i < s1.node_queue@.len() implies #[trigger] s1.node_queue@[i] < nodes.len() by {
            if i < s0.node_queue@.len() {
                assert(s1.node_queue@[i] == s0.node_queue@[i]);
            }
        }
    }

    /// A parser as `new` makes it, once every symbol that the rules and the
    /// tokens name is checked to be among the first `n_terms` terminals or the
    /// first `n_non_terms` non-terminals; else the first offending rule, or
    /// failing that the first offending token.
    pub fn new_checked(rules: Vec<MidRule>, tokens: Vec<Symbol>, n_terms: usize, n_non_terms: usize) -> (r: Result<State, GrammarError>)
        requires
            tokens@.len() < usize::MAX,
        ensures
            match r {
                Ok(s) => {
                    &&& forall|i: int| 0 <= i < rules@.len() ==> rule_in_range(#[trigger] rules@[i], n_terms, n_non_terms)
                    &&& forall|i: int| 0 <= i < tokens@.len() ==> symbol_in_range(#[trigger] tokens@[i], n_terms, n_non_terms)
                    &&& s.wf()
                    &&& s.rules_view() == rules@
                    &&& s.tokens_view() == tokens@
                    &&& s.nodes_view().len() == tokens@.len()
                    &&& s.forest_view() == initial_forest(tokens@)
                },
                Err(GrammarError::RuleOutOfRange { rule }) => {
                    &&& rule < rules@.len()
                    &&& !rule_in_range(rules@[rule as int], n_terms, n_non_terms)
                    &&& forall|i: int| 0 <= i < rule ==> rule_in_range(#[trigger] rules@[i], n_terms, n_non_terms)
                },
                Err(GrammarError::TokenOutOfRange { index }) => {
                    &&& forall|i: int| 0 <= i < rules@.len() ==> rule_in_range(#[trigger] rules@[i], n_terms, n_non_terms)
                    &&& index < tokens@.len()
                    &&& !symbol_in_range(tokens@[index as int], n_terms, n_non_terms)
                    &&& forall|i: int| 0 <= i < index ==> symbol_in_range(#[trigger] tokens@[i], n_terms, n_non_terms)
                },
            },
    {
        let mut i: usize = 0;
        while i < rules.len()
            invariant
                i <= rules@.len(),
                forall|k: int| 0 <= k < i ==> rule_in_range(#[trigger] rules@[k], n_terms, n_non_terms),
            decreases rules@.len() - i,
        {
            if !rules[i].in_range(n_terms, n_non_terms) {
                return Err(GrammarError::RuleOutOfRange { rule: i });
            }
            i = i + 1;
        }
        let mut j: usize = 0;
        while j < tokens.len()
            invariant
                j <= tokens@.len(),
                forall|k: int| 0 <= k < rules@.len() ==> rule_in_range(#[trigger] rules@[k], n_terms, n_non_terms),
                forall|k: int| 0 <= k < j ==> symbol_in_range(#[trigger] tokens@[k], n_terms, n_non_terms),
            decreases tokens@.len() - j,
        {
            if !check_symbol(&tokens[j], n_terms, n_non_terms) {
                return Err(GrammarError::TokenOutOfRange { index: j });
            }
            j = j + 1;
        }
        Ok(State::new(rules, tokens))
    }

    /// Appends a node to the arena and lists it in the chart at its start and stop.
    fn add_node(&mut self, node: Node) -> (h: usize)
        requires
            old(self).chart_wf(),
            node.start < old(self).table@.len(),
            node.stop < old(self).table@.len(),
        ensures
            final(self).chart_wf(),
            h == old(self).nodes@.len(),
            final(self).nodes@ == old(self).nodes@.push(node),
            final(self).rules == old(self).rules,
            final(self).rule_map == old(self).rule_map,
            final(self).node_queue == old(self).node_queue,
            final(self).table@.len() == old(self).table@.len(),
            forall|p: int|
                0 <= p < old(self).table@.len() ==> #[trigger] final(self).started_view(p) == if p == node.start {
                    old(self).started_view(p).push(h)
                } else {
                    old(self).started_view(p)
                },
            forall|p: int|
                0 <= p < old(self).table@.len() ==> #[trigger] final(self).terminated_view(p) == if p == node.stop {
                    old(self).terminated_view(p).push(h)
                } else {
                    old(self).terminated_view(p)
                },
    {
        let h = self.nodes.len();
        let start = node.start;
        let stop = node.stop;
        let ghost old_table = self.table@;
        let ghost old_nodes = self.nodes@;
        self.table[start].started.push(h);
        self.table[stop].terminated.push(h);
        self.nodes.push(node);
        proof {
            let t = self.table@;
            assert forall|p: int| 0 <= p < t.len() implies
                t[p].started@ == (if p == start { old_table[p].started@.push(h) } else { old_table[p].started@ })
                && t[p].terminated@ == (if p == stop { old_table[p].terminated@.push(h) } else { old_table[p].terminated@ }) by {}
            assert forall|p: int, k: int|
                0 <= p < t.len() && 0 <= k < t[p].started@.len() implies {
                    let g = #[trigger] t[p].started@[k];
                    g < self.nodes@.len() && self.nodes@[g as int].start == p
                } by {
                if !(p == start && k == old_table[p].started@.len()) {
                    assert(t[p].started@[k] == old_table[p].started@[k]);
                }
            }
            assert forall|p: int, k: int|
                0 <= p < t.len() && 0 <= k < t[p].terminated@.len() implies {
                    let g = #[trigger] t[p].terminated@[k];
                    g < self.nodes@.len() && self.nodes@[g as int].stop == p
                } by {
                if !(p == stop && k == old_table[p].terminated@.len()) {
                    assert(t[p].terminated@[k] == old_table[p].terminated@[k]);
                }
            }
            assert forall|g: int| 0 <= g < self.nodes@.len() implies t[#[trigger] self.nodes@[g].start as int].started@.contains(g as usize) by {
                let s0 = self.nodes@[g].start as int;
                if g < h {
                    assert(old_nodes[g] == self.nodes@[g]);
                    assert(old_table[old_nodes[g].start as int].started@.contains(g as usize));
                    let k0 = choose|k: int| 0 <= k < old_table[s0].started@.len() && old_table[s0].started@[k] == g as usize;
                    assert(t[s0].started@[k0] == g as usize);
                } else {
                    assert(t[s0].started@[t[s0].started@.len() - 1] == g as usize);
                }
            }
            assert forall|g: int| 0 <= g < self.nodes@.len() implies t[#[trigger] self.nodes@[g].stop as int].terminated@.contains(g as usize) by {
                let s1 = self.nodes@[g].stop as int;
                if g < h {
                    assert(old_nodes[g] == self.nodes@[g]);
                    assert(old_nodes[g].start < old_table.len());
                    assert(old_table[old_nodes[g].stop as int].terminated@.contains(g as usize));
                    let k1 = choose|k: int| 0 <= k < old_table[s1].terminated@.len() && old_table[s1].terminated@[k] == g as usize;
                    assert(t[s1].terminated@[k1] == g as usize);
                } else {
                    assert(t[s1].terminated@[t[s1].terminated@.len() - 1] == g as usize);
                }
            }
        }
        h
    }
}

impl State {
    /// Every produced node spans exactly its children: it starts where its
    /// first child starts, stops where its last child stops, and each child
    /// starts where the one before it stops.
    pub proof fn lemma_children_span(s: State, h: int)
        requires
            s.wf(),
            0 <= h < s.nodes_view().len(),
            s.nodes_view()[h].meta is NonTerminal,
        ensures
            ({
                let nodes = s.nodes_view();
                let cs = children_of(nodes[h]);
                &&& cs.len() >= 1
                &&& forall|j: int| 0 <= j < cs.len() ==> #[trigger] cs[j] < nodes.len()
                &&& nodes[h].start == nodes[cs[0] as int].start
                &&& nodes[h].stop == nodes[cs[cs.len() - 1] as int].stop
                &&& forall|j: int| 0 <= j < cs.len() - 1 ==> nodes[#[trigger] cs[j] as int].stop == nodes[cs[j + 1] as int].start
            }),
    {
        reveal(State::wf);
        assert(node_wf(s.rules@, s.nodes@, s.num_tokens(), h));
        reveal(node_wf);
        reveal(is_match);
    }

    /// Every node is listed in the chart at the position where it starts and
    /// at the position where it stops.
    pub proof fn lemma_node_in_chart(s: State, h: int)
        requires
            s.wf(),
            0 <= h < s.nodes_view().len(),
        ensures
            s.started_view(s.nodes_view()[h].start as int).contains(h as usize),
            s.terminated_view(s.nodes_view()[h].stop as int).contains(h as usize),
    {
        reveal(State::wf);
        assert(s.nodes@[h].start < s.table@.len());
    }

    /// The labels of the children of a produced node are, in order, the
    /// predecessors of its rule reversed, then the base, then the successors.
    #[verifier::spinoff_prover]
    pub proof fn lemma_children_labels(s: State, h: int)
        requires
            s.wf(),
            s.num_tokens() <= h < s.nodes_view().len(),
        ensures
            ({
                let nodes = s.nodes_view();
                let cs = children_of(nodes[h]);
                let rule = s.rules_view()[rule_of(nodes[h])];
                &&& 0 <= rule_of(nodes[h]) < s.rules_view().len()
                &&& nodes[h].label == (Symbol::NonTerminal { val: rule.result })
                &&& Seq::new(cs.len(), |j: int| nodes[cs[j] as int].label) == rule.predecessors@.reverse() + seq![rule.base]
                    + rule.successors@
            }),
    {
        reveal(State::wf);
        assert(node_wf(s.rules@, s.nodes@, s.num_tokens(), h));
        reveal(node_wf);
        reveal(is_match);
        let nodes = s.nodes@;
        let cs = children_of(nodes[h]);
        let rule = s.rules@[rule_of(nodes[h])];
        let lhs = Seq::new(cs.len(), |j: int| nodes[cs[j] as int].label);
        let rhs = rule.predecessors@.reverse() + seq![rule.base] + rule.successors@;
        let p = rule.predecessors@.len() as int;
        assert forall|j: int| 0 <= j < lhs.len() implies #[trigger] lhs[j] == rhs[j] by {
            assert(lhs[j] == pattern_at(rule, j));
            if j < p {
                assert(rhs[j] == rule.predecessors@.reverse()[j]);
            } else if j == p {
                assert(rhs[j] == (rule.predecessors@.reverse() + seq![rule.base])[j]);
            }
        }
        assert(lhs =~= rhs);
    }

    /// With no input tokens there are no nodes at all.
    pub proof fn lemma_empty_input(s: State)
        requires
            s.wf(),
            s.num_tokens() == 0,
        ensures
            s.nodes_view().len() == 0,
            s.started_view(0).len() == 0,
            s.terminated_view(0).len() == 0,
    {
        reveal(State::wf);
        if s.started_view(0).len() > 0 {
            assert(s.table@[0].started@[0] < s.nodes@.len());
        }
        if s.terminated_view(0).len() > 0 {
            assert(s.table@[0].terminated@[0] < s.nodes@.len());
        }
        if s.nodes@.len() > 0 {
            assert(node_wf(s.rules@, s.nodes@, 0, 0));
            reveal(node_wf);
        }
    }

    /// With no rules the arena holds only the terminal nodes of the input.
    pub proof fn lemma_no_rules(s: State)
        requires
            s.wf(),
            s.rules_view().len() == 0,
        ensures
            s.nodes_view().len() == s.num_tokens(),
            forall|h: int| 0 <= h < s.nodes_view().len() ==> (#[trigger] s.nodes_view()[h]).meta is Terminal,
            forall|h: int|
                0 <= h < s.nodes_view().len() ==> #[trigger] s.nodes_view()[h] == (Node {
                    label: s.tokens_view()[h],
                    start: h as usize,
                    stop: (h + 1) as usize,
                    meta: NodeMeta::Terminal { token_idx: h as usize },
                }),
    {
        reveal(State::wf);
        assert forall|h: int| 0 <= h < s.nodes_view().len() implies (#[trigger] s.nodes_view()[h]).meta is Terminal by {
            assert(node_wf(s.rules@, s.nodes@, s.num_tokens(), h));
            reveal(node_wf);
            reveal(is_match);
        }
        if s.nodes@.len() > s.num_tokens() {
            let h = s.num_tokens();
            assert(node_wf(s.rules@, s.nodes@, s.num_tokens(), h));
            reveal(node_wf);
            reveal(is_match);
        }
        assert forall|h: int| 0 <= h < s.nodes_view().len() implies #[trigger] s.nodes_view()[h] == (Node {
            label: s.tokens_view()[h],
            start: h as usize,
            stop: (h + 1) as usize,
            meta: NodeMeta::Terminal { token_idx: h as usize },
        }) by {
            State::lemma_node_kinds(s, h);
        }
    }

    /// The first `num_tokens` nodes are the terminal nodes, node `i` standing
    /// for token `i` over `[i, i + 1)`; every later node was produced by a rule
    /// and is labelled with that rule's result.
    pub proof fn lemma_node_kinds(s: State, h: int)
        requires
            s.wf(),
            0 <= h < s.nodes_view().len(),
        ensures
            0 <= s.num_tokens() <= s.nodes_view().len(),
            h < s.num_tokens() ==> s.nodes_view()[h] == (Node {
                label: s.tokens_view()[h],
                start: h as usize,
                stop: (h + 1) as usize,
                meta: NodeMeta::Terminal { token_idx: h as usize },
            }),
            h >= s.num_tokens() ==> {
                &&& s.nodes_view()[h].meta is NonTerminal
                &&& 0 <= rule_of(s.nodes_view()[h]) < s.rules_view().len()
                &&& s.nodes_view()[h].label == (Symbol::NonTerminal { val: s.rules_view()[rule_of(s.nodes_view()[h])].result })
            },
            s.nodes_view()[h].start < s.nodes_view()[h].stop <= s.num_tokens(),
    {
        reveal(State::wf);
        assert(node_wf(s.rules@, s.nodes@, s.num_tokens(), h));
        reveal(node_wf);
        reveal(is_match);
    }

    /// Each chart list holds only nodes that start (or stop) at its position.
    pub proof fn lemma_chart_entries(s: State, p: int, k: int)
        requires
            s.wf(),
            0 <= p <= s.num_tokens(),
        ensures
            0 <= k < s.started_view(p).len() ==> s.started_view(p)[k] < s.nodes_view().len()
                && s.nodes_view()[s.started_view(p)[k] as int].start == p,
            0 <= k < s.terminated_view(p).len() ==> s.terminated_view(p)[k] < s.nodes_view().len()
                && s.nodes_view()[s.terminated_view(p)[k] as int].stop == p,
    {
        reveal(State::wf);
        if 0 <= k < s.started_view(p).len() {
            assert(s.table@[p].started@[k] == s.started_view(p)[k]);
        }
        if 0 <= k < s.terminated_view(p).len() {
            assert(s.table@[p].terminated@[k] == s.terminated_view(p)[k]);
        }
    }
}

impl State {
    /// Two parsers of the same tokens under the same rules, each run from its
    /// start to the fixpoint, hold the same rule applications: the labels,
    /// spans, rules and child spans of their non-terminal nodes agree, however
    /// many cycles each took and wherever each was paused.
    pub proof fn lemma_runs_agree(rules: Seq<MidRule>, tokens: Seq<Symbol>, a: State, b: State, ka: nat, kb: nat)
        requires
            a.forest_view() == forest_iter(rules, tokens, initial_forest(tokens), ka),
            b.forest_view() == forest_iter(rules, tokens, initial_forest(tokens), kb),
            a.forest_view().1.is_empty(),
            b.forest_view().1.is_empty(),
        ensures
            a.forest_view() == b.forest_view(),
    {
        lemma_fixpoint_unique(rules, tokens, initial_forest(tokens), ka, kb);
    }
}

impl State {
    /// The leaves of the derivation of every node are the tokens it spans, in
    /// order: reading the leaves of a derivation gives back its part of the input.
    pub proof fn lemma_leaves_are_span(s: State, h: int)
        requires
            s.wf(),
            0 <= h < s.nodes_view().len(),
        ensures
            leaves_of(s.nodes_view(), h, children_of(s.nodes_view()[h]).len() as int) == positions(
                s.nodes_view()[h].start as int,
                s.nodes_view()[h].stop as int,
            ),
        decreases h,
    {
        let nodes = s.nodes@;
        reveal(State::wf);
        assert(node_wf(s.rules@, nodes, s.num_tokens(), h));
        if h < s.num_tokens() {
            reveal(node_wf);
            assert(leaves_of(nodes, h, 0) =~= positions(nodes[h].start as int, nodes[h].stop as int));
        } else {
            let cs = children_of(nodes[h]);
            State::lemma_leaves_prefix(s, h, cs.len() as int);
            reveal(node_wf);
            reveal(is_match);
        }
    }

    /// Every node spans at least one token.
    proof fn lemma_node_nonempty(s: State, h: int)
        requires
            s.wf(),
            0 <= h < s.nodes_view().len(),
        ensures
            s.nodes_view()[h].start < s.nodes_view()[h].stop,
    {
        reveal(State::wf);
        assert(node_wf(s.rules@, s.nodes@, s.num_tokens(), h));
        reveal(node_wf);
    }

    /// The children of a produced node come before it in the arena.
    proof fn lemma_children_before(s: State, h: int)
        requires
            s.wf(),
            s.num_tokens() <= h < s.nodes_view().len(),
        ensures
            s.nodes_view()[h].meta is NonTerminal,
            forall|j: int| 0 <= j < children_of(s.nodes_view()[h]).len() ==> #[trigger] children_of(s.nodes_view()[h])[j] < h,
    {
        reveal(State::wf);
        assert(node_wf(s.rules@, s.nodes@, s.num_tokens(), h));
        reveal(node_wf);
    }

    /// The leaves through the first `k` children of a produced node are the
    /// tokens from its start to where its `k`-th child stops.
    #[verifier::spinoff_prover]
    #[verifier::rlimit(60)]
    proof fn lemma_leaves_prefix(s: State, h: int, k: int)
        requires
            s.wf(),
            s.num_tokens() <= h < s.nodes_view().len(),
            0 <= k <= children_of(s.nodes_view()[h]).len(),
        ensures
            ({
                let nodes = s.nodes_view();
                let cs = children_of(nodes[h]);
                let end = if k == 0 {
                    nodes[h].start as int
                } else {
                    nodes[cs[k - 1] as int].stop as int
                };
                &&& nodes[h].start <= end
                &&& leaves_of(nodes, h, k) == positions(nodes[h].start as int, end)
            }),
        decreases h, k,
    {
        let nodes = s.nodes@;
        let cs = children_of(nodes[h]);
        assert(0 <= s.num_tokens()) by {
            reveal(State::wf);
        }
        State::lemma_children_before(s, h);
        State::lemma_children_span(s, h);
        if k == 0 {
            assert(leaves_of(nodes, h, 0) =~= positions(nodes[h].start as int, nodes[h].start as int));
        } else {
            let c = cs[k - 1] as int;
            State::lemma_leaves_prefix(s, h, k - 1);
            State::lemma_leaves_are_span(s, c);
            let mid = if k - 1 == 0 {
                nodes[h].start as int
            } else {
                nodes[cs[k - 2] as int].stop as int
            };
            assert(nodes[c].start == mid);
            State::lemma_node_nonempty(s, c);
            assert(leaves_of(nodes, h, k) == leaves_of(nodes, h, k - 1) + leaves_of(nodes, c, children_of(nodes[c]).len() as int));
            assert(leaves_of(nodes, h, k) =~= positions(nodes[h].start as int, nodes[c].stop as int));
        }
    }
}

} // verus!
