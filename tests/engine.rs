use ladle::engine::{GrammarError, NodeMeta, State, TreeNode};
use ladle::grammar::{make_rule_map, MidRule};
use ladle::symbols::{NonTerm, Symbol, Term};

fn t(i: usize) -> Symbol {
    Symbol::Terminal { val: Term(i) }
}

fn nt(i: usize) -> Symbol {
    Symbol::NonTerminal { val: NonTerm(i) }
}

fn rule(result: usize, base: Symbol, predecessors: Vec<Symbol>, successors: Vec<Symbol>) -> MidRule {
    MidRule { result: NonTerm(result), variant: 0, base, predecessors, successors }
}

const A: usize = 0;
const B: usize = 1;
const C: usize = 2;
const S: usize = 0;

fn parse(rules: Vec<MidRule>, tokens: Vec<Symbol>) -> State {
    let mut state = State::new(rules, tokens);
    state.run_till_done();
    assert!(state.done());
    state
}

fn children(state: &State, h: usize) -> Vec<usize> {
    match &state.get_node(h).meta {
        NodeMeta::NonTerminal { children, .. } => children.clone(),
        NodeMeta::Terminal { .. } => vec![],
    }
}

#[test]
fn single_rule_identity() {
    let state = parse(vec![rule(S, t(A), vec![], vec![])], vec![t(A)]);
    assert_eq!(state.node_count(), 2);
    assert_eq!(state.nodes_with_label_covering(t(A), 0, 1), vec![0]);
    let s = state.nodes_with_label_covering(nt(S), 0, 1);
    assert_eq!(s.len(), 1);
    assert_eq!(children(&state, s[0]), vec![0]);
}

#[test]
fn pure_successor_chain() {
    let state = parse(vec![rule(S, t(A), vec![], vec![t(B), t(C)])], vec![t(A), t(B), t(C)]);
    let s = state.nodes_with_label_covering(nt(S), 0, 3);
    assert_eq!(s.len(), 1);
    assert_eq!(children(&state, s[0]), vec![0, 1, 2]);
    assert!(state.nodes_with_label_covering(nt(S), 0, 2).is_empty());
    assert_eq!(state.node_count(), 4);
}

#[test]
fn pure_predecessor_chain() {
    let state = parse(vec![rule(S, t(C), vec![t(B), t(A)], vec![])], vec![t(A), t(B), t(C)]);
    let s = state.nodes_with_label_covering(nt(S), 0, 3);
    assert_eq!(s.len(), 1);
    assert_eq!(children(&state, s[0]), vec![0, 1, 2]);
    assert_eq!(state.node_count(), 4);
}

#[test]
fn mixed_context() {
    let l = t(0);
    let m = t(1);
    let r = t(2);
    let state = parse(vec![rule(S, m, vec![l], vec![r])], vec![l, m, r]);
    let s = state.nodes_with_label_covering(nt(S), 0, 3);
    assert_eq!(s.len(), 1);
    assert_eq!(children(&state, s[0]), vec![0, 1, 2]);
}

#[test]
fn ambiguity_with_dedup() {
    let rules = vec![rule(S, t(A), vec![], vec![t(A)]), rule(S, t(A), vec![], vec![])];
    let state = parse(rules, vec![t(A), t(A)]);
    assert_eq!(state.nodes_with_label_covering(nt(S), 0, 1).len(), 1);
    assert_eq!(state.nodes_with_label_covering(nt(S), 1, 2).len(), 1);
    assert_eq!(state.nodes_with_label_covering(nt(S), 0, 2).len(), 1);
    assert_eq!(state.node_count(), 5);
}

#[test]
fn non_match() {
    let state = parse(vec![rule(S, t(A), vec![], vec![t(B)])], vec![t(A), t(C)]);
    assert_eq!(state.node_count(), 2);
    assert!(state.nodes_with_label_covering(nt(S), 0, 2).is_empty());
}

#[test]
fn empty_input_has_no_nodes() {
    let state = parse(vec![rule(S, t(A), vec![], vec![])], vec![]);
    assert_eq!(state.node_count(), 0);
    assert_eq!(state.token_count(), 0);
}

#[test]
fn no_rules_leaves_only_terminals() {
    let state = parse(vec![], vec![t(A), t(B), t(A)]);
    assert_eq!(state.node_count(), 3);
    for h in 0..3 {
        assert!(matches!(state.get_node(h).meta, NodeMeta::Terminal { token_idx } if token_idx == h));
    }
}

#[test]
fn cyclic_unit_rule_terminates() {
    let rules = vec![rule(S, t(A), vec![], vec![]), rule(S, nt(S), vec![], vec![])];
    let state = parse(rules, vec![t(A)]);
    // a from the token, S from a, S from that S; the next S from S is a duplicate
    assert_eq!(state.node_count(), 3);
    assert_eq!(state.nodes_with_label_covering(nt(S), 0, 1).len(), 2);
}

#[test]
fn node_produced_in_later_cycle_is_used_as_base() {
    // B <- b ; S <- B with predecessor a
    let rules = vec![rule(B, t(B), vec![], vec![]), rule(S, nt(B), vec![t(A)], vec![])];
    let state = parse(rules, vec![t(A), t(B)]);
    let s = state.nodes_with_label_covering(nt(S), 0, 2);
    assert_eq!(s.len(), 1);
    assert_eq!(state.get_node(s[0]).start, 0);
    assert_eq!(state.get_node(s[0]).stop, 2);
}

#[test]
fn step_by_step_matches_single_run() {
    let rules = || vec![rule(B, t(B), vec![], vec![]), rule(S, nt(B), vec![t(A)], vec![t(C)]), rule(A, nt(S), vec![], vec![])];
    let tokens = vec![t(A), t(B), t(C)];
    let whole = parse(rules(), tokens.clone());
    let mut stepped = State::new(rules(), tokens);
    stepped.run_cycle();
    stepped.run_cycle();
    stepped.run_till_done();
    assert_eq!(whole.node_count(), stepped.node_count());
    assert_eq!(whole.nodes_covering(0, 3), stepped.nodes_covering(0, 3));
}

#[test]
fn derivation_tree_leaves_are_the_tokens() {
    let state = parse(vec![rule(S, t(B), vec![t(A)], vec![t(C)])], vec![t(A), t(B), t(C)]);
    let trees = state.get_parsed_trees(nt(S));
    assert_eq!(trees.len(), 1);
    match &trees[0] {
        TreeNode::NonTerminal { rule, variant, children } => {
            assert_eq!(*rule, NonTerm(S));
            assert_eq!(*variant, 0);
            let leaves: Vec<usize> = children
                .iter()
                .map(|c| match c {
                    TreeNode::Terminal { index } => *index,
                    TreeNode::NonTerminal { .. } => usize::MAX,
                })
                .collect();
            assert_eq!(leaves, vec![0, 1, 2]);
        },
        TreeNode::Terminal { .. } => panic!("expected a non-terminal"),
    }
    assert!(state.build_tree(99).is_none());
    assert!(state.node(99).is_none());
}

#[test]
fn rule_index_lists_rules_by_base() {
    let rules = vec![rule(S, t(A), vec![], vec![]), rule(S, t(B), vec![], vec![]), rule(S, t(A), vec![], vec![t(B)])];
    let index = make_rule_map(&rules);
    assert_eq!(index.rules_for(&t(A)), &[0, 2]);
    assert_eq!(index.rules_for(&t(B)), &[1]);
    assert!(index.rules_for(&nt(A)).is_empty());
}

#[test]
fn new_checked_reports_first_rule_out_of_range() {
    let rules = vec![rule(S, t(A), vec![], vec![]), rule(S, t(9), vec![], vec![]), rule(7, t(A), vec![], vec![])];
    match State::new_checked(rules, vec![t(A)], 3, 1) {
        Err(GrammarError::RuleOutOfRange { rule }) => assert_eq!(rule, 1),
        _ => panic!("expected a rule out of range"),
    }
}

#[test]
fn new_checked_reports_token_out_of_range() {
    let rules = vec![rule(S, t(A), vec![t(B)], vec![t(C)])];
    match State::new_checked(rules, vec![t(A), t(5), t(6)], 3, 1) {
        Err(GrammarError::TokenOutOfRange { index }) => assert_eq!(index, 1),
        _ => panic!("expected a token out of range"),
    }
}

#[test]
fn new_checked_accepts_symbols_in_range() {
    let rules = vec![rule(S, t(A), vec![], vec![t(B)])];
    let mut state = State::new_checked(rules, vec![t(A), t(B)], 2, 1).unwrap();
    state.run_till_done();
    assert_eq!(state.nodes_with_label_covering(nt(S), 0, 2).len(), 1);
}

#[test]
fn chart_lists_each_node_at_its_ends() {
    let state = parse(vec![rule(S, t(B), vec![t(A)], vec![]), rule(A, nt(S), vec![], vec![t(C)])], vec![t(A), t(B), t(C)]);
    for h in 0..state.node_count() {
        let n = state.get_node(h);
        assert!(state.get_table_entry(n.start).started.contains(&h));
        assert!(state.get_table_entry(n.stop).terminated.contains(&h));
    }
}

#[test]
fn children_labels_follow_the_rule() {
    let state = parse(vec![rule(S, t(C), vec![t(B), t(A)], vec![t(A)])], vec![t(A), t(B), t(C), t(A)]);
    let s = state.nodes_with_label_covering(nt(S), 0, 4);
    assert_eq!(s.len(), 1);
    let labels: Vec<Symbol> = children(&state, s[0]).iter().map(|&c| state.get_node(c).label).collect();
    assert_eq!(labels, vec![t(A), t(B), t(C), t(A)]);
    let kids = children(&state, s[0]);
    assert_eq!(state.get_node(kids[0]).start, 0);
    for w in kids.windows(2) {
        assert_eq!(state.get_node(w[0]).stop, state.get_node(w[1]).start);
    }
    assert_eq!(state.get_node(kids[3]).stop, 4);
}

#[test]
fn repeated_runs_agree() {
    let rules = || vec![rule(S, t(A), vec![], vec![t(A)]), rule(S, t(A), vec![], vec![]), rule(S, nt(S), vec![], vec![nt(S)])];
    let tokens = vec![t(A), t(A), t(A)];
    let first = parse(rules(), tokens.clone());
    let second = parse(rules(), tokens);
    assert_eq!(first.node_count(), second.node_count());
    for start in 0..3 {
        for stop in start + 1..4 {
            assert_eq!(first.nodes_covering(start, stop), second.nodes_covering(start, stop));
        }
    }
}

#[test]
fn bounded_run_stops_early_and_resumes() {
    let rules = || vec![rule(B, t(B), vec![], vec![]), rule(S, nt(B), vec![t(A)], vec![]), rule(C, nt(S), vec![], vec![])];
    let tokens = vec![t(A), t(B)];
    let mut partial = State::new(rules(), tokens.clone());
    assert!(!partial.run_bounded(1));
    assert_eq!(partial.node_count(), 3);
    assert!(partial.run_bounded(10));
    let whole = parse(rules(), tokens);
    assert_eq!(partial.node_count(), whole.node_count());
    assert_eq!(partial.nodes_covering(0, 2), whole.nodes_covering(0, 2));
    let mut idle = State::new(rules(), vec![]);
    assert!(idle.run_bounded(0));
}

#[test]
fn new_indexes_each_terminal_in_the_chart() {
    let state = State::new(vec![], vec![t(A), t(B), t(C)]);
    for i in 0..3 {
        let n = state.get_node(i);
        assert_eq!((n.start, n.stop), (i, i + 1));
        assert!(matches!(n.meta, NodeMeta::Terminal { token_idx } if token_idx == i));
        assert_eq!(state.get_table_entry(i).started, vec![i]);
        assert_eq!(state.get_table_entry(i + 1).terminated, vec![i]);
    }
    assert!(state.get_table_entry(0).terminated.is_empty());
    assert!(state.get_table_entry(3).started.is_empty());
}

#[test]
fn scenario_e_nodes_and_children() {
    let rules = vec![rule(S, t(A), vec![], vec![t(A)]), rule(S, t(A), vec![], vec![])];
    let state = parse(rules, vec![t(A), t(A)]);
    let whole = state.nodes_with_label_covering(nt(S), 0, 2);
    assert_eq!(whole.len(), 1);
    assert_eq!(children(&state, whole[0]), vec![0, 1]);
}
