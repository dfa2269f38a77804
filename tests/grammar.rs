use ladle::grammar::{CFGProduction, CFGRule, CFG};
use ladle::symbols::{NonTerm, Symbol, Term};

fn t(i: usize) -> Symbol {
    Symbol::Terminal { val: Term(i) }
}

#[test]
fn cfg_rule_becomes_base_and_successors() {
    let rule = CFGRule { result: NonTerm(3), variant: 2, nodes: vec![t(0), t(1), t(2)] };
    let mut out = Vec::new();
    rule.append_mid_rules(&mut out);
    assert_eq!(out.len(), 1);
    assert_eq!(out[0].result, NonTerm(3));
    assert_eq!(out[0].variant, 2);
    assert_eq!(*out[0].base(), t(0));
    assert!(out[0].predecessors.is_empty());
    assert_eq!(out[0].successors, vec![t(1), t(2)]);

    let empty = CFGRule { result: NonTerm(0), variant: 0, nodes: vec![] };
    empty.append_mid_rules(&mut out);
    assert_eq!(out.len(), 1);
}

#[test]
fn cfg_as_mid_grammar_skips_empty_productions() {
    let cfg = CFG {
        start_symbol: NonTerm(0),
        rules: vec![
            CFGProduction { left: NonTerm(0), right: vec![t(5)] },
            CFGProduction { left: NonTerm(1), right: vec![] },
            CFGProduction { left: NonTerm(1), right: vec![t(6), Symbol::NonTerminal { val: NonTerm(0) }] },
        ],
    };
    let mid = cfg.as_mid_grammar();
    assert_eq!(mid.len(), 2);
    assert_eq!((mid[0].result, mid[0].variant, mid[0].base), (NonTerm(0), 0, t(5)));
    assert_eq!((mid[1].result, mid[1].variant, mid[1].base), (NonTerm(1), 2, t(6)));
    assert_eq!(mid[1].successors, vec![Symbol::NonTerminal { val: NonTerm(0) }]);
}
