//! Grammars: Mid-Rule rules, the index from base symbols to rules, and
//! context-free rules with their Mid-Rule form.

use vstd::prelude::*;
use crate::symbols::{NonTerm, Symbol};
use std::collections::HashMap;

verus! {

/// A rule of a Mid-Rule grammar.
///
/// A rule is anchored at its `base` symbol. The `predecessors` must occur to the
/// left of the base, listed innermost first (index 0 is adjacent to the base);
/// the `successors` must occur to its right, listed leftmost first.
#[derive(Debug)]
pub struct MidRule {
    /// The non-terminal produced by a successful application of this rule
    pub result: NonTerm,
    /// Distinguishes this rule among rules that produce the same result
    pub variant: usize,
    /// The symbol this rule is anchored at
    pub base: Symbol,
    /// The symbols required before the base, innermost first
    pub predecessors: Vec<Symbol>,
    /// The symbols required after the base, leftmost first
    pub successors: Vec<Symbol>,
}

/// Number of symbols in the surface form of a rule.
pub open spec fn pattern_len(rule: MidRule) -> int {
    (rule.predecessors@.len() + 1 + rule.successors@.len()) as int
}

/// The symbol at surface position `j` of a rule: the predecessors reversed, then
/// the base, then the successors.
pub open spec fn pattern_at(rule: MidRule, j: int) -> Symbol {
    let p = rule.predecessors@.len();
    if j < p {
        rule.predecessors@[p - 1 - j]
    } else if j == p {
        rule.base
    } else {
        rule.successors@[j - p - 1]
    }
}

impl MidRule {
    /// The symbol this rule is anchored at.
    pub fn base(&self) -> (r: &Symbol)
        ensures
            *r == self.base,
    {
        &self.base
    }
}

/// The rule handles, in increasing order, among the first `upto` rules whose
/// base is `sym`.
pub open spec fn rules_with_base(rules: Seq<MidRule>, sym: Symbol, upto: int) -> Seq<usize>
    decreases upto,
{
    if upto <= 0 {
        Seq::empty()
    } else if rules[upto - 1].base == sym {
        rules_with_base(rules, sym, upto - 1).push((upto - 1) as usize)
    } else {
        rules_with_base(rules, sym, upto - 1)
    }
}

/// A handle is listed for `sym` exactly when it is the handle of a rule whose
/// base is `sym`.
pub proof fn lemma_rules_with_base(rules: Seq<MidRule>, sym: Symbol, upto: int, r: usize)
    requires
        upto <= rules.len() <= usize::MAX,
    ensures
        rules_with_base(rules, sym, upto).contains(r) <==> (r < upto && rules[r as int].base == sym),
        forall|k: int| 0 <= k < rules_with_base(rules, sym, upto).len() ==> #[trigger] rules_with_base(rules, sym, upto)[k] < upto,
    decreases upto,
{
    if upto > 0 {
        lemma_rules_with_base(rules, sym, upto - 1, r);
        let prev = rules_with_base(rules, sym, upto - 1);
        if rules[upto - 1].base == sym {
            assert(rules_with_base(rules, sym, upto) == prev.push((upto - 1) as usize));
            if r == upto - 1 {
                assert(prev.push((upto - 1) as usize)[prev.len() as int] == r);
            }
            if prev.contains(r) {
                let k = choose|k: int| 0 <= k < prev.len() && prev[k] == r;
                assert(prev.push((upto - 1) as usize)[k] == r);
            }
            let cur = prev.push((upto - 1) as usize);
            if cur.contains(r) {
                let k = choose|k: int| 0 <= k < cur.len() && cur[k] == r;
                if k < prev.len() {
                    assert(prev[k] == r);
                }
            }
        } else {
            assert(rules_with_base(rules, sym, upto) == prev);
            assert(r == upto - 1 ==> rules[r as int].base != sym);
        }
    } else {
        assert(rules_with_base(rules, sym, upto).len() == 0);
    }
}

/// Maps each base symbol to the handles of the rules anchored at it.
pub struct RuleIndex {
    by_terminal: HashMap<usize, Vec<usize>>,
    by_non_terminal: HashMap<usize, Vec<usize>>,
}

impl RuleIndex {
    /// The rule handles stored for `sym`.
    pub closed spec fn lookup(&self, sym: Symbol) -> Seq<usize> {
        let (m, k) = match sym {
            Symbol::Terminal { val } => (self.by_terminal@, val.0),
            Symbol::NonTerminal { val } => (self.by_non_terminal@, val.0),
        };
        if m.contains_key(k) {
            m[k]@
        } else {
            Seq::empty()
        }
    }

    /// This index lists, for every symbol, exactly the rules anchored at it.
    pub open spec fn indexes(&self, rules: Seq<MidRule>) -> bool {
        forall|sym: Symbol| #[trigger] self.lookup(sym) == rules_with_base(rules, sym, rules.len() as int)
    }

    /// The handles of the rules anchored at `sym`, in increasing order.
    pub fn rules_for(&self, sym: &Symbol) -> (r: &[usize])
        ensures
            r@ == self.lookup(*sym),
    {
        broadcast use vstd::std_specs::hash::group_hash_axioms;
        let (m, k) = match sym {
            Symbol::Terminal { val } => (&self.by_terminal, val.0),
            Symbol::NonTerminal { val } => (&self.by_non_terminal, val.0),
        };
        match m.get(&k) {
            Some(v) => v.as_slice(),
            None => &[],
        }
    }
}

/// Pushes `idx` onto the list that `map` holds under `key`.
fn push_handle(map: &mut HashMap<usize, Vec<usize>>, key: usize, idx: usize)
    ensures
        final(map)@.dom() == old(map)@.dom().insert(key),
        forall|k: usize| k != key && #[trigger] old(map)@.contains_key(k) ==> final(map)@[k] == old(map)@[k],
        final(map)@[key]@ == if old(map)@.contains_key(key) {
            old(map)@[key]@.push(idx)
        } else {
            seq![idx]
        },
{
    broadcast use vstd::std_specs::hash::group_hash_axioms;
    match map.remove(&key) {
        Some(mut v) => {
            v.push(idx);
            map.insert(key, v);
        },
        None => {
            map.insert(key, vec![idx]);
        },
    }
}

/// Builds the index from each base symbol to the rules anchored at it.
pub fn make_rule_map(rules: &Vec<MidRule>) -> (r: RuleIndex)
    ensures
        r.indexes(rules@),
{
    broadcast use vstd::std_specs::hash::group_hash_axioms;
    let mut index = RuleIndex { by_terminal: HashMap::new(), by_non_terminal: HashMap::new() };
    let mut i: usize = 0;
    while i < rules.len()
        invariant
            i <= rules@.len(),
            forall|sym: Symbol| #[trigger] index.lookup(sym) == rules_with_base(rules@, sym, i as int),
        decreases rules@.len() - i,
    {
        let ghost before = index;
        match rules[i].base {
            Symbol::Terminal { val } => push_handle(&mut index.by_terminal, val.0, i),
            Symbol::NonTerminal { val } => push_handle(&mut index.by_non_terminal, val.0, i),
        }
        assert forall|sym: Symbol| #[trigger] index.lookup(sym) == rules_with_base(rules@, sym, i + 1) by {
            assert(before.lookup(sym) == rules_with_base(rules@, sym, i as int));
        }
        i = i + 1;
    }
    index
}

/// `sym` is among the first `n_terms` terminals or the first `n_non_terms`
/// non-terminals.
pub open spec fn symbol_in_range(sym: Symbol, n_terms: usize, n_non_terms: usize) -> bool {
    match sym {
        Symbol::Terminal { val } => val.0 < n_terms,
        Symbol::NonTerminal { val } => val.0 < n_non_terms,
    }
}

/// Every symbol that `rule` names is in range.
pub open spec fn rule_in_range(rule: MidRule, n_terms: usize, n_non_terms: usize) -> bool {
    &&& rule.result.0 < n_non_terms
    &&& symbol_in_range(rule.base, n_terms, n_non_terms)
    &&& forall|i: int| 0 <= i < rule.predecessors@.len() ==> symbol_in_range(#[trigger] rule.predecessors@[i], n_terms, n_non_terms)
    &&& forall|i: int| 0 <= i < rule.successors@.len() ==> symbol_in_range(#[trigger] rule.successors@[i], n_terms, n_non_terms)
}

/// Whether `sym` is in range.
pub fn check_symbol(sym: &Symbol, n_terms: usize, n_non_terms: usize) -> (r: bool)
    ensures
        r == symbol_in_range(*sym, n_terms, n_non_terms),
{
    match sym {
        Symbol::Terminal { val } => val.0 < n_terms,
        Symbol::NonTerminal { val } => val.0 < n_non_terms,
    }
}

/// Whether every symbol of `syms` is in range.
fn check_symbols(syms: &Vec<Symbol>, n_terms: usize, n_non_terms: usize) -> (r: bool)
    ensures
        r == forall|i: int| 0 <= i < syms@.len() ==> symbol_in_range(#[trigger] syms@[i], n_terms, n_non_terms),
{
    let mut i: usize = 0;
    while i < syms.len()
        invariant
            i <= syms@.len(),
            forall|k: int| 0 <= k < i ==> symbol_in_range(#[trigger] syms@[k], n_terms, n_non_terms),
        decreases syms@.len() - i,
    {
        if !check_symbol(&syms[i], n_terms, n_non_terms) {
            return false;
        }
        i = i + 1;
    }
    true
}

impl MidRule {
    /// Whether every symbol this rule names is in range.
    pub fn in_range(&self, n_terms: usize, n_non_terms: usize) -> (r: bool)
        ensures
            r == rule_in_range(*self, n_terms, n_non_terms),
    {
        self.result.0 < n_non_terms && check_symbol(&self.base, n_terms, n_non_terms) && check_symbols(
            &self.predecessors,
            n_terms,
            n_non_terms,
        ) && check_symbols(&self.successors, n_terms, n_non_terms)
    }
}

/// A production of a context-free grammar: `left` derives the symbols `right`.
#[derive(Debug)]
pub struct CFGProduction {
    /// The non-terminal produced
    pub left: NonTerm,
    /// The symbols it derives, in order
    pub right: Vec<Symbol>,
}

/// A context-free grammar: a start symbol and a list of productions.
#[derive(Debug)]
pub struct CFG {
    /// The symbol a full parse produces
    pub start_symbol: NonTerm,
    /// The productions which make up the grammar
    pub rules: Vec<CFGProduction>,
}

/// A context-free rule with a variant number.
#[derive(Debug)]
pub struct CFGRule {
    /// The non-terminal produced by this rule
    pub result: NonTerm,
    /// Distinguishes this rule among rules that produce the same result
    pub variant: usize,
    /// The symbols that must appear in sequence for this rule to apply
    pub nodes: Vec<Symbol>,
}

/// `m` is the Mid-Rule form of a context-free rule with a non-empty right
/// side: its first symbol is the base, the others are the successors.
pub open spec fn is_mid_form(m: MidRule, result: NonTerm, variant: usize, nodes: Seq<Symbol>) -> bool {
    &&& nodes.len() > 0
    &&& m.result == result
    &&& m.variant == variant
    &&& m.base == nodes[0]
    &&& m.predecessors@.len() == 0
    &&& m.successors@ == nodes.drop_first()
}

/// The rules, with their variants, that the first `upto` productions put in
/// Mid-Rule form: the productions with a non-empty right side, the variant
/// being the index of the production.
pub open spec fn mid_forms(prods: Seq<CFGProduction>, upto: int) -> Seq<(NonTerm, usize, Seq<Symbol>)>
    decreases upto,
{
    if upto <= 0 {
        Seq::empty()
    } else if prods[upto - 1].right@.len() > 0 {
        mid_forms(prods, upto - 1).push((prods[upto - 1].left, (upto - 1) as usize, prods[upto - 1].right@))
    } else {
        mid_forms(prods, upto - 1)
    }
}

/// The Mid-Rule form of the rule `result -> nodes`, if `nodes` is not empty.
fn mid_rule_from(result: NonTerm, variant: usize, nodes: &Vec<Symbol>) -> (r: Option<MidRule>)
    ensures
        match r {
            Some(m) => is_mid_form(m, result, variant, nodes@),
            None => nodes@.len() == 0,
        },
{
    if nodes.len() == 0 {
        return None;
    }
    let mut successors: Vec<Symbol> = Vec::new();
    let mut i: usize = 1;
    while i < nodes.len()
        invariant
            1 <= i <= nodes@.len(),
            successors@ == nodes@.subrange(1, i as int),
        decreases nodes@.len() - i,
    {
        successors.push(nodes[i]);
        i = i + 1;
        assert(successors@ =~= nodes@.subrange(1, i as int));
    }
    assert(successors@ =~= nodes@.drop_first());
    Some(MidRule { result, variant, base: nodes[0], predecessors: Vec::new(), successors })
}

impl CFGRule {
    /// Appends the Mid-Rule form of this rule to `mid_rules`; a rule with an
    /// empty right side has none.
    pub fn append_mid_rules(&self, mid_rules: &mut Vec<MidRule>)
        ensures
            self.nodes@.len() == 0 ==> final(mid_rules)@ == old(mid_rules)@,
            self.nodes@.len() > 0 ==> {
                &&& final(mid_rules)@.len() == old(mid_rules)@.len() + 1
                &&& final(mid_rules)@.drop_last() == old(mid_rules)@
                &&& is_mid_form(final(mid_rules)@.last(), self.result, self.variant, self.nodes@)
            },
    {
        match mid_rule_from(self.result, self.variant, &self.nodes) {
            Some(m) => {
                mid_rules.push(m);
                assert(final(mid_rules)@.drop_last() =~= old(mid_rules)@);
            },
            None => {},
        }
    }
}

impl CFG {
    /// The grammar in Mid-Rule form, by this crate's own conversion: one rule
    /// per production with a non-empty right side, anchored at its first
    /// symbol with the rest as successors, in the order of the productions,
    /// with the index of the production as its variant. A production with an
    /// empty right side has no Mid-Rule form (a base is required) and is left
    /// out.
    pub fn as_mid_grammar(&self) -> (r: Vec<MidRule>)
        ensures
            r@.len() == mid_forms(self.rules@, self.rules@.len() as int).len(),
            forall|k: int|
                0 <= k < r@.len() ==> {
                    let f = #[trigger] mid_forms(self.rules@, self.rules@.len() as int)[k];
                    is_mid_form(r@[k], f.0, f.1, f.2)
                },
    {
        let mut mid_rules: Vec<MidRule> = Vec::new();
        let mut i: usize = 0;
        while i < self.rules.len()
            invariant
                i <= self.rules@.len(),
                mid_rules@.len() == mid_forms(self.rules@, i as int).len(),
                forall|k: int|
                    0 <= k < mid_rules@.len() ==> {
                        let f = #[trigger] mid_forms(self.rules@, i as int)[k];
                        is_mid_form(mid_rules@[k], f.0, f.1, f.2)
                    },
            decreases self.rules@.len() - i,
        {
            let prod = &self.rules[i];
            let ghost before = mid_rules@;
            match mid_rule_from(prod.left, i, &prod.right) {
                Some(m) => {
                    mid_rules.push(m);
                    proof {
                        let prev = mid_forms(self.rules@, i as int);
                        assert(mid_forms(self.rules@, i + 1) == prev.push((prod.left, i, prod.right@)));
                        assert forall|k: int| 0 <= k < mid_rules@.len() implies {
                            let f = #[trigger] mid_forms(self.rules@, i + 1)[k];
                            is_mid_form(mid_rules@[k], f.0, f.1, f.2)
                        } by {
                            if k < before.len() {
                                assert(mid_forms(self.rules@, i + 1)[k] == prev[k]);
                                assert(mid_rules@[k] == before[k]);
                            }
                        }
                    }
                },
                None => {
                    assert(mid_forms(self.rules@, i + 1) == mid_forms(self.rules@, i as int));
                },
            }
            i = i + 1;
        }
        mid_rules
    }
}

} // verus!