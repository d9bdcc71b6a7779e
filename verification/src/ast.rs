//! The grammar AST and the flat BNF model.
//!
//! Symbol names and terminal literals are byte strings.  Terminal literals
//! keep their surrounding single quotes; the payload is the inner substring.
//! The reserved name `_` denotes epsilon in the surface syntax and the
//! reserved terminal `#` is the end-of-input sentinel, used only in
//! FOLLOW sets and parse tables.

use vstd::prelude::*;

verus! {

/// A production of the source grammar.  Alternation is not a node: a rule
/// carries its alternatives as a list.
pub enum Prod {
    /// Ordered binary concatenation; sequences linearize left-to-right.
    Concat(Box<Prod>, Box<Prod>),
    /// A quoted literal, stored with its quotes.
    Terminal(Vec<u8>),
    /// A reference to a rule by name.
    NonTerminal(Vec<u8>),
    /// Zero or one occurrence.
    Optional(Box<Prod>),
    /// Zero or more occurrences.
    Star(Box<Prod>),
    /// One or more occurrences.
    Plus(Box<Prod>),
    /// The empty string.
    Eps,
}

/// A named rule: one nonterminal with its ordered, non-empty list of
/// alternatives.
pub struct RuleDef {
    pub name: Vec<u8>,
    pub prod: Vec<Prod>,
}

/// A whole grammar: an ordered list of rules.  The first rule is the start
/// rule.
pub struct File {
    pub rules: Vec<RuleDef>,
}

/// A symbol of the flat BNF model.
pub enum FlatProd {
    /// A quoted literal, stored with its quotes.
    Terminal(Vec<u8>),
    /// A name; whether it is a nonterminal depends on whether any flat rule
    /// defines it.
    NonTerminal(Vec<u8>),
    /// The empty string; only ever the sole symbol of a rule.
    Eps,
}

/// A flat BNF rule: a name and a single alternative, as a flat sequence of
/// symbols.
pub struct FlatRuleDef {
    pub name: Vec<u8>,
    pub prod: Vec<FlatProd>,
}

impl FlatProd {
    /// The canonical textual name of a symbol: the stored text for terminals
    /// and nonterminals, `_` for epsilon.
    pub open spec fn spec_name(&self) -> Seq<u8> {
        match self {
            FlatProd::Terminal(t) => t@,
            FlatProd::NonTerminal(n) => n@,
            FlatProd::Eps => seq![95u8],
        }
    }

    /// Variant rank; used for the canonical symbol order.
    pub open spec fn rank(&self) -> int {
        match self {
            FlatProd::Terminal(_) => 0,
            FlatProd::NonTerminal(_) => 1,
            FlatProd::Eps => 2,
        }
    }

    pub open spec fn spec_is_eps(&self) -> bool {
        match self {
            FlatProd::Eps => true,
            _ => false,
        }
    }

    pub fn name(&self) -> (r: Vec<u8>)
        ensures
            r@ == self.spec_name(),
    {
        match self {
            FlatProd::Terminal(t) => crate::bytes::copy_bytes(t),
            FlatProd::NonTerminal(n) => crate::bytes::copy_bytes(n),
            FlatProd::Eps => {
                let mut r: Vec<u8> = Vec::new();
                r.push(95);
                assert(r@ =~= seq![95u8]);
                r
            },
        }
    }

    pub fn is_eps(&self) -> (r: bool)
        ensures
            r == self.spec_is_eps(),
    {
        match self {
            FlatProd::Eps => true,
            _ => false,
        }
    }
}

/// Two flat symbols are the same when they have the same variant and the
/// same text.
pub open spec fn sym_eq(a: FlatProd, b: FlatProd) -> bool {
    a.rank() == b.rank() && a.spec_name() == b.spec_name()
}

/// The canonical strict order on flat symbols: terminals before
/// nonterminals before epsilon, and lexicographic on the text within a
/// variant.
pub open spec fn sym_lt(a: FlatProd, b: FlatProd) -> bool {
    a.rank() < b.rank() || (a.rank() == b.rank() && crate::bytes::lex_lt(
        a.spec_name(),
        b.spec_name(),
    ))
}

/// Decide `sym_eq`.
pub fn flat_eq(a: &FlatProd, b: &FlatProd) -> (r: bool)
    ensures
        r == sym_eq(*a, *b),
{
    match (a, b) {
        (FlatProd::Terminal(x), FlatProd::Terminal(y)) => crate::bytes::bytes_eq(x, y),
        (FlatProd::NonTerminal(x), FlatProd::NonTerminal(y)) => crate::bytes::bytes_eq(x, y),
        (FlatProd::Eps, FlatProd::Eps) => true,
        _ => false,
    }
}

/// Decide `sym_lt`.
pub fn flat_lt(a: &FlatProd, b: &FlatProd) -> (r: bool)
    ensures
        r == sym_lt(*a, *b),
{
    let ra = flat_rank(a);
    let rb = flat_rank(b);
    if ra < rb {
        true
    } else if ra > rb {
        false
    } else {
        let na = a.name();
        let nb = b.name();
        crate::bytes::bytes_lt(&na, &nb)
    }
}

fn flat_rank(a: &FlatProd) -> (r: usize)
    ensures
        r == a.rank(),
{
    match a {
        FlatProd::Terminal(_) => 0,
        FlatProd::NonTerminal(_) => 1,
        FlatProd::Eps => 2,
    }
}

/// A fresh copy of a flat symbol.
pub fn copy_flat(a: &FlatProd) -> (r: FlatProd)
    ensures
        sym_eq(*a, r),
{
    match a {
        FlatProd::Terminal(t) => FlatProd::Terminal(crate::bytes::copy_bytes(t)),
        FlatProd::NonTerminal(n) => FlatProd::NonTerminal(crate::bytes::copy_bytes(n)),
        FlatProd::Eps => FlatProd::Eps,
    }
}

/// A well-formed flat rule: a non-empty alternative in which epsilon, if
/// present, is the only symbol.
pub open spec fn wf_flat_rule(r: FlatRuleDef) -> bool {
    &&& r.prod.len() >= 1
    &&& (forall|i: int| 0 <= i < r.prod@.len() ==> !r.prod@[i].spec_is_eps()) || (r.prod.len() == 1
        && r.prod@[0].spec_is_eps())
}

/// The name `n` is defined by some rule of `rules`.
pub open spec fn defines(rules: Seq<FlatRuleDef>, n: Seq<u8>) -> bool {
    exists|r: int| 0 <= r < rules.len() && rules[r].name@ == n
}


/// A flat symbol at the specification level: the variant with its text as
/// a sequence.
pub enum SymModel {
    Term(Seq<u8>),
    NonTerm(Seq<u8>),
    Empty,
}

/// A flat rule at the specification level.
pub struct FlatRuleModel {
    pub name: Seq<u8>,
    pub syms: Seq<SymModel>,
}

impl FlatProd {
    /// The specification-level value of this symbol.
    pub open spec fn model(&self) -> SymModel {
        match self {
            FlatProd::Terminal(t) => SymModel::Term(t@),
            FlatProd::NonTerminal(n) => SymModel::NonTerm(n@),
            FlatProd::Eps => SymModel::Empty,
        }
    }
}

impl FlatRuleDef {
    /// The specification-level value of this rule.
    pub open spec fn model(&self) -> FlatRuleModel {
        FlatRuleModel { name: self.name@, syms: syms_model(self.prod@) }
    }
}

/// The specification-level value of a symbol sequence.
pub open spec fn syms_model(s: Seq<FlatProd>) -> Seq<SymModel> {
    Seq::new(s.len(), |i: int| s[i].model())
}

/// The specification-level value of a rule sequence.
pub open spec fn rules_model(s: Seq<FlatRuleDef>) -> Seq<FlatRuleModel> {
    Seq::new(s.len(), |i: int| s[i].model())
}

} // verus!
