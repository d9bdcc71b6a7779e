//! The flattener: rewrites a grammar over
//! `{Concat, Optional, Star, Plus, Terminal, NonTerminal, Eps}` into an
//! equivalent list of flat BNF rules, one alternative each, over
//! `{Terminal, NonTerminal, Eps}`.
//!
//! Each `Optional`, `Star` or `Plus` occurrence inside a rule named `N` is
//! replaced by a reference to a fresh auxiliary nonterminal `N_optK` or
//! `N_starK` (`K` a monotonically increasing counter), together with the two
//! rules that define it; `Plus(x)` is lowered to `x x*`.  Epsilon symbols
//! inside concatenations are dropped, so epsilon only ever appears as the
//! sole symbol of a rule.  Termination is structural: the rewrite is a
//! single recursive walk of each alternative, so the traversal order — and
//! with it the output — is fixed.

use crate::ast::{FlatProd, FlatRuleDef, FlatRuleModel, File, Prod, RuleDef, SymModel, defines, rules_model, syms_model, wf_flat_rule};
use crate::bytes::{copy_bytes, dec_digits, push_bytes, render_usize};
use vstd::prelude::*;

verus! {

/// The number of fresh names that flattening a production allocates:
/// one per `Optional` or `Star`; `Plus(x)` is lowered to `x x*`, so it
/// allocates one for the star with the operators of `x` walked twice.
pub open spec fn op_count(p: Prod) -> nat
    decreases p,
{
    match p {
        Prod::Concat(l, r) => op_count(*l) + op_count(*r),
        Prod::Optional(o) => 1 + op_count(*o),
        Prod::Star(o) => 1 + op_count(*o),
        Prod::Plus(o) => 1 + 2 * op_count(*o),
        _ => 0,
    }
}

pub open spec fn prods_op_count(s: Seq<Prod>) -> nat
    decreases s.len(),
{
    if s.len() == 0 {
        0
    } else {
        op_count(s[0]) + prods_op_count(s.skip(1))
    }
}

pub open spec fn rules_op_count(s: Seq<RuleDef>) -> nat
    decreases s.len(),
{
    if s.len() == 0 {
        0
    } else {
        prods_op_count(s[0].prod@) + rules_op_count(s.skip(1))
    }
}

/// The terminal text `t` occurs somewhere in the production.
pub open spec fn prod_has_term(p: Prod, t: Seq<u8>) -> bool
    decreases p,
{
    match p {
        Prod::Concat(l, r) => prod_has_term(*l, t) || prod_has_term(*r, t),
        Prod::Terminal(s) => s@ == t,
        Prod::NonTerminal(_) => false,
        Prod::Optional(o) => prod_has_term(*o, t),
        Prod::Star(o) => prod_has_term(*o, t),
        Prod::Plus(o) => prod_has_term(*o, t),
        Prod::Eps => false,
    }
}

pub open spec fn file_has_term(f: File, t: Seq<u8>) -> bool {
    exists|i: int, j: int|
        0 <= i < f.rules@.len() && 0 <= j < f.rules@[i].prod@.len() && prod_has_term(
            f.rules@[i].prod@[j],
            t,
        )
}

/// The terminal text `t` occurs in a flat symbol sequence.
pub open spec fn syms_have_term(s: Seq<FlatProd>, t: Seq<u8>) -> bool {
    exists|i: int| #![trigger s[i]] 0 <= i < s.len() && (s[i] matches FlatProd::Terminal(x) && x@ == t)
}

/// The terminal text `t` occurs in some rule of the list.
pub open spec fn rules_have_term(rs: Seq<FlatRuleDef>, t: Seq<u8>) -> bool {
    exists|r: int| 0 <= r < rs.len() && syms_have_term(rs[r].prod@, t)
}

proof fn lemma_syms_term_concat(a: Seq<FlatProd>, b: Seq<FlatProd>)
    ensures
        forall|t: Seq<u8>| #![auto]
            syms_have_term(a + b, t) <==> (syms_have_term(a, t) || syms_have_term(b, t)),
{
    assert forall|t: Seq<u8>| #![auto]
        syms_have_term(a + b, t) <==> (syms_have_term(a, t) || syms_have_term(b, t)) by {
        if syms_have_term(a + b, t) {
            let i = choose|i: int|
                #![trigger (a + b)[i]]
                0 <= i < (a + b).len() && ((a + b)[i] matches FlatProd::Terminal(x) && x@ == t);
            if i < a.len() {
                assert(a[i] == (a + b)[i]);
            } else {
                assert(b[i - a.len()] == (a + b)[i]);
            }
        }
        if syms_have_term(a, t) {
            let i = choose|i: int|
                #![trigger a[i]]
                0 <= i < a.len() && (a[i] matches FlatProd::Terminal(x) && x@ == t);
            assert((a + b)[i] == a[i]);
        }
        if syms_have_term(b, t) {
            let i = choose|i: int|
                #![trigger b[i]]
                0 <= i < b.len() && (b[i] matches FlatProd::Terminal(x) && x@ == t);
            assert((a + b)[i + a.len()] == b[i]);
        }
    }
}

proof fn lemma_rules_term_concat(a: Seq<FlatRuleDef>, b: Seq<FlatRuleDef>)
    ensures
        forall|t: Seq<u8>| #![auto]
            rules_have_term(a + b, t) <==> (rules_have_term(a, t) || rules_have_term(b, t)),
{
    assert forall|t: Seq<u8>| #![auto]
        rules_have_term(a + b, t) <==> (rules_have_term(a, t) || rules_have_term(b, t)) by {
        if rules_have_term(a + b, t) {
            let r = choose|r: int| 0 <= r < (a + b).len() && syms_have_term((a + b)[r].prod@, t);
            if r < a.len() {
                assert(a[r] == (a + b)[r]);
            } else {
                assert(b[r - a.len()] == (a + b)[r]);
            }
        }
        if rules_have_term(a, t) {
            let r = choose|r: int| 0 <= r < a.len() && syms_have_term(a[r].prod@, t);
            assert((a + b)[r] == a[r]);
        }
        if rules_have_term(b, t) {
            let r = choose|r: int| 0 <= r < b.len() && syms_have_term(b[r].prod@, t);
            assert((a + b)[r + a.len()] == b[r]);
        }
    }
}

/// Appending a non-terminal symbol to a sequence leaves its terminals
/// unchanged.
proof fn lemma_syms_term_push_nonterm(s: Seq<FlatProd>, x: FlatProd)
    requires
        !(x matches FlatProd::Terminal(_)),
    ensures
        forall|t: Seq<u8>| #![auto] syms_have_term(s.push(x), t) <==> syms_have_term(s, t),
{
    assert forall|t: Seq<u8>| #![auto]
        syms_have_term(s.push(x), t) <==> syms_have_term(s, t) by {
        if syms_have_term(s.push(x), t) {
            let i = choose|i: int|
                #![trigger s.push(x)[i]]
                0 <= i < s.push(x).len() && (s.push(x)[i] matches FlatProd::Terminal(y) && y@ == t);
            assert(i < s.len() && s[i] == s.push(x)[i]);
        }
        if syms_have_term(s, t) {
            let i = choose|i: int|
                #![trigger s[i]]
                0 <= i < s.len() && (s[i] matches FlatProd::Terminal(y) && y@ == t);
            assert(s.push(x)[i] == s[i]);
        }
    }
}

/// The two defining rules of a fresh nonterminal, appended after the rules
/// of the recursive call, carry exactly the terminals of `body`.
proof fn lemma_tail_two(inner: Seq<FlatRuleDef>, r1: FlatRuleDef, r2: FlatRuleDef)
    requires
        r2.prod@.len() == 1,
        r2.prod@[0] == FlatProd::Eps,
    ensures
        forall|t: Seq<u8>| #![auto]
            rules_have_term(inner + seq![r1, r2], t) <==> (rules_have_term(inner, t)
                || syms_have_term(r1.prod@, t)),
{
    lemma_rules_term_concat(inner, seq![r1, r2]);
    assert forall|t: Seq<u8>| #![auto]
        rules_have_term(seq![r1, r2], t) <==> syms_have_term(r1.prod@, t) by {
        if rules_have_term(seq![r1, r2], t) {
            let r = choose|r: int| 0 <= r < 2 && syms_have_term(seq![r1, r2][r].prod@, t);
            if r == 1 {
                let i = choose|i: int|
                    #![trigger r2.prod@[i]]
                    0 <= i < r2.prod@.len() && (r2.prod@[i] matches FlatProd::Terminal(y)
                        && y@ == t);
                assert(false);
            }
        }
        if syms_have_term(r1.prod@, t) {
            assert(seq![r1, r2][0] == r1);
        }
    }
}

/// `lemma_tail_two`, instantiated at one terminal text.
proof fn lemma_tail_two_at(inner: Seq<FlatRuleDef>, r1: FlatRuleDef, r2: FlatRuleDef, t: Seq<u8>)
    requires
        r2.prod@.len() == 1,
        r2.prod@[0] == FlatProd::Eps,
    ensures
        rules_have_term(inner + seq![r1, r2], t) <==> (rules_have_term(inner, t)
            || syms_have_term(r1.prod@, t)),
{
    lemma_tail_two(inner, r1, r2);
}

/// `lemma_rules_term_concat`, instantiated at one terminal text.
proof fn lemma_rules_term_concat_at(a: Seq<FlatRuleDef>, b: Seq<FlatRuleDef>, t: Seq<u8>)
    ensures
        rules_have_term(a + b, t) <==> (rules_have_term(a, t) || rules_have_term(b, t)),
{
    lemma_rules_term_concat(a, b);
}


/// `s` when non-empty, else the single epsilon symbol: the body of a rule
/// built from a flattened alternative.
pub open spec fn body_or_eps(s: Seq<SymModel>) -> Seq<SymModel> {
    if s.len() == 0 {
        seq![SymModel::Empty]
    } else {
        s
    }
}

/// The epsilon alternative of an auxiliary nonterminal.
pub open spec fn eps_rule_model(n: Seq<u8>) -> FlatRuleModel {
    FlatRuleModel { name: n, syms: seq![SymModel::Empty] }
}

/// The flattening of one production under rule name `name` with the
/// auxiliary counter at `c`: the symbol sequence that replaces it, the
/// auxiliary rules it introduces in order, and the counter afterwards.
/// This is the functional specification that `flatten` realizes.
pub open spec fn flatten_prod_model(name: Seq<u8>, p: Prod, c: nat) -> (
    Seq<SymModel>,
    Seq<FlatRuleModel>,
    nat,
)
    decreases p,
{
    match p {
        Prod::Eps => (Seq::empty(), Seq::empty(), c),
        Prod::Terminal(t) => (seq![SymModel::Term(t@)], Seq::empty(), c),
        Prod::NonTerminal(n) => (seq![SymModel::NonTerm(n@)], Seq::empty(), c),
        Prod::Concat(l, r) => {
            let (s1, a1, c1) = flatten_prod_model(name, *l, c);
            let (s2, a2, c2) = flatten_prod_model(name, *r, c1);
            (s1 + s2, a1 + a2, c2)
        },
        Prod::Optional(o) => {
            let an = aux_name(name, false, c);
            let (s1, a1, c1) = flatten_prod_model(an, *o, c + 1);
            (
                seq![SymModel::NonTerm(an)],
                a1 + seq![FlatRuleModel { name: an, syms: body_or_eps(s1) }, eps_rule_model(an)],
                c1,
            )
        },
        Prod::Star(o) => {
            let an = aux_name(name, true, c);
            let (s1, a1, c1) = flatten_prod_model(an, *o, c + 1);
            (
                seq![SymModel::NonTerm(an)],
                a1 + seq![
                    FlatRuleModel { name: an, syms: s1.push(SymModel::NonTerm(an)) },
                    eps_rule_model(an),
                ],
                c1,
            )
        },
        Prod::Plus(o) => {
            let (s1, a1, c1) = flatten_prod_model(name, *o, c);
            let an = aux_name(name, true, c1);
            let (s2, a2, c2) = flatten_prod_model(an, *o, c1 + 1);
            (
                s1.push(SymModel::NonTerm(an)),
                (a1 + a2) + seq![
                    FlatRuleModel { name: an, syms: s2.push(SymModel::NonTerm(an)) },
                    eps_rule_model(an),
                ],
                c2,
            )
        },
    }
}

/// The flattening of the alternatives of one rule, in order: each
/// alternative's own rule directly followed by its auxiliaries.
pub open spec fn alts_model(name: Seq<u8>, prods: Seq<Prod>, c: nat) -> (
    Seq<FlatRuleModel>,
    nat,
)
    decreases prods.len(),
{
    if prods.len() == 0 {
        (Seq::empty(), c)
    } else {
        let (s, a, c1) = flatten_prod_model(name, prods[0], c);
        let (rest, c2) = alts_model(name, prods.skip(1), c1);
        ((seq![FlatRuleModel { name, syms: body_or_eps(s) }] + a) + rest, c2)
    }
}

/// The flattening of a rule list, in input order, threading one counter.
pub open spec fn rules_flat_model(rules: Seq<RuleDef>, c: nat) -> (Seq<FlatRuleModel>, nat)
    decreases rules.len(),
{
    if rules.len() == 0 {
        (Seq::empty(), c)
    } else {
        let (first_part, c1) = alts_model(rules[0].name@, rules[0].prod@, c);
        let (rest, c2) = rules_flat_model(rules.skip(1), c1);
        (first_part + rest, c2)
    }
}

/// The flattening of a whole grammar, from a fresh counter.
pub open spec fn flatten_model(f: File) -> Seq<FlatRuleModel> {
    rules_flat_model(f.rules@, 0).0
}

proof fn lemma_syms_model_concat(a: Seq<FlatProd>, b: Seq<FlatProd>)
    ensures
        syms_model(a + b) == syms_model(a) + syms_model(b),
{
    assert(syms_model(a + b) =~= syms_model(a) + syms_model(b));
}

proof fn lemma_rules_model_concat(a: Seq<FlatRuleDef>, b: Seq<FlatRuleDef>)
    ensures
        rules_model(a + b) == rules_model(a) + rules_model(b),
{
    assert(rules_model(a + b) =~= rules_model(a) + rules_model(b));
}

proof fn lemma_syms_model_push(s: Seq<FlatProd>, x: FlatProd)
    ensures
        syms_model(s.push(x)) == syms_model(s).push(x.model()),
{
    assert(syms_model(s.push(x)) =~= syms_model(s).push(x.model()));
}

/// The single-symbol epsilon alternative.
fn eps_prod() -> (r: Vec<FlatProd>)
    ensures
        r@.len() == 1,
        r@[0] == FlatProd::Eps,
{
    let mut r: Vec<FlatProd> = Vec::new();
    r.push(FlatProd::Eps);
    r
}

/// `name` followed by `_star` or `_opt` (chosen by `star`) and the decimal
/// digits of `k`.
pub open spec fn aux_name(name: Seq<u8>, star: bool, k: nat) -> Seq<u8> {
    if star {
        name + seq![95u8, 115u8, 116u8, 97u8, 114u8] + dec_digits(k)
    } else {
        name + seq![95u8, 111u8, 112u8, 116u8] + dec_digits(k)
    }
}

fn make_aux_name(name: &Vec<u8>, star: bool, k: usize) -> (r: Vec<u8>)
    ensures
        r@ == aux_name(name@, star, k as nat),
{
    let mut r = copy_bytes(name);
    r.push(95);
    if star {
        r.push(115);
        r.push(116);
        r.push(97);
        r.push(114);
        assert(r@ =~= name@ + seq![95u8, 115u8, 116u8, 97u8, 114u8]);
    } else {
        r.push(111);
        r.push(112);
        r.push(116);
        assert(r@ =~= name@ + seq![95u8, 111u8, 112u8, 116u8]);
    }
    let d = render_usize(k);
    push_bytes(&mut r, &d);
    r
}

/// Flatten one production under the rule name `name`.  The returned symbol
/// sequence never contains epsilon (a production that can only derive the
/// empty string returns the empty sequence); the defining rules of fresh
/// auxiliary nonterminals are appended to `aux`.  The rules added are all
/// well-formed and together with the returned symbols they carry exactly
/// the terminals of `p`.
#[verifier::rlimit(60)]
fn flatten_prod(name: &Vec<u8>, p: &Prod, counter: &mut usize, aux: &mut Vec<FlatRuleDef>) -> (syms:
    Vec<FlatProd>)
    requires
        *old(counter) + op_count(*p) <= usize::MAX,
    ensures
        *final(counter) == *old(counter) + op_count(*p),
        final(aux)@.len() >= old(aux)@.len(),
        final(aux)@.take(old(aux)@.len() as int) == old(aux)@,
        forall|k: int|
            old(aux)@.len() <= k < final(aux)@.len() ==> wf_flat_rule(#[trigger] final(aux)@[k]),
        forall|i: int| 0 <= i < syms@.len() ==> !(#[trigger] syms@[i]).spec_is_eps(),
        forall|t: Seq<u8>| #![auto]
            (syms_have_term(syms@, t) || rules_have_term(
                final(aux)@.skip(old(aux)@.len() as int),
                t,
            )) <==> prod_has_term(*p, t),
        syms_model(syms@) == flatten_prod_model(name@, *p, *old(counter) as nat).0,
        rules_model(final(aux)@.skip(old(aux)@.len() as int)) == flatten_prod_model(
            name@,
            *p,
            *old(counter) as nat,
        ).1,
        *final(counter) as nat == flatten_prod_model(name@, *p, *old(counter) as nat).2,
    decreases *p,
{
    let ghost base = aux@.len() as int;
    let ghost c0 = *counter as nat;
    match p {
        Prod::Eps => {
            let r: Vec<FlatProd> = Vec::new();
            assert(aux@.skip(base) =~= Seq::<FlatRuleDef>::empty());
            assert(aux@.take(base) =~= aux@);
            assert(forall|t: Seq<u8>| #![auto] !syms_have_term(r@, t));
            assert(forall|t: Seq<u8>| #![auto] !rules_have_term(aux@.skip(base), t));
            assert(forall|t: Seq<u8>| #![auto] !prod_has_term(*p, t));
            assert(forall|t: Seq<u8>| #![auto]
                (syms_have_term(r@, t) || rules_have_term(aux@.skip(base), t)) <==> prod_has_term(
                    *p,
                    t,
                ));
            proof {
                assert(syms_model(r@) =~= flatten_prod_model(name@, *p, c0).0);
                assert(rules_model(aux@.skip(base)) =~= flatten_prod_model(name@, *p, c0).1);
            }
            r
        },
        Prod::Terminal(t) => {
            let mut r: Vec<FlatProd> = Vec::new();
            r.push(FlatProd::Terminal(copy_bytes(t)));
            assert(aux@.skip(base) =~= Seq::<FlatRuleDef>::empty());
            assert(aux@.take(base) =~= aux@);
            assert forall|q: Seq<u8>| #![auto]
                (syms_have_term(r@, q) || rules_have_term(aux@.skip(base), q)) <==> prod_has_term(
                    *p,
                    q,
                ) by {
                if prod_has_term(*p, q) {
                    assert(r@[0] matches FlatProd::Terminal(x) && x@ == q);
                }
            }
            proof {
                assert(syms_model(r@) =~= flatten_prod_model(name@, *p, c0).0);
                assert(rules_model(aux@.skip(base)) =~= flatten_prod_model(name@, *p, c0).1);
            }
            r
        },
        Prod::NonTerminal(n) => {
            let mut r: Vec<FlatProd> = Vec::new();
            r.push(FlatProd::NonTerminal(copy_bytes(n)));
            assert(aux@.skip(base) =~= Seq::<FlatRuleDef>::empty());
            assert(aux@.take(base) =~= aux@);
            assert(forall|t: Seq<u8>| #![auto] !syms_have_term(r@, t));
            assert(forall|t: Seq<u8>| #![auto] !rules_have_term(aux@.skip(base), t));
            assert(forall|t: Seq<u8>| #![auto] !prod_has_term(*p, t));
            assert(forall|t: Seq<u8>| #![auto]
                (syms_have_term(r@, t) || rules_have_term(aux@.skip(base), t)) <==> prod_has_term(
                    *p,
                    t,
                ));
            proof {
                assert(syms_model(r@) =~= flatten_prod_model(name@, *p, c0).0);
                assert(rules_model(aux@.skip(base)) =~= flatten_prod_model(name@, *p, c0).1);
            }
            r
        },
        Prod::Concat(l, r) => {
            let mut a = flatten_prod(name, l, counter, aux);
            let ghost mid = aux@.len() as int;
            let ghost aux_l = aux@.skip(base);
            let mut b = flatten_prod(name, r, counter, aux);
            let ghost aux_r = aux@.skip(mid);
            let ghost av = a@;
            let ghost bv = b@;
            a.append(&mut b);
            proof {
                assert(forall|k: int| base <= k < mid ==> #[trigger] aux@[k] == aux@.take(mid)[k]);
                assert(aux@.take(base) =~= aux@.take(mid).take(base));
                assert(aux@.skip(base) =~= aux_l + aux_r);
                lemma_syms_term_concat(av, bv);
                lemma_rules_term_concat(aux_l, aux_r);
                assert(a@ == av + bv);
                assert forall|t: Seq<u8>| #![auto]
                    (syms_have_term(a@, t) || rules_have_term(aux@.skip(base), t))
                        <==> prod_has_term(*p, t) by {
                    assert(syms_have_term(av + bv, t) <==> (syms_have_term(av, t)
                        || syms_have_term(bv, t)));
                    assert(rules_have_term(aux_l + aux_r, t) <==> (rules_have_term(aux_l, t)
                        || rules_have_term(aux_r, t)));
                    assert((syms_have_term(av, t) || rules_have_term(aux_l, t)) <==> prod_has_term(
                        **l,
                        t,
                    ));
                    assert((syms_have_term(bv, t) || rules_have_term(aux_r, t)) <==> prod_has_term(
                        **r,
                        t,
                    ));
                }
                let ghost ml = flatten_prod_model(name@, **l, c0);
                let ghost mr = flatten_prod_model(name@, **r, ml.2);
                lemma_syms_model_concat(av, bv);
                lemma_rules_model_concat(aux_l, aux_r);
                assert(flatten_prod_model(name@, *p, c0).0 == ml.0 + mr.0);
                assert(flatten_prod_model(name@, *p, c0).1 == ml.1 + mr.1);
                assert(flatten_prod_model(name@, *p, c0).2 == mr.2);
                assert(syms_model(a@) == ml.0 + mr.0);
                assert(rules_model(aux@.skip(base)) == ml.1 + mr.1);
            }
            a
        },
        Prod::Optional(o) => {
            let k = *counter;
            *counter = *counter + 1;
            let an = make_aux_name(name, false, k);
            let inner = flatten_prod(&an, o, counter, aux);
            let ghost aux1 = aux@;
            let ghost innerv = inner@;
            let body = if inner.len() == 0 {
                eps_prod()
            } else {
                inner
            };
            let ghost bodyv = body@;
            let r1 = FlatRuleDef { name: copy_bytes(&an), prod: body };
            let r2 = FlatRuleDef { name: copy_bytes(&an), prod: eps_prod() };
            let ghost gr1 = r1;
            let ghost gr2 = r2;
            aux.push(r1);
            aux.push(r2);
            let mut syms: Vec<FlatProd> = Vec::new();
            syms.push(FlatProd::NonTerminal(an));
            proof {
                assert(aux@ =~= aux1 + seq![gr1, gr2]);
                assert(aux@.take(base) =~= aux1.take(base));
                assert(aux@.skip(base) =~= aux1.skip(base) + seq![gr1, gr2]);
                assert(forall|j: int| base <= j < aux1.len() ==> #[trigger] aux@[j] == aux1[j]);
                lemma_tail_two(aux1.skip(base), gr1, gr2);
                assert(wf_flat_rule(gr1));
                assert(wf_flat_rule(gr2));
                assert(aux@[aux@.len() - 2] == gr1 && aux@[aux@.len() - 1] == gr2);
                assert(forall|t: Seq<u8>| #![auto]
                    syms_have_term(bodyv, t) <==> syms_have_term(innerv, t));
                assert(forall|i: int| 0 <= i < syms@.len() ==> !(#[trigger] syms@[i]).spec_is_eps());
                assert(forall|t: Seq<u8>| #![auto] !syms_have_term(syms@, t));
                assert forall|t: Seq<u8>| #![auto]
                    (syms_have_term(syms@, t) || rules_have_term(aux@.skip(base), t))
                        <==> prod_has_term(*p, t) by {
                    assert(rules_have_term(aux1.skip(base) + seq![gr1, gr2], t)
                        <==> (rules_have_term(aux1.skip(base), t) || syms_have_term(
                        gr1.prod@,
                        t,
                    )));
                    assert(syms_have_term(gr1.prod@, t) <==> syms_have_term(innerv, t));
                    assert((syms_have_term(innerv, t) || rules_have_term(aux1.skip(base), t))
                        <==> prod_has_term(**o, t));
                }
                let ghost anv = aux_name(name@, false, c0);
                let ghost mi = flatten_prod_model(anv, **o, c0 + 1);
                assert(syms_model(innerv) == mi.0);
                assert(rules_model(aux1.skip(base)) == mi.1);
                assert(flatten_prod_model(name@, *p, c0).0 == seq![SymModel::NonTerm(anv)]);
                assert(flatten_prod_model(name@, *p, c0).1 == mi.1 + seq![
                    FlatRuleModel { name: anv, syms: body_or_eps(mi.0) },
                    eps_rule_model(anv),
                ]);
                assert(flatten_prod_model(name@, *p, c0).2 == mi.2);
                assert(syms_model(syms@) =~= seq![SymModel::NonTerm(anv)]);
                assert(gr1.model() == FlatRuleModel { name: anv, syms: body_or_eps(mi.0) }) by {
                    assert(gr1.model().name == anv);
                    if innerv.len() == 0 {
                        assert(gr1.model().syms =~= seq![SymModel::Empty]);
                        assert(body_or_eps(mi.0) =~= seq![SymModel::Empty]);
                    } else {
                        assert(gr1.prod@ == innerv);
                        assert(body_or_eps(mi.0) == mi.0);
                    }
                }
                assert(gr2.model() == eps_rule_model(anv)) by {
                    assert(gr2.model().syms =~= seq![SymModel::Empty]);
                }
                lemma_rules_model_concat(aux1.skip(base), seq![gr1, gr2]);
                assert(rules_model(seq![gr1, gr2]) =~= seq![gr1.model(), gr2.model()]);
                assert(rules_model(aux@.skip(base)) =~= mi.1 + seq![
                    FlatRuleModel { name: anv, syms: body_or_eps(mi.0) },
                    eps_rule_model(anv),
                ]);
            }
            syms
        },
        Prod::Star(o) => {
            let k = *counter;
            *counter = *counter + 1;
            let an = make_aux_name(name, true, k);
            let mut inner = flatten_prod(&an, o, counter, aux);
            let ghost aux1 = aux@;
            let ghost innerv = inner@;
            inner.push(FlatProd::NonTerminal(copy_bytes(&an)));
            proof {
                lemma_syms_term_push_nonterm(innerv, inner@.last());
                assert(inner@ == innerv.push(inner@.last()));
            }
            let ghost bodyv = inner@;
            let r1 = FlatRuleDef { name: copy_bytes(&an), prod: inner };
            let r2 = FlatRuleDef { name: copy_bytes(&an), prod: eps_prod() };
            let ghost gr1 = r1;
            let ghost gr2 = r2;
            aux.push(r1);
            aux.push(r2);
            let mut syms: Vec<FlatProd> = Vec::new();
            syms.push(FlatProd::NonTerminal(an));
            proof {
                assert(aux@ =~= aux1 + seq![gr1, gr2]);
                assert(aux@.take(base) =~= aux1.take(base));
                assert(aux@.skip(base) =~= aux1.skip(base) + seq![gr1, gr2]);
                assert(forall|j: int| base <= j < aux1.len() ==> #[trigger] aux@[j] == aux1[j]);
                lemma_tail_two(aux1.skip(base), gr1, gr2);
                assert(wf_flat_rule(gr1));
                assert(wf_flat_rule(gr2));
                assert(forall|t: Seq<u8>| #![auto]
                    syms_have_term(bodyv, t) <==> syms_have_term(innerv, t));
                assert(forall|t: Seq<u8>| #![auto] !syms_have_term(syms@, t));
                assert forall|t: Seq<u8>| #![auto]
                    (syms_have_term(syms@, t) || rules_have_term(aux@.skip(base), t))
                        <==> prod_has_term(*p, t) by {
                    assert(rules_have_term(aux1.skip(base) + seq![gr1, gr2], t)
                        <==> (rules_have_term(aux1.skip(base), t) || syms_have_term(
                        gr1.prod@,
                        t,
                    )));
                    assert(syms_have_term(gr1.prod@, t) <==> syms_have_term(innerv, t));
                    assert((syms_have_term(innerv, t) || rules_have_term(aux1.skip(base), t))
                        <==> prod_has_term(**o, t));
                }
                let ghost anv = aux_name(name@, true, c0);
                let ghost mi = flatten_prod_model(anv, **o, c0 + 1);
                assert(syms_model(innerv) == mi.0);
                assert(rules_model(aux1.skip(base)) == mi.1);
                assert(flatten_prod_model(name@, *p, c0).0 == seq![SymModel::NonTerm(anv)]);
                assert(flatten_prod_model(name@, *p, c0).1 == mi.1 + seq![
                    FlatRuleModel { name: anv, syms: mi.0.push(SymModel::NonTerm(anv)) },
                    eps_rule_model(anv),
                ]);
                assert(flatten_prod_model(name@, *p, c0).2 == mi.2);
                assert(syms_model(syms@) =~= seq![SymModel::NonTerm(anv)]);
                assert(gr1.model() == FlatRuleModel {
                    name: anv,
                    syms: mi.0.push(SymModel::NonTerm(anv)),
                }) by {
                    assert(gr1.model().name == anv);
                    lemma_syms_model_push(innerv, bodyv.last());
                    assert(bodyv.last().model() == SymModel::NonTerm(anv));
                    assert(gr1.model().syms =~= mi.0.push(SymModel::NonTerm(anv)));
                }
                assert(gr2.model() == eps_rule_model(anv)) by {
                    assert(gr2.model().syms =~= seq![SymModel::Empty]);
                }
                lemma_rules_model_concat(aux1.skip(base), seq![gr1, gr2]);
                assert(rules_model(seq![gr1, gr2]) =~= seq![gr1.model(), gr2.model()]);
                assert(rules_model(aux@.skip(base)) =~= mi.1 + seq![
                    FlatRuleModel { name: anv, syms: mi.0.push(SymModel::NonTerm(anv)) },
                    eps_rule_model(anv),
                ]);
            }
            syms
        },
        Prod::Plus(o) => {
            let mut first_part = flatten_prod(name, o, counter, aux);
            let ghost mid = aux@.len() as int;
            let ghost aux_first = aux@.skip(base);
            let ghost firstv = first_part@;
            let k = *counter;
            *counter = *counter + 1;
            let an = make_aux_name(name, true, k);
            let mut inner = flatten_prod(&an, o, counter, aux);
            let ghost aux1 = aux@;
            let ghost innerv = inner@;
            inner.push(FlatProd::NonTerminal(copy_bytes(&an)));
            proof {
                lemma_syms_term_push_nonterm(innerv, inner@.last());
                assert(inner@ == innerv.push(inner@.last()));
            }
            let ghost bodyv = inner@;
            let r1 = FlatRuleDef { name: copy_bytes(&an), prod: inner };
            let r2 = FlatRuleDef { name: copy_bytes(&an), prod: eps_prod() };
            let ghost gr1 = r1;
            let ghost gr2 = r2;
            aux.push(r1);
            aux.push(r2);
            let ghost fv0 = first_part@;
            first_part.push(FlatProd::NonTerminal(an));
            proof {
                lemma_syms_term_push_nonterm(fv0, first_part@.last());
                assert(first_part@ == fv0.push(first_part@.last()));
                assert(forall|j: int| base <= j < mid ==> #[trigger] aux1[j] == aux1.take(mid)[j]);
                assert(aux@ =~= aux1 + seq![gr1, gr2]);
                assert(aux@.take(base) =~= aux1.take(mid).take(base));
                assert(forall|j: int| base <= j < aux1.len() ==> #[trigger] aux@[j] == aux1[j]);
                assert(aux@.skip(base) =~= (aux_first + aux1.skip(mid)) + seq![gr1, gr2]);
                lemma_tail_two(aux_first + aux1.skip(mid), gr1, gr2);
                lemma_rules_term_concat(aux_first, aux1.skip(mid));
                assert(wf_flat_rule(gr1));
                assert(wf_flat_rule(gr2));
                assert(forall|t: Seq<u8>| #![auto]
                    syms_have_term(bodyv, t) <==> syms_have_term(innerv, t));
                assert forall|t: Seq<u8>| #![auto]
                    (syms_have_term(first_part@, t) || rules_have_term(aux@.skip(base), t))
                        <==> prod_has_term(*p, t) by {
                    assert(syms_have_term(first_part@, t) <==> syms_have_term(firstv, t));
                    lemma_tail_two_at(aux_first + aux1.skip(mid), gr1, gr2, t);
                    lemma_rules_term_concat_at(aux_first, aux1.skip(mid), t);
                    assert(rules_have_term((aux_first + aux1.skip(mid)) + seq![gr1, gr2], t)
                        <==> (rules_have_term(aux_first + aux1.skip(mid), t) || syms_have_term(
                        gr1.prod@,
                        t,
                    )));
                    assert(rules_have_term(aux_first + aux1.skip(mid), t)
                        <==> (rules_have_term(aux_first, t) || rules_have_term(
                        aux1.skip(mid),
                        t,
                    )));
                    assert(syms_have_term(gr1.prod@, t) <==> syms_have_term(innerv, t));
                    assert((syms_have_term(firstv, t) || rules_have_term(aux_first, t))
                        <==> prod_has_term(**o, t));
                    assert((syms_have_term(innerv, t) || rules_have_term(aux1.skip(mid), t))
                        <==> prod_has_term(**o, t));
                }
                let ghost ml = flatten_prod_model(name@, **o, c0);
                let ghost anv = aux_name(name@, true, ml.2);
                let ghost mi = flatten_prod_model(anv, **o, ml.2 + 1);
                assert(syms_model(firstv) == ml.0);
                assert(rules_model(aux_first) == ml.1);
                assert(syms_model(innerv) == mi.0);
                assert(rules_model(aux1.skip(mid)) == mi.1);
                assert(flatten_prod_model(name@, *p, c0).0 == ml.0.push(SymModel::NonTerm(anv)));
                assert(flatten_prod_model(name@, *p, c0).1 == (ml.1 + mi.1) + seq![
                    FlatRuleModel { name: anv, syms: mi.0.push(SymModel::NonTerm(anv)) },
                    eps_rule_model(anv),
                ]);
                assert(flatten_prod_model(name@, *p, c0).2 == mi.2);
                assert(syms_model(first_part@) =~= ml.0.push(SymModel::NonTerm(anv))) by {
                    lemma_syms_model_push(fv0, first_part@.last());
                    assert(first_part@.last().model() == SymModel::NonTerm(anv));
                }
                assert(gr1.model() == FlatRuleModel {
                    name: anv,
                    syms: mi.0.push(SymModel::NonTerm(anv)),
                }) by {
                    assert(gr1.model().name == anv);
                    lemma_syms_model_push(innerv, bodyv.last());
                    assert(bodyv.last().model() == SymModel::NonTerm(anv));
                    assert(gr1.model().syms =~= mi.0.push(SymModel::NonTerm(anv)));
                }
                assert(gr2.model() == eps_rule_model(anv)) by {
                    assert(gr2.model().syms =~= seq![SymModel::Empty]);
                }
                lemma_rules_model_concat(aux_first, aux1.skip(mid));
                lemma_rules_model_concat(aux_first + aux1.skip(mid), seq![gr1, gr2]);
                assert(rules_model(seq![gr1, gr2]) =~= seq![gr1.model(), gr2.model()]);
                assert(rules_model(aux@.skip(base)) =~= (ml.1 + mi.1) + seq![
                    FlatRuleModel { name: anv, syms: mi.0.push(SymModel::NonTerm(anv)) },
                    eps_rule_model(anv),
                ]);
            }
            first_part
        },
    }
}

/// Flatten a whole grammar.  The output has one rule per alternative of the
/// input, in rule order, each directly followed by the defining rules of
/// the auxiliaries its flattening introduced; so the first output rule
/// still derives the original start symbol.
pub fn flatten(file: &File) -> (out: Vec<FlatRuleDef>)
    requires
        rules_op_count(file.rules@) <= usize::MAX,
    ensures
        forall|i: int| 0 <= i < out@.len() ==> wf_flat_rule(#[trigger] out@[i]),
        file.rules@.len() >= 1 && file.rules@[0].prod@.len() >= 1 ==> out@.len() >= 1
            && out@[0].name@ == file.rules@[0].name@,
        forall|i: int|
            0 <= i < file.rules@.len() && file.rules@[i].prod@.len() >= 1 ==> defines(
                out@,
                (#[trigger] file.rules@[i]).name@,
            ),
        forall|t: Seq<u8>| #![auto] rules_have_term(out@, t) <==> file_has_term(*file, t),
        rules_model(out@) == flatten_model(*file),
        forall|n: Seq<u8>|
            #![trigger mrules_have_nt(rules_model(out@), n)]
            mrules_have_nt(rules_model(out@), n) ==> (defines(out@, n) || file_has_nt(*file, n)),
{
    let mut out: Vec<FlatRuleDef> = Vec::new();
    let mut counter: usize = 0;
    let mut i: usize = 0;
    proof {
        lemma_rules_ops_prefix(file.rules@, 0);
        assert(file.rules@.skip(0) =~= file.rules@);
        assert(rules_model(out@) =~= Seq::<FlatRuleModel>::empty());
        assert(rules_model(out@) + rules_flat_model(file.rules@.skip(0), 0).0 =~= flatten_model(
            *file,
        ));
    }
    while i < file.rules.len()
        invariant
            i <= file.rules@.len(),
            rules_op_count(file.rules@) <= usize::MAX,
            counter as nat <= rules_ops_upto(file.rules@, i as int),
            rules_ops_upto(file.rules@, i as int) + rules_op_count(file.rules@.skip(i as int))
                == rules_op_count(file.rules@),
            forall|k: int| 0 <= k < out@.len() ==> wf_flat_rule(#[trigger] out@[k]),
            i == 0 ==> out@.len() == 0,
            i >= 1 && file.rules@[0].prod@.len() >= 1 ==> out@.len() >= 1 && out@[0].name@
                == file.rules@[0].name@,
            forall|k: int|
                0 <= k < i && file.rules@[k].prod@.len() >= 1 ==> defines(
                    out@,
                    (#[trigger] file.rules@[k]).name@,
                ),
            forall|t: Seq<u8>| #![auto]
                rules_have_term(out@, t) <==> terms_upto(file.rules@, i as int, t),
            rules_model(out@) + rules_flat_model(file.rules@.skip(i as int), counter as nat).0
                == flatten_model(*file),
        decreases file.rules@.len() - i,
    {
        let rule = &file.rules[i];
        let mut j: usize = 0;
        proof {
            lemma_rules_ops_split(file.rules@, i as int);
            lemma_prods_ops_prefix(rule.prod@, 0);
            assert(rule.prod@.skip(0) =~= rule.prod@);
            assert(file.rules@.skip(i as int)[0] == file.rules@[i as int]);
            assert(file.rules@.skip(i as int).skip(1) =~= file.rules@.skip(i + 1));
            assert(rules_flat_model(file.rules@.skip(i as int), counter as nat).0 == alts_model(
                file.rules@[i as int].name@,
                rule.prod@.skip(0),
                counter as nat,
            ).0 + rules_flat_model(
                file.rules@.skip(i + 1),
                alts_model(file.rules@[i as int].name@, rule.prod@.skip(0), counter as nat).1,
            ).0);
        }
        while j < rule.prod.len()
            invariant
                i < file.rules@.len(),
                j <= rule.prod@.len(),
                *rule == file.rules@[i as int],
                rules_op_count(file.rules@) <= usize::MAX,
                counter as nat <= rules_ops_upto(file.rules@, i as int) + prods_ops_upto(
                    rule.prod@,
                    j as int,
                ),
                rules_ops_upto(file.rules@, i as int) + prods_op_count(rule.prod@)
                    + rules_op_count(file.rules@.skip(i + 1)) == rules_op_count(file.rules@),
                prods_ops_upto(rule.prod@, j as int) + prods_op_count(rule.prod@.skip(j as int))
                    == prods_op_count(rule.prod@),
                forall|k: int| 0 <= k < out@.len() ==> wf_flat_rule(#[trigger] out@[k]),
                i == 0 && j == 0 ==> out@.len() == 0,
                i >= 1 && file.rules@[0].prod@.len() >= 1 ==> out@.len() >= 1 && out@[0].name@
                    == file.rules@[0].name@,
                i == 0 && j >= 1 && file.rules@[0].prod@.len() >= 1 ==> out@.len() >= 1
                    && out@[0].name@ == file.rules@[0].name@,
                forall|k: int|
                    0 <= k < i && file.rules@[k].prod@.len() >= 1 ==> defines(
                        out@,
                        (#[trigger] file.rules@[k]).name@,
                    ),
                j >= 1 ==> defines(out@, file.rules@[i as int].name@),
                forall|t: Seq<u8>| #![auto]
                    rules_have_term(out@, t) <==> (terms_upto(file.rules@, i as int, t)
                        || prod_terms_upto(rule.prod@, j as int, t)),
                rules_model(out@) + (alts_model(
                    file.rules@[i as int].name@,
                    rule.prod@.skip(j as int),
                    counter as nat,
                ).0 + rules_flat_model(
                    file.rules@.skip(i + 1),
                    alts_model(
                        file.rules@[i as int].name@,
                        rule.prod@.skip(j as int),
                        counter as nat,
                    ).1,
                ).0) == flatten_model(*file),
            decreases rule.prod@.len() - j,
        {
            proof {
                lemma_prods_ops_step(rule.prod@, j as int);
                lemma_rules_ops_split(file.rules@, i as int);
            }
            let mut aux: Vec<FlatRuleDef> = Vec::new();
            let ghost out0 = out@;
            let ghost cb = counter as nat;
            let syms = flatten_prod(&rule.name, &rule.prod[j], &mut counter, &mut aux);
            let ghost symsv = syms@;
            let ghost auxv = aux@;
            let body = if syms.len() == 0 {
                eps_prod()
            } else {
                syms
            };
            let ghost bodyv = body@;
            let main = FlatRuleDef { name: copy_bytes(&rule.name), prod: body };
            let ghost gmain = main;
            out.push(main);
            let ghost out1 = out@;
            append_rules(&mut out, aux);
            proof {
                assert(out1 =~= out0 + seq![gmain]);
                assert(out@ =~= (out0 + seq![gmain]) + auxv);
                lemma_rules_term_concat(out0 + seq![gmain], auxv);
                lemma_rules_term_concat(out0, seq![gmain]);
                assert forall|t: Seq<u8>| #![auto]
                    rules_have_term(seq![gmain], t) <==> syms_have_term(symsv, t) by {
                    assert(seq![gmain][0] == gmain);
                    if rules_have_term(seq![gmain], t) {
                        let r = choose|r: int|
                            0 <= r < 1 && syms_have_term(seq![gmain][r].prod@, t);
                        assert(syms_have_term(bodyv, t));
                    }
                    assert(forall|q: Seq<u8>| #![auto]
                        syms_have_term(bodyv, q) <==> syms_have_term(symsv, q));
                }
                assert(wf_flat_rule(gmain));
                assert(forall|k: int| 0 <= k < out0.len() ==> #[trigger] out@[k] == out0[k]);
                assert(out@[out0.len() as int] == gmain);
                assert(defines(out@, file.rules@[i as int].name@));
                lemma_prod_terms_step(rule.prod@, j as int);
                assert(auxv.skip(0) =~= auxv);
                assert(forall|k: int|
                    0 <= k < auxv.len() ==> #[trigger] out@[out0.len() + 1 + k] == auxv[k]);
                if i == 0 {
                    assert(out@[0].name@ == file.rules@[0].name@) by {
                        if j == 0 {
                            assert(out0.len() == 0);
                            assert(out@[0] == gmain);
                        } else {
                            assert(out0[0].name@ == file.rules@[0].name@);
                            assert(out@[0] == out0[0]);
                        }
                    }
                }
                assert forall|k: int|
                    0 <= k < i && (#[trigger] file.rules@[k]).prod@.len() >= 1 implies defines(
                    out@,
                    file.rules@[k].name@,
                ) by {
                    assert(defines(out0, file.rules@[k].name@));
                    let r0 = choose|r: int|
                        0 <= r < out0.len() && out0[r].name@ == file.rules@[k].name@;
                    assert(out@[r0] == out0[r0]);
                }
                assert forall|t: Seq<u8>| #![auto]
                    rules_have_term(out@, t) <==> (terms_upto(file.rules@, i as int, t)
                        || prod_terms_upto(rule.prod@, j + 1, t)) by {
                    assert(rules_have_term((out0 + seq![gmain]) + auxv, t)
                        <==> (rules_have_term(out0 + seq![gmain], t) || rules_have_term(auxv, t)));
                    assert(rules_have_term(out0 + seq![gmain], t) <==> (rules_have_term(out0, t)
                        || rules_have_term(seq![gmain], t)));
                    assert(rules_have_term(seq![gmain], t) <==> syms_have_term(symsv, t));
                    assert((syms_have_term(symsv, t) || rules_have_term(auxv, t))
                        <==> prod_has_term(rule.prod@[j as int], t));
                    assert(prod_terms_upto(rule.prod@, j + 1, t) <==> (prod_terms_upto(
                        rule.prod@,
                        j as int,
                        t,
                    ) || prod_has_term(rule.prod@[j as int], t)));
                }
                let ghost nm = file.rules@[i as int].name@;
                let ghost m = flatten_prod_model(nm, rule.prod@[j as int], cb);
                assert(syms_model(symsv) == m.0);
                assert(rules_model(auxv) == m.1) by {
                    assert(rules_model(auxv.skip(0)) == m.1);
                }
                assert(counter as nat == m.2);
                assert(rule.prod@.skip(j as int)[0] == rule.prod@[j as int]);
                assert(rule.prod@.skip(j as int).skip(1) =~= rule.prod@.skip(j + 1));
                assert(alts_model(nm, rule.prod@.skip(j as int), cb).0 == (seq![
                    FlatRuleModel { name: nm, syms: body_or_eps(m.0) },
                ] + m.1) + alts_model(nm, rule.prod@.skip(j + 1), m.2).0);
                assert(alts_model(nm, rule.prod@.skip(j as int), cb).1 == alts_model(
                    nm,
                    rule.prod@.skip(j + 1),
                    m.2,
                ).1);
                assert(gmain.model() == FlatRuleModel { name: nm, syms: body_or_eps(m.0) }) by {
                    assert(gmain.model().name == nm);
                    if symsv.len() == 0 {
                        assert(gmain.model().syms =~= seq![SymModel::Empty]);
                        assert(body_or_eps(m.0) =~= seq![SymModel::Empty]);
                    } else {
                        assert(gmain.prod@ == symsv);
                        assert(body_or_eps(m.0) == m.0);
                    }
                }
                lemma_rules_model_concat(out0 + seq![gmain], auxv);
                lemma_rules_model_concat(out0, seq![gmain]);
                assert(rules_model(seq![gmain]) =~= seq![gmain.model()]);
                assert(rules_model(out@) =~= (rules_model(out0) + seq![gmain.model()]) + m.1);
                assert(rules_model(out@) + (alts_model(nm, rule.prod@.skip(j + 1), m.2).0
                    + rules_flat_model(
                    file.rules@.skip(i + 1),
                    alts_model(nm, rule.prod@.skip(j + 1), m.2).1,
                ).0) =~= rules_model(out0) + (alts_model(nm, rule.prod@.skip(j as int), cb).0
                    + rules_flat_model(
                    file.rules@.skip(i + 1),
                    alts_model(nm, rule.prod@.skip(j as int), cb).1,
                ).0));
            }
            j = j + 1;
        }
        proof {
            lemma_rules_ops_step(file.rules@, i as int);
            assert(prods_ops_upto(rule.prod@, rule.prod@.len() as int) == prods_op_count(
                rule.prod@,
            )) by {
                lemma_prods_ops_all(rule.prod@);
            }
            lemma_terms_upto_step(file.rules@, i as int);
            assert(rule.prod@.skip(j as int) =~= Seq::<Prod>::empty());
            assert(alts_model(file.rules@[i as int].name@, rule.prod@.skip(j as int), counter as nat).0
                =~= Seq::<FlatRuleModel>::empty());
            assert(file.rules@.skip(i as int)[0] == file.rules@[i as int]);
            assert(file.rules@.skip(i as int).skip(1) =~= file.rules@.skip(i + 1));
            assert(rules_model(out@) + rules_flat_model(file.rules@.skip(i + 1), counter as nat).0
                =~= rules_model(out@) + (alts_model(
                file.rules@[i as int].name@,
                rule.prod@.skip(j as int),
                counter as nat,
            ).0 + rules_flat_model(
                file.rules@.skip(i + 1),
                alts_model(
                    file.rules@[i as int].name@,
                    rule.prod@.skip(j as int),
                    counter as nat,
                ).1,
            ).0));
        }
        i = i + 1;
    }
    proof {
        lemma_terms_upto_all(*file);
        assert(file.rules@.skip(i as int) =~= Seq::<RuleDef>::empty());
        assert(rules_flat_model(file.rules@.skip(i as int), counter as nat).0
            =~= Seq::<FlatRuleModel>::empty());
        assert(rules_model(out@) =~= rules_model(out@) + Seq::<FlatRuleModel>::empty());
        assert forall|n: Seq<u8>|
            #![trigger mrules_have_nt(rules_model(out@), n)]
            mrules_have_nt(rules_model(out@), n) implies (defines(out@, n) || file_has_nt(
            *file,
            n,
        )) by {
            lemma_rules_nts(file.rules@, 0, n);
            lemma_mdefines_bridge(out@, n);
        }
    }
    out
}

/// Move every rule of `src` to the end of `dst`.
fn append_rules(dst: &mut Vec<FlatRuleDef>, src: Vec<FlatRuleDef>)
    ensures
        final(dst)@ == old(dst)@ + src@,
{
    let mut s = src;
    dst.append(&mut s);
}

/// Operator count of the first `i` rules.
pub open spec fn rules_ops_upto(s: Seq<RuleDef>, i: int) -> nat
    decreases i,
{
    if i <= 0 {
        0
    } else {
        rules_ops_upto(s, i - 1) + prods_op_count(s[i - 1].prod@)
    }
}

pub open spec fn prods_ops_upto(s: Seq<Prod>, j: int) -> nat
    decreases j,
{
    if j <= 0 {
        0
    } else {
        prods_ops_upto(s, j - 1) + op_count(s[j - 1])
    }
}

proof fn lemma_rules_ops_prefix(s: Seq<RuleDef>, i: int)
    requires
        0 <= i <= s.len(),
    ensures
        rules_ops_upto(s, i) + rules_op_count(s.skip(i)) == rules_op_count(s),
    decreases i,
{
    if i == 0 {
        assert(s.skip(0) =~= s);
    } else {
        lemma_rules_ops_prefix(s, i - 1);
        assert(s.skip(i - 1) =~= seq![s[i - 1]] + s.skip(i));
        lemma_rules_ops_head(s[i - 1], s.skip(i));
    }
}

proof fn lemma_rules_ops_head(r: RuleDef, rest: Seq<RuleDef>)
    ensures
        rules_op_count(seq![r] + rest) == prods_op_count(r.prod@) + rules_op_count(rest),
{
    assert((seq![r] + rest)[0] == r);
    assert((seq![r] + rest).skip(1) =~= rest);
}

proof fn lemma_rules_ops_split(s: Seq<RuleDef>, i: int)
    requires
        0 <= i < s.len(),
    ensures
        rules_ops_upto(s, i) + prods_op_count(s[i].prod@) + rules_op_count(s.skip(i + 1))
            == rules_op_count(s),
{
    lemma_rules_ops_prefix(s, i);
    assert(s.skip(i) =~= seq![s[i]] + s.skip(i + 1));
    lemma_rules_ops_head(s[i], s.skip(i + 1));
}

proof fn lemma_rules_ops_step(s: Seq<RuleDef>, i: int)
    requires
        0 <= i < s.len(),
    ensures
        rules_ops_upto(s, i + 1) == rules_ops_upto(s, i) + prods_op_count(s[i].prod@),
{
}

proof fn lemma_prods_ops_step(s: Seq<Prod>, j: int)
    requires
        0 <= j < s.len(),
    ensures
        prods_ops_upto(s, j) + op_count(s[j]) + prods_op_count(s.skip(j + 1)) == prods_op_count(s),
        prods_ops_upto(s, j + 1) == prods_ops_upto(s, j) + op_count(s[j]),
    decreases j,
{
    lemma_prods_ops_prefix(s, j);
    assert(s.skip(j) =~= seq![s[j]] + s.skip(j + 1));
    lemma_prods_ops_head(s[j], s.skip(j + 1));
}

proof fn lemma_prods_ops_prefix(s: Seq<Prod>, j: int)
    requires
        0 <= j <= s.len(),
    ensures
        prods_ops_upto(s, j) + prods_op_count(s.skip(j)) == prods_op_count(s),
    decreases j,
{
    if j == 0 {
        assert(s.skip(0) =~= s);
    } else {
        lemma_prods_ops_prefix(s, j - 1);
        assert(s.skip(j - 1) =~= seq![s[j - 1]] + s.skip(j));
        lemma_prods_ops_head(s[j - 1], s.skip(j));
    }
}

proof fn lemma_prods_ops_head(p: Prod, rest: Seq<Prod>)
    ensures
        prods_op_count(seq![p] + rest) == op_count(p) + prods_op_count(rest),
{
    assert((seq![p] + rest)[0] == p);
    assert((seq![p] + rest).skip(1) =~= rest);
}

proof fn lemma_prods_ops_all(s: Seq<Prod>)
    ensures
        prods_ops_upto(s, s.len() as int) == prods_op_count(s),
{
    lemma_prods_ops_prefix(s, s.len() as int);
    assert(s.skip(s.len() as int) =~= Seq::<Prod>::empty());
}

/// The terminal `t` occurs in one of the first `i` rules of the file.
pub open spec fn terms_upto(s: Seq<RuleDef>, i: int, t: Seq<u8>) -> bool {
    exists|k: int, j: int|
        0 <= k < i && k < s.len() && 0 <= j < s[k].prod@.len() && prod_has_term(s[k].prod@[j], t)
}

/// The terminal `t` occurs in one of the first `j` alternatives.
pub open spec fn prod_terms_upto(s: Seq<Prod>, j: int, t: Seq<u8>) -> bool {
    exists|k: int| 0 <= k < j && k < s.len() && prod_has_term(s[k], t)
}

proof fn lemma_prod_terms_step(s: Seq<Prod>, j: int)
    requires
        0 <= j < s.len(),
    ensures
        forall|t: Seq<u8>| #![auto]
            prod_terms_upto(s, j + 1, t) <==> (prod_terms_upto(s, j, t) || prod_has_term(s[j], t)),
{
}

proof fn lemma_terms_upto_step(s: Seq<RuleDef>, i: int)
    requires
        0 <= i < s.len(),
    ensures
        forall|t: Seq<u8>| #![auto]
            terms_upto(s, i + 1, t) <==> (terms_upto(s, i, t) || prod_terms_upto(
                s[i].prod@,
                s[i].prod@.len() as int,
                t,
            )),
{
}

proof fn lemma_terms_upto_all(f: File)
    ensures
        forall|t: Seq<u8>| #![auto]
            terms_upto(f.rules@, f.rules@.len() as int, t) <==> file_has_term(f, t),
{
}

/// Count the fresh names flattening one production would allocate,
/// refusing on overflow.
fn prod_ops_checked(p: &Prod) -> (r: Option<usize>)
    ensures
        r matches Some(n) ==> n == op_count(*p),
    decreases *p,
{
    match p {
        Prod::Concat(l, pr) => {
            let a = match prod_ops_checked(l) {
                Some(a) => a,
                None => {
                    return None;
                },
            };
            let b = match prod_ops_checked(pr) {
                Some(b) => b,
                None => {
                    return None;
                },
            };
            if a <= usize::MAX - b {
                Some(a + b)
            } else {
                None
            }
        },
        Prod::Optional(o) => {
            match prod_ops_checked(o) {
                Some(n) => if n < usize::MAX {
                    Some(n + 1)
                } else {
                    None
                },
                None => None,
            }
        },
        Prod::Star(o) => {
            match prod_ops_checked(o) {
                Some(n) => if n < usize::MAX {
                    Some(n + 1)
                } else {
                    None
                },
                None => None,
            }
        },
        Prod::Plus(o) => {
            match prod_ops_checked(o) {
                Some(n) => if n <= (usize::MAX - 1) / 2 {
                    Some(1 + 2 * n)
                } else {
                    None
                },
                None => None,
            }
        },
        _ => Some(0),
    }
}

/// Whether `flatten` may run on this file: its auxiliary-name counter,
/// one step per eliminated operator, must fit in `usize`.
pub fn count_rules_ops_ok(file: &File) -> (r: bool)
    ensures
        r ==> rules_op_count(file.rules@) <= usize::MAX,
{
    let mut total: usize = 0;
    let mut i: usize = 0;
    while i < file.rules.len()
        invariant
            i <= file.rules@.len(),
            total == rules_ops_upto(file.rules@, i as int),
        decreases file.rules@.len() - i,
    {
        let mut j: usize = 0;
        let mut rule_total: usize = 0;
        while j < file.rules[i].prod.len()
            invariant
                i < file.rules@.len(),
                j <= file.rules@[i as int].prod@.len(),
                rule_total == prods_ops_upto(file.rules@[i as int].prod@, j as int),
            decreases file.rules@[i as int].prod@.len() - j,
        {
            let n = match prod_ops_checked(&file.rules[i].prod[j]) {
                Some(n) => n,
                None => {
                    return false;
                },
            };
            if rule_total > usize::MAX - n {
                return false;
            }
            proof {
                lemma_prods_ops_step(file.rules@[i as int].prod@, j as int);
            }
            rule_total = rule_total + n;
            j = j + 1;
        }
        proof {
            lemma_prods_ops_all(file.rules@[i as int].prod@);
            lemma_rules_ops_step(file.rules@, i as int);
        }
        if total > usize::MAX - rule_total {
            return false;
        }
        total = total + rule_total;
        i = i + 1;
    }
    proof {
        lemma_rules_ops_prefix(file.rules@, file.rules@.len() as int);
        assert(file.rules@.skip(file.rules@.len() as int) =~= Seq::<RuleDef>::empty());
    }
    true
}


/// The name `n` occurs as a reference somewhere in the production.
pub open spec fn prod_has_nt(p: Prod, n: Seq<u8>) -> bool
    decreases p,
{
    match p {
        Prod::Concat(l, r) => prod_has_nt(*l, n) || prod_has_nt(*r, n),
        Prod::Terminal(_) => false,
        Prod::NonTerminal(m) => m@ == n,
        Prod::Optional(o) => prod_has_nt(*o, n),
        Prod::Star(o) => prod_has_nt(*o, n),
        Prod::Plus(o) => prod_has_nt(*o, n),
        Prod::Eps => false,
    }
}

pub open spec fn file_has_nt(f: File, n: Seq<u8>) -> bool {
    exists|i: int, j: int|
        0 <= i < f.rules@.len() && 0 <= j < f.rules@[i].prod@.len() && prod_has_nt(
            f.rules@[i].prod@[j],
            n,
        )
}

/// The name `n` occurs as a reference in a model symbol sequence.
pub open spec fn msyms_have_nt(s: Seq<SymModel>, n: Seq<u8>) -> bool {
    exists|i: int| #![trigger s[i]] 0 <= i < s.len() && s[i] == SymModel::NonTerm(n)
}

/// The name `n` occurs as a reference in some model rule.
pub open spec fn mrules_have_nt(rs: Seq<FlatRuleModel>, n: Seq<u8>) -> bool {
    exists|r: int| 0 <= r < rs.len() && msyms_have_nt((#[trigger] rs[r]).syms, n)
}

/// The name `n` is the left-hand side of some model rule.
pub open spec fn mdefines(rs: Seq<FlatRuleModel>, n: Seq<u8>) -> bool {
    exists|r: int| 0 <= r < rs.len() && (#[trigger] rs[r]).name == n
}

proof fn lemma_msyms_nt_concat(a: Seq<SymModel>, b: Seq<SymModel>, n: Seq<u8>)
    ensures
        msyms_have_nt(a + b, n) <==> (msyms_have_nt(a, n) || msyms_have_nt(b, n)),
{
    if msyms_have_nt(a + b, n) {
        let i = choose|i: int| #![trigger (a + b)[i]] 0 <= i < (a + b).len() && (a + b)[i]
            == SymModel::NonTerm(n);
        if i < a.len() {
            assert(a[i] == (a + b)[i]);
        } else {
            assert(b[i - a.len()] == (a + b)[i]);
        }
    }
    if msyms_have_nt(a, n) {
        let i = choose|i: int| #![trigger a[i]] 0 <= i < a.len() && a[i] == SymModel::NonTerm(n);
        assert((a + b)[i] == a[i]);
    }
    if msyms_have_nt(b, n) {
        let i = choose|i: int| #![trigger b[i]] 0 <= i < b.len() && b[i] == SymModel::NonTerm(n);
        assert((a + b)[i + a.len()] == b[i]);
    }
}

proof fn lemma_mrules_nt_concat(a: Seq<FlatRuleModel>, b: Seq<FlatRuleModel>, n: Seq<u8>)
    ensures
        mrules_have_nt(a + b, n) <==> (mrules_have_nt(a, n) || mrules_have_nt(b, n)),
        mdefines(a + b, n) <==> (mdefines(a, n) || mdefines(b, n)),
{
    if mrules_have_nt(a + b, n) {
        let r = choose|r: int| 0 <= r < (a + b).len() && msyms_have_nt((#[trigger] (a + b)[r]).syms, n);
        if r < a.len() {
            assert(a[r] == (a + b)[r]);
        } else {
            assert(b[r - a.len()] == (a + b)[r]);
        }
    }
    if mrules_have_nt(a, n) {
        let r = choose|r: int| 0 <= r < a.len() && msyms_have_nt((#[trigger] a[r]).syms, n);
        assert((a + b)[r] == a[r]);
    }
    if mrules_have_nt(b, n) {
        let r = choose|r: int| 0 <= r < b.len() && msyms_have_nt((#[trigger] b[r]).syms, n);
        assert((a + b)[r + a.len()] == b[r]);
    }
    if mdefines(a + b, n) {
        let r = choose|r: int| 0 <= r < (a + b).len() && (#[trigger] (a + b)[r]).name == n;
        if r < a.len() {
            assert(a[r] == (a + b)[r]);
        } else {
            assert(b[r - a.len()] == (a + b)[r]);
        }
    }
    if mdefines(a, n) {
        let r = choose|r: int| 0 <= r < a.len() && (#[trigger] a[r]).name == n;
        assert((a + b)[r] == a[r]);
    }
    if mdefines(b, n) {
        let r = choose|r: int| 0 <= r < b.len() && (#[trigger] b[r]).name == n;
        assert((a + b)[r + a.len()] == b[r]);
    }
}

/// Every name referenced in the flattening of one production either occurs
/// in the production or is an auxiliary defined among the introduced rules.
proof fn lemma_model_nts(name: Seq<u8>, p: Prod, c: nat, n: Seq<u8>)
    ensures
        msyms_have_nt(flatten_prod_model(name, p, c).0, n) || mrules_have_nt(
            flatten_prod_model(name, p, c).1,
            n,
        ) ==> (prod_has_nt(p, n) || mdefines(flatten_prod_model(name, p, c).1, n)),
    decreases p,
{
    match p {
        Prod::Eps => {},
        Prod::Terminal(_) => {},
        Prod::NonTerminal(m) => {},
        Prod::Concat(l, r) => {
            let ml = flatten_prod_model(name, *l, c);
            let mr = flatten_prod_model(name, *r, ml.2);
            lemma_model_nts(name, *l, c, n);
            lemma_model_nts(name, *r, ml.2, n);
            lemma_msyms_nt_concat(ml.0, mr.0, n);
            lemma_mrules_nt_concat(ml.1, mr.1, n);
        },
        Prod::Optional(o) => {
            let an = aux_name(name, false, c);
            let mi = flatten_prod_model(an, *o, c + 1);
            lemma_model_nts(an, *o, c + 1, n);
            let tail = seq![
                FlatRuleModel { name: an, syms: body_or_eps(mi.0) },
                eps_rule_model(an),
            ];
            lemma_mrules_nt_concat(mi.1, tail, n);
            assert(mdefines(flatten_prod_model(name, p, c).1, n) <== (n == an)) by {
                if n == an {
                    assert((mi.1 + tail)[mi.1.len() as int].name == n);
                }
            }
            if mrules_have_nt(tail, n) {
                let r = choose|r: int| 0 <= r < tail.len() && msyms_have_nt((#[trigger] tail[r]).syms, n);
                if r == 0 {
                    if mi.0.len() == 0 {
                        let i = choose|i: int|
                            #![trigger tail[0].syms[i]]
                            0 <= i < tail[0].syms.len() && tail[0].syms[i] == SymModel::NonTerm(n);
                        assert(false);
                    } else {
                        assert(msyms_have_nt(mi.0, n));
                    }
                } else {
                    let i = choose|i: int|
                        #![trigger tail[1].syms[i]]
                        0 <= i < tail[1].syms.len() && tail[1].syms[i] == SymModel::NonTerm(n);
                    assert(false);
                }
            }
            if mdefines(mi.1, n) {
                let r = choose|r: int| 0 <= r < mi.1.len() && (#[trigger] mi.1[r]).name == n;
                assert((mi.1 + tail)[r] == mi.1[r]);
            }
            if msyms_have_nt(flatten_prod_model(name, p, c).0, n) {
                assert(n == an);
            }
        },
        Prod::Star(o) => {
            let an = aux_name(name, true, c);
            let mi = flatten_prod_model(an, *o, c + 1);
            lemma_model_nts(an, *o, c + 1, n);
            let tail = seq![
                FlatRuleModel { name: an, syms: mi.0.push(SymModel::NonTerm(an)) },
                eps_rule_model(an),
            ];
            lemma_mrules_nt_concat(mi.1, tail, n);
            assert(mdefines(flatten_prod_model(name, p, c).1, n) <== (n == an)) by {
                if n == an {
                    assert((mi.1 + tail)[mi.1.len() as int].name == n);
                }
            }
            if mrules_have_nt(tail, n) {
                let r = choose|r: int| 0 <= r < tail.len() && msyms_have_nt((#[trigger] tail[r]).syms, n);
                if r == 0 {
                    let i = choose|i: int|
                        #![trigger tail[0].syms[i]]
                        0 <= i < tail[0].syms.len() && tail[0].syms[i] == SymModel::NonTerm(n);
                    if i < mi.0.len() {
                        assert(msyms_have_nt(mi.0, n));
                    } else {
                        assert(n == an);
                    }
                } else {
                    let i = choose|i: int|
                        #![trigger tail[1].syms[i]]
                        0 <= i < tail[1].syms.len() && tail[1].syms[i] == SymModel::NonTerm(n);
                    assert(false);
                }
            }
            if mdefines(mi.1, n) {
                let r = choose|r: int| 0 <= r < mi.1.len() && (#[trigger] mi.1[r]).name == n;
                assert((mi.1 + tail)[r] == mi.1[r]);
            }
            if msyms_have_nt(flatten_prod_model(name, p, c).0, n) {
                assert(n == an);
            }
        },
        Prod::Plus(o) => {
            let ml = flatten_prod_model(name, *o, c);
            let an = aux_name(name, true, ml.2);
            let mi = flatten_prod_model(an, *o, ml.2 + 1);
            lemma_model_nts(name, *o, c, n);
            lemma_model_nts(an, *o, ml.2 + 1, n);
            let tail = seq![
                FlatRuleModel { name: an, syms: mi.0.push(SymModel::NonTerm(an)) },
                eps_rule_model(an),
            ];
            lemma_mrules_nt_concat(ml.1, mi.1, n);
            lemma_mrules_nt_concat(ml.1 + mi.1, tail, n);
            lemma_msyms_nt_concat(ml.0, seq![SymModel::NonTerm(an)], n);
            assert(flatten_prod_model(name, p, c).0 =~= ml.0 + seq![SymModel::NonTerm(an)]);
            assert(mdefines(flatten_prod_model(name, p, c).1, n) <== (n == an)) by {
                if n == an {
                    assert(((ml.1 + mi.1) + tail)[(ml.1 + mi.1).len() as int].name == n);
                }
            }
            if mrules_have_nt(tail, n) {
                let r = choose|r: int| 0 <= r < tail.len() && msyms_have_nt((#[trigger] tail[r]).syms, n);
                if r == 0 {
                    let i = choose|i: int|
                        #![trigger tail[0].syms[i]]
                        0 <= i < tail[0].syms.len() && tail[0].syms[i] == SymModel::NonTerm(n);
                    if i < mi.0.len() {
                        assert(msyms_have_nt(mi.0, n));
                    } else {
                        assert(n == an);
                    }
                } else {
                    let i = choose|i: int|
                        #![trigger tail[1].syms[i]]
                        0 <= i < tail[1].syms.len() && tail[1].syms[i] == SymModel::NonTerm(n);
                    assert(false);
                }
            }
            if mdefines(ml.1 + mi.1, n) {
                let r = choose|r: int| 0 <= r < (ml.1 + mi.1).len() && (#[trigger] (ml.1 + mi.1)[r]).name
                    == n;
                assert(((ml.1 + mi.1) + tail)[r] == (ml.1 + mi.1)[r]);
            }
            if msyms_have_nt(seq![SymModel::NonTerm(an)], n) {
                assert(n == an);
            }
        },
    }
}


/// Lift the closedness of one production to all alternatives of a rule.
proof fn lemma_alts_nts(name: Seq<u8>, prods: Seq<Prod>, c: nat, n: Seq<u8>)
    ensures
        mrules_have_nt(alts_model(name, prods, c).0, n) ==> ((exists|j: int|
            0 <= j < prods.len() && prod_has_nt(#[trigger] prods[j], n)) || mdefines(
            alts_model(name, prods, c).0,
            n,
        )),
    decreases prods.len(),
{
    if prods.len() > 0 {
        let m = flatten_prod_model(name, prods[0], c);
        let main = FlatRuleModel { name, syms: body_or_eps(m.0) };
        let rest = alts_model(name, prods.skip(1), m.2).0;
        lemma_model_nts(name, prods[0], c, n);
        lemma_alts_nts(name, prods.skip(1), m.2, n);
        lemma_mrules_nt_concat(seq![main] + m.1, rest, n);
        lemma_mrules_nt_concat(seq![main], m.1, n);
        if mrules_have_nt(alts_model(name, prods, c).0, n) {
            if mrules_have_nt(seq![main], n) {
                let r = choose|r: int|
                    0 <= r < 1 && msyms_have_nt((#[trigger] seq![main][r]).syms, n);
                if m.0.len() == 0 {
                    let i = choose|i: int|
                        #![trigger main.syms[i]]
                        0 <= i < main.syms.len() && main.syms[i] == SymModel::NonTerm(n);
                    assert(false);
                } else {
                    assert(msyms_have_nt(m.0, n));
                    assert(prod_has_nt(prods[0], n) || mdefines(m.1, n));
                }
            }
            if mrules_have_nt(m.1, n) {
                assert(prod_has_nt(prods[0], n) || mdefines(m.1, n));
            }
            if mdefines(m.1, n) {
                let r = choose|r: int| 0 <= r < m.1.len() && (#[trigger] m.1[r]).name == n;
                assert(((seq![main] + m.1) + rest)[r + 1] == m.1[r]);
                assert(mdefines(alts_model(name, prods, c).0, n));
            }
            if mrules_have_nt(rest, n) {
                if mdefines(rest, n) {
                    let r = choose|r: int| 0 <= r < rest.len() && (#[trigger] rest[r]).name == n;
                    assert(((seq![main] + m.1) + rest)[r + (seq![main] + m.1).len()] == rest[r]);
                    assert(mdefines(alts_model(name, prods, c).0, n));
                } else {
                    let j = choose|j: int|
                        0 <= j < prods.skip(1).len() && prod_has_nt(#[trigger] prods.skip(1)[j], n);
                    assert(prods.skip(1)[j] == prods[j + 1]);
                }
            }
            if prod_has_nt(prods[0], n) {
                assert(exists|j: int| 0 <= j < prods.len() && prod_has_nt(#[trigger] prods[j], n));
            }
        }
    }
}

/// Lift the closedness to the whole rule list.
proof fn lemma_rules_nts(rules: Seq<RuleDef>, c: nat, n: Seq<u8>)
    ensures
        mrules_have_nt(rules_flat_model(rules, c).0, n) ==> ((exists|i: int, j: int|
            0 <= i < rules.len() && 0 <= j < rules[i].prod@.len() && prod_has_nt(
                #[trigger] rules[i].prod@[j],
                n,
            )) || mdefines(rules_flat_model(rules, c).0, n)),
    decreases rules.len(),
{
    if rules.len() > 0 {
        let m = alts_model(rules[0].name@, rules[0].prod@, c);
        let rest = rules_flat_model(rules.skip(1), m.1).0;
        lemma_alts_nts(rules[0].name@, rules[0].prod@, c, n);
        lemma_rules_nts(rules.skip(1), m.1, n);
        lemma_mrules_nt_concat(m.0, rest, n);
        if mrules_have_nt(rules_flat_model(rules, c).0, n) {
            if mrules_have_nt(m.0, n) {
                if mdefines(m.0, n) {
                    let r = choose|r: int| 0 <= r < m.0.len() && (#[trigger] m.0[r]).name == n;
                    assert((m.0 + rest)[r] == m.0[r]);
                } else {
                    let j = choose|j: int|
                        0 <= j < rules[0].prod@.len() && prod_has_nt(
                            #[trigger] rules[0].prod@[j],
                            n,
                        );
                }
            }
            if mrules_have_nt(rest, n) {
                if mdefines(rest, n) {
                    let r = choose|r: int| 0 <= r < rest.len() && (#[trigger] rest[r]).name == n;
                    assert((m.0 + rest)[r + m.0.len()] == rest[r]);
                } else {
                    let (i, j) = choose|i: int, j: int|
                        0 <= i < rules.skip(1).len() && 0 <= j < rules.skip(1)[i].prod@.len()
                            && prod_has_nt(#[trigger] rules.skip(1)[i].prod@[j], n);
                    assert(rules.skip(1)[i] == rules[i + 1]);
                }
            }
        }
    }
}

/// A model name is defined exactly when the rule list defines it.
proof fn lemma_mdefines_bridge(rs: Seq<FlatRuleDef>, n: Seq<u8>)
    ensures
        mdefines(rules_model(rs), n) <==> defines(rs, n),
{
    if mdefines(rules_model(rs), n) {
        let r = choose|r: int|
            0 <= r < rules_model(rs).len() && (#[trigger] rules_model(rs)[r]).name == n;
        assert(rs[r].name@ == n);
    }
    if defines(rs, n) {
        let r = choose|r: int| 0 <= r < rs.len() && rs[r].name@ == n;
        assert(rules_model(rs)[r].name == n);
    }
}

/// The flattener performs exactly one rewrite per operator: the auxiliary
/// counter after flattening a production has advanced by its operator
/// count, so the whole run makes exactly `rules_op_count` rewrites —
/// linear in the grammar size summed over all alternatives.
pub proof fn lemma_rewrite_count(name: Seq<u8>, p: Prod, c: nat)
    ensures
        flatten_prod_model(name, p, c).2 == c + op_count(p),
    decreases p,
{
    match p {
        Prod::Concat(l, r) => {
            lemma_rewrite_count(name, *l, c);
            lemma_rewrite_count(name, *r, flatten_prod_model(name, *l, c).2);
        },
        Prod::Optional(o) => {
            lemma_rewrite_count(aux_name(name, false, c), *o, c + 1);
        },
        Prod::Star(o) => {
            lemma_rewrite_count(aux_name(name, true, c), *o, c + 1);
        },
        Prod::Plus(o) => {
            lemma_rewrite_count(name, *o, c);
            let c1 = flatten_prod_model(name, *o, c).2;
            lemma_rewrite_count(aux_name(name, true, c1), *o, c1 + 1);
        },
        _ => {},
    }
}

/// The whole-grammar form of the rewrite count.
pub proof fn lemma_rules_rewrite_count(rules: Seq<RuleDef>, c: nat)
    ensures
        rules_flat_model(rules, c).1 == c + rules_op_count(rules),
    decreases rules.len(),
{
    if rules.len() > 0 {
        lemma_alts_rewrite_count(rules[0].name@, rules[0].prod@, c);
        lemma_rules_rewrite_count(rules.skip(1), alts_model(rules[0].name@, rules[0].prod@, c).1);
    }
}

proof fn lemma_alts_rewrite_count(name: Seq<u8>, prods: Seq<Prod>, c: nat)
    ensures
        alts_model(name, prods, c).1 == c + prods_op_count(prods),
    decreases prods.len(),
{
    if prods.len() > 0 {
        lemma_rewrite_count(name, prods[0], c);
        lemma_alts_rewrite_count(name, prods.skip(1), flatten_prod_model(name, prods[0], c).2);
    }
}

} // verus!
