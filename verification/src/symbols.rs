//! Symbol classification: a name defined by some flat rule is a
//! nonterminal; any other name that occurs on a right-hand side is a
//! terminal, as is the end-of-input sentinel `#`.

use crate::ast::{FlatProd, FlatRuleDef, defines};
use crate::bytes::{mem_name, sorted_insert, strictly_sorted_names, find_name};
use vstd::prelude::*;

verus! {

/// The symbol `s`, read in the context of `rules`, is a terminal named `t`:
/// either a terminal literal, or a referenced name that no rule defines.
pub open spec fn sym_term_name(rules: Seq<FlatRuleDef>, s: FlatProd, t: Seq<u8>) -> bool {
    match s {
        FlatProd::Terminal(x) => x@ == t,
        FlatProd::NonTerminal(n) => !defines(rules, n@) && n@ == t,
        FlatProd::Eps => false,
    }
}

/// The name `t` occurs as a terminal somewhere in the rules.
pub open spec fn occurs_as_term(rules: Seq<FlatRuleDef>, t: Seq<u8>) -> bool {
    exists|r: int, k: int|
        0 <= r < rules.len() && 0 <= k < rules[r].prod@.len() && sym_term_name(
            rules,
            #[trigger] rules[r].prod@[k],
            t,
        )
}

/// The end-of-input sentinel.
pub open spec fn hash_name() -> Seq<u8> {
    seq![35u8]
}

/// The terminal and nonterminal alphabets of a flat grammar, each strictly
/// sorted.
pub struct SymTab {
    pub nonterms: Vec<Vec<u8>>,
    pub terms: Vec<Vec<u8>>,
}

/// Partition the names of a flat grammar: left-hand-side names are the
/// nonterminals; terminal literals, referenced but undefined names, and `#`
/// are the terminals.
pub fn classify(rules: &Vec<FlatRuleDef>) -> (tab: SymTab)
    ensures
        strictly_sorted_names(tab.nonterms@),
        strictly_sorted_names(tab.terms@),
        forall|n: Seq<u8>| #![trigger mem_name(tab.nonterms@, n)] #![trigger defines(rules@, n)]
            mem_name(tab.nonterms@, n) <==> defines(rules@, n),
        forall|t: Seq<u8>| #![trigger mem_name(tab.terms@, t)] #![trigger occurs_as_term(rules@, t)]
            mem_name(tab.terms@, t) <==> (occurs_as_term(rules@, t) || t == hash_name()),
{
    let mut nonterms: Vec<Vec<u8>> = Vec::new();
    let mut r: usize = 0;
    while r < rules.len()
        invariant
            r <= rules@.len(),
            strictly_sorted_names(nonterms@),
            forall|n: Seq<u8>|
                mem_name(nonterms@, n) <==> exists|q: int|
                    0 <= q < r && (#[trigger] rules@[q]).name@ == n,
        decreases rules@.len() - r,
    {
        sorted_insert(&mut nonterms, &rules[r].name);
        proof {
            assert forall|n: Seq<u8>|
                mem_name(nonterms@, n) <==> exists|q: int|
                    0 <= q < r + 1 && (#[trigger] rules@[q]).name@ == n by {
                if mem_name(nonterms@, n) {
                    if n == rules@[r as int].name@ {
                        assert(rules@[r as int].name@ == n);
                    }
                }
                if exists|q: int| 0 <= q < r + 1 && (#[trigger] rules@[q]).name@ == n {
                    let q = choose|q: int| 0 <= q < r + 1 && (#[trigger] rules@[q]).name@ == n;
                    if q < r {
                        assert(exists|q2: int|
                            0 <= q2 < r && (#[trigger] rules@[q2]).name@ == n);
                    }
                }
            }
        }
        r = r + 1;
    }
    proof {
        assert(forall|n: Seq<u8>| mem_name(nonterms@, n) <==> defines(rules@, n));
    }
    let mut terms: Vec<Vec<u8>> = Vec::new();
    let mut hash: Vec<u8> = Vec::new();
    hash.push(35);
    assert(hash@ =~= hash_name());
    sorted_insert(&mut terms, &hash);
    let mut r: usize = 0;
    while r < rules.len()
        invariant
            r <= rules@.len(),
            strictly_sorted_names(nonterms@),
            strictly_sorted_names(terms@),
            forall|n: Seq<u8>| mem_name(nonterms@, n) <==> defines(rules@, n),
            forall|t: Seq<u8>|
                mem_name(terms@, t) <==> (terms_upto_sym(rules@, r as int, rules@.len() as int, 0, t)
                    || t == hash_name()),
        decreases rules@.len() - r,
    {
        let prod_len = rules[r].prod.len();
        let mut k: usize = 0;
        while k < prod_len
            invariant
                r < rules@.len(),
                k <= rules@[r as int].prod@.len(),
                prod_len == rules@[r as int].prod@.len(),
                strictly_sorted_names(nonterms@),
                strictly_sorted_names(terms@),
                forall|n: Seq<u8>| mem_name(nonterms@, n) <==> defines(rules@, n),
                forall|t: Seq<u8>|
                    mem_name(terms@, t) <==> (terms_upto_sym(
                        rules@,
                        r as int,
                        rules@.len() as int,
                        k as int,
                        t,
                    ) || t == hash_name()),
            decreases prod_len - k,
        {
            let ghost pre = terms@;
            match &rules[r].prod[k] {
                FlatProd::Terminal(x) => {
                    sorted_insert(&mut terms, x);
                    proof {
                        assert(sym_term_name(
                            rules@,
                            rules@[r as int].prod@[k as int],
                            x@,
                        ));
                    }
                },
                FlatProd::NonTerminal(n) => {
                    let found = find_name(&nonterms, n);
                    if found.is_none() {
                        sorted_insert(&mut terms, n);
                        proof {
                            assert(!mem_name(nonterms@, n@));
                            assert(!defines(rules@, n@));
                            assert(sym_term_name(
                                rules@,
                                rules@[r as int].prod@[k as int],
                                n@,
                            ));
                        }
                    } else {
                        proof {
                            assert(mem_name(nonterms@, n@));
                            assert(defines(rules@, n@));
                            assert(forall|t: Seq<u8>|
                                !sym_term_name(rules@, rules@[r as int].prod@[k as int], t));
                        }
                    }
                },
                FlatProd::Eps => {},
            }
            proof {
                lemma_terms_upto_sym_step(rules@, r as int, k as int, pre, terms@);
            }
            k = k + 1;
        }
        proof {
            assert forall|t: Seq<u8>|
                terms_upto_sym(rules@, r as int, rules@.len() as int, k as int, t)
                    <==> terms_upto_sym(rules@, r + 1, rules@.len() as int, 0, t) by {
                if terms_upto_sym(rules@, r as int, rules@.len() as int, k as int, t) {
                }
                if terms_upto_sym(rules@, r + 1, rules@.len() as int, 0, t) {
                    let (q, m) = choose|q: int, m: int|
                        0 <= q < rules@.len() && 0 <= m < rules@[q].prod@.len() && (q < r + 1 || (q
                            == r + 1 && m < 0)) && sym_term_name(
                            rules@,
                            #[trigger] rules@[q].prod@[m],
                            t,
                        );
                    if q == r {
                        assert(m < k);
                    }
                }
            }
        }
        r = r + 1;
    }
    proof {
        assert forall|t: Seq<u8>|
            mem_name(terms@, t) <==> (occurs_as_term(rules@, t) || t == hash_name()) by {
            assert(terms_upto_sym(rules@, rules@.len() as int, rules@.len() as int, 0, t)
                <==> occurs_as_term(rules@, t)) by {
                if terms_upto_sym(rules@, rules@.len() as int, rules@.len() as int, 0, t) {
                }
                if occurs_as_term(rules@, t) {
                }
            }
        }
    }
    SymTab { nonterms, terms }
}

/// The name `t` occurs as a terminal before position (`r`, `k`) in the
/// left-to-right scan of the rules.
pub open spec fn terms_upto_sym(
    rules: Seq<FlatRuleDef>,
    r: int,
    r_total: int,
    k: int,
    t: Seq<u8>,
) -> bool {
    exists|q: int, m: int|
        0 <= q < rules.len() && 0 <= m < rules[q].prod@.len() && (q < r || (q == r && m < k))
            && sym_term_name(rules, #[trigger] rules[q].prod@[m], t)
}

proof fn lemma_terms_upto_sym_step(
    rules: Seq<FlatRuleDef>,
    r: int,
    k: int,
    pre: Seq<Vec<u8>>,
    post: Seq<Vec<u8>>,
)
    requires
        0 <= r < rules.len(),
        0 <= k < rules[r].prod@.len(),
        forall|t: Seq<u8>|
            mem_name(post, t) <==> (mem_name(pre, t) || sym_term_name(
                rules,
                rules[r].prod@[k],
                t,
            )),
        forall|t: Seq<u8>|
            mem_name(pre, t) <==> (terms_upto_sym(rules, r, rules.len() as int, k, t) || t
                == hash_name()),
    ensures
        forall|t: Seq<u8>|
            mem_name(post, t) <==> (terms_upto_sym(rules, r, rules.len() as int, k + 1, t) || t
                == hash_name()),
{
    assert forall|t: Seq<u8>|
        mem_name(post, t) <==> (terms_upto_sym(rules, r, rules.len() as int, k + 1, t) || t
            == hash_name()) by {
        if mem_name(post, t) {
            if mem_name(pre, t) {
            } else {
                assert(sym_term_name(rules, rules[r].prod@[k], t));
            }
        }
        if terms_upto_sym(rules, r, rules.len() as int, k + 1, t) {
            let (q, m) = choose|q: int, m: int|
                0 <= q < rules.len() && 0 <= m < rules[q].prod@.len() && (q < r || (q == r && m < k
                    + 1)) && sym_term_name(rules, #[trigger] rules[q].prod@[m], t);
            if q < r || (q == r && m < k) {
                assert(terms_upto_sym(rules, r, rules.len() as int, k, t));
            } else {
                assert(q == r && m == k);
            }
        }
    }
}

} // verus!
