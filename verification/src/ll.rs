//! Nullable, FIRST and FOLLOW sets, computed as monotone fixed points over
//! finite set lattices.
//!
//! The result type [`TermSet`] keys the defined nonterminal names (strictly
//! sorted) against bitsets over the strictly sorted terminal alphabet; for
//! FIRST an extra flag per key records whether epsilon is derivable.  The
//! contracts characterize each result as the exact fixed point of the
//! one-step closure demanded by the defining equations: membership holds if
//! and only if one more iteration would demand it, so a further pass
//! changes nothing.

use crate::ast::{FlatProd, FlatRuleDef, defines};
use crate::bytes::{
    copy_bytes,
    find_name,
    lemma_sorted_unique,
    mem_name,
    strictly_sorted_names,
};
use crate::symbols::{classify, hash_name, occurs_as_term, sym_term_name};
use crate::bits::{count_row, count_rows, lemma_count_row_le, lemma_count_rows_le, lemma_count_rows_bound};
use vstd::prelude::*;

verus! {

/// A mapping from nonterminal names to sets of terminals, with an optional
/// epsilon marker per name.
pub struct TermSet {
    /// The defined nonterminal names, strictly sorted.
    pub keys: Vec<Vec<u8>>,
    /// The terminal alphabet, strictly sorted; the bitsets are indexed by
    /// it.
    pub terms: Vec<Vec<u8>>,
    /// Per key: whether epsilon belongs to the set.
    pub eps: Vec<bool>,
    /// Per key: membership of each terminal of `terms`.
    pub sets: Vec<Vec<bool>>,
}

impl TermSet {
    pub open spec fn wf(self) -> bool {
        &&& strictly_sorted_names(self.keys@)
        &&& strictly_sorted_names(self.terms@)
        &&& self.eps@.len() == self.keys@.len()
        &&& self.sets@.len() == self.keys@.len()
        &&& forall|i: int|
            0 <= i < self.sets@.len() ==> (#[trigger] self.sets@[i])@.len() == self.terms@.len()
    }

    pub open spec fn has_key(self, n: Seq<u8>) -> bool {
        mem_name(self.keys@, n)
    }

    /// Epsilon belongs to the set of `n`.
    pub open spec fn eps_of(self, n: Seq<u8>) -> bool {
        exists|i: int| 0 <= i < self.keys@.len() && (#[trigger] self.keys@[i])@ == n && self.eps@[i]
    }

    /// The terminal `t` belongs to the set of `n`.
    pub open spec fn has(self, n: Seq<u8>, t: Seq<u8>) -> bool {
        exists|i: int, j: int|
            #![trigger self.keys@[i], self.terms@[j]]
            0 <= i < self.keys@.len() && 0 <= j < self.terms@.len() && self.keys@[i]@ == n
                && self.terms@[j]@ == t && self.sets@[i]@[j]
    }

    /// Same keys and terminal alphabet, and pointwise inclusion of the
    /// contents.
    pub open spec fn le(self, other: TermSet) -> bool {
        &&& self.keys@.len() == other.keys@.len()
        &&& self.terms@.len() == other.terms@.len()
        &&& forall|i: int|
            0 <= i < self.keys@.len() ==> (#[trigger] self.keys@[i])@ == other.keys@[i]@
        &&& forall|j: int|
            0 <= j < self.terms@.len() ==> (#[trigger] self.terms@[j])@ == other.terms@[j]@
        &&& forall|i: int| 0 <= i < self.eps@.len() ==> (#[trigger] self.eps@[i] ==> other.eps@[i])
        &&& forall|i: int, j: int|
            #![trigger self.sets@[i]@[j]]
            0 <= i < self.sets@.len() && 0 <= j < self.sets@[i]@.len() ==> (self.sets@[i]@[j]
                ==> other.sets@[i]@[j])
    }

    /// List the set of `n` exactly: `_` first when epsilon belongs to it,
    /// then each member terminal once, in strictly sorted order; `None`
    /// when `n` is not a key.
    pub fn get(&self, n: &Vec<u8>) -> (r: Option<Vec<Vec<u8>>>)
        requires
            self.wf(),
        ensures
            match r {
                Some(v) => listing_ok(*self, n@, v@),
                None => !self.has_key(n@),
            },
    {
        let found = find_name(&self.keys, n);
        match found {
            None => None,
            Some(i) => {
                proof {
                    if self.eps_of(n@) {
                        let i2 = choose|i2: int|
                            0 <= i2 < self.keys@.len() && (#[trigger] self.keys@[i2])@ == n@
                                && self.eps@[i2];
                        lemma_sorted_unique(self.keys@, i as int, i2);
                    }
                }
                let mut cols: Vec<usize> = Vec::new();
                let mut j: usize = 0;
                while j < self.terms.len()
                    invariant
                        self.wf(),
                        i < self.keys@.len(),
                        j <= self.terms@.len(),
                        forall|m: int|
                            0 <= m < cols@.len() ==> (#[trigger] cols@[m]) < j
                                && self.sets@[i as int]@[cols@[m] as int],
                        forall|m1: int, m2: int|
                            0 <= m1 < m2 < cols@.len() ==> cols@[m1] < cols@[m2],
                        forall|j2: int|
                            0 <= j2 < j && (#[trigger] self.sets@[i as int]@[j2])
                                ==> cols@.contains(j2 as usize),
                    decreases self.terms@.len() - j,
                {
                    if self.sets[i][j] {
                        let ghost pre = cols@;
                        cols.push(j);
                        proof {
                            assert(forall|m: int|
                                0 <= m < pre.len() ==> #[trigger] cols@[m] == pre[m]);
                            assert(cols@[cols@.len() - 1] == j);
                            assert forall|j2: int|
                                0 <= j2 < j + 1 && (#[trigger] self.sets@[i as int]@[j2])
                                    implies cols@.contains(j2 as usize) by {
                                if j2 < j {
                                    let m = choose|m: int|
                                        0 <= m < pre.len() && pre[m] == j2 as usize;
                                    assert(cols@[m] == j2 as usize);
                                } else {
                                    assert(cols@[cols@.len() - 1] == j2 as usize);
                                }
                            }
                        }
                    } else {
                        proof {
                            assert forall|j2: int|
                                0 <= j2 < j + 1 && (#[trigger] self.sets@[i as int]@[j2])
                                    implies cols@.contains(j2 as usize) by {
                                if j2 < j {
                                    let m = choose|m: int|
                                        0 <= m < cols@.len() && cols@[m] == j2 as usize;
                                }
                            }
                        }
                    }
                    j = j + 1;
                }
                let mut v: Vec<Vec<u8>> = Vec::new();
                let ghost base: int = if self.eps_of(n@) { 1int } else { 0int };
                if self.eps[i] {
                    let mut u: Vec<u8> = Vec::new();
                    u.push(95);
                    assert(u@ =~= seq![95u8]);
                    v.push(u);
                    proof {
                        assert(self.eps_of(n@));
                    }
                }
                let mut k: usize = 0;
                while k < cols.len()
                    invariant
                        self.wf(),
                        i < self.keys@.len(),
                        k <= cols@.len(),
                        base == if self.eps_of(n@) { 1int } else { 0int },
                        forall|m: int|
                            0 <= m < cols@.len() ==> (#[trigger] cols@[m])
                                < self.terms@.len() && self.sets@[i as int]@[cols@[m] as int],
                        v@.len() == base + k,
                        self.eps_of(n@) ==> v@[0]@ == seq![95u8],
                        forall|k2: int|
                            0 <= k2 < k ==> (#[trigger] v@[base + k2])@
                                == self.terms@[cols@[k2] as int]@,
                    decreases cols@.len() - k,
                {
                    let ghost pre = v@;
                    v.push(copy_bytes(&self.terms[cols[k]]));
                    proof {
                        assert(forall|m: int| 0 <= m < pre.len() ==> #[trigger] v@[m] == pre[m]);
                        assert(v@[base + k]@ == self.terms@[cols@[k as int] as int]@);
                    }
                    k = k + 1;
                }
                proof {
                    assert(self.terms@.len() <= usize::MAX) by {
                        assert(self.terms@.len() == self.terms.len());
                    }
                    lemma_listing_from_cols(*self, n@, i as int, cols@, base, v@);
                }
                Some(v)
            },
        }
    }
}

/// An exact listing of the set of `n`: the epsilon marker `_` first when
/// epsilon belongs to the set, then each member terminal exactly once in
/// strictly sorted order.
pub open spec fn listing_ok(ts: TermSet, n: Seq<u8>, v: Seq<Vec<u8>>) -> bool {
    let base: int = if ts.eps_of(n) {
        1int
    } else {
        0int
    };
    &&& ts.has_key(n)
    &&& v.len() >= base
    &&& (ts.eps_of(n) ==> v[0]@ == seq![95u8])
    &&& forall|k1: int, k2: int|
        base <= k1 < k2 < v.len() ==> crate::bytes::lex_lt((#[trigger] v[k1])@, (#[trigger] v[k2])@)
    &&& forall|t: Seq<u8>| #![trigger ts.has(n, t)]
        ts.has(n, t) <==> (exists|k: int| base <= k < v.len() && (#[trigger] v[k])@ == t)
}

/// A name list built from the member columns of a sorted alphabet is an
/// exact listing.
proof fn lemma_listing_from_cols(
    ts: TermSet,
    n: Seq<u8>,
    i: int,
    cols: Seq<usize>,
    base: int,
    v: Seq<Vec<u8>>,
)
    requires
        ts.wf(),
        ts.terms@.len() <= usize::MAX,
        0 <= i < ts.keys@.len(),
        ts.keys@[i]@ == n,
        base == if ts.eps_of(n) { 1int } else { 0int },
        forall|m: int|
            0 <= m < cols.len() ==> (#[trigger] cols[m]) < ts.terms@.len()
                && ts.sets@[i]@[cols[m] as int],
        forall|m1: int, m2: int| 0 <= m1 < m2 < cols.len() ==> cols[m1] < cols[m2],
        forall|j2: int|
            0 <= j2 < ts.terms@.len() && (#[trigger] ts.sets@[i]@[j2]) ==> cols.contains(
                j2 as usize,
            ),
        v.len() == base + cols.len(),
        ts.eps_of(n) ==> v[0]@ == seq![95u8],
        forall|k2: int|
            0 <= k2 < cols.len() ==> (#[trigger] v[base + k2])@ == ts.terms@[cols[k2] as int]@,
    ensures
        listing_ok(ts, n, v),
{
    assert(ts.has_key(n)) by {
        assert(ts.keys@[i]@ == n);
    }
    assert forall|k1: int, k2: int|
        base <= k1 < k2 < v.len() implies crate::bytes::lex_lt(
        (#[trigger] v[k1])@,
        (#[trigger] v[k2])@,
    ) by {
        let m1 = k1 - base;
        let m2 = k2 - base;
        assert(v[base + m1]@ == ts.terms@[cols[m1] as int]@);
        assert(v[base + m2]@ == ts.terms@[cols[m2] as int]@);
        assert(cols[k1 - base] < cols[k2 - base]);
        assert(crate::bytes::lex_lt(
            ts.terms@[cols[k1 - base] as int]@,
            ts.terms@[cols[k2 - base] as int]@,
        ));
    }
    assert forall|t: Seq<u8>| #![trigger ts.has(n, t)]
        ts.has(n, t) <==> (exists|k: int| base <= k < v.len() && (#[trigger] v[k])@ == t) by {
        if ts.has(n, t) {
            let (i2, j2) = choose|i2: int, j2: int|
                #![trigger ts.keys@[i2], ts.terms@[j2]]
                0 <= i2 < ts.keys@.len() && 0 <= j2 < ts.terms@.len() && ts.keys@[i2]@ == n
                    && ts.terms@[j2]@ == t && ts.sets@[i2]@[j2];
            lemma_sorted_unique(ts.keys@, i, i2);
            assert(ts.sets@[i]@[j2]);
            assert(cols.contains(j2 as usize));
            let m = choose|m: int| 0 <= m < cols.len() && cols[m] == j2 as usize;
            assert(v[base + m]@ == ts.terms@[cols[m] as int]@);
            assert(cols[m] as int == j2);
            assert(v[base + m]@ == t);
        }
        if exists|k: int| base <= k < v.len() && (#[trigger] v[k])@ == t {
            let k = choose|k: int| base <= k < v.len() && (#[trigger] v[k])@ == t;
            let m = k - base;
            assert(v[base + m]@ == ts.terms@[cols[m] as int]@);
            assert(v[k]@ == ts.terms@[cols[k - base] as int]@);
            assert(ts.sets@[i]@[cols[k - base] as int]);
            assert(ts.keys@[i]@ == n && ts.terms@[cols[k - base] as int]@ == t);
            assert(ts.has(n, t));
        }
    }
}

/// The symbol `s` can derive the empty string, as recorded in `ts`.
pub open spec fn sym_nullable(rules: Seq<FlatRuleDef>, ts: TermSet, s: FlatProd) -> bool {
    match s {
        FlatProd::Eps => true,
        FlatProd::Terminal(_) => false,
        FlatProd::NonTerminal(n) => defines(rules, n@) && ts.eps_of(n@),
    }
}

/// The terminal `t` can begin a string derived from the symbol `s`, as
/// recorded in `ts`.  A terminal begins itself; an undefined name is a
/// terminal.
pub open spec fn sym_first_has(
    rules: Seq<FlatRuleDef>,
    ts: TermSet,
    s: FlatProd,
    t: Seq<u8>,
) -> bool {
    match s {
        FlatProd::Eps => false,
        FlatProd::Terminal(x) => x@ == t,
        FlatProd::NonTerminal(n) => if defines(rules, n@) {
            ts.has(n@, t)
        } else {
            n@ == t
        },
    }
}

/// The first `k` symbols are all nullable.
pub open spec fn nullable_prefix(
    rules: Seq<FlatRuleDef>,
    ts: TermSet,
    prod: Seq<FlatProd>,
    k: int,
) -> bool {
    forall|m: int| 0 <= m < k ==> sym_nullable(rules, ts, #[trigger] prod[m])
}

/// One more FIRST iteration over `ts` would put `t` into the set of `n`:
/// some rule for `n` has a symbol whose FIRST contains `t` behind a
/// nullable prefix.
pub open spec fn first_demand(
    rules: Seq<FlatRuleDef>,
    ts: TermSet,
    n: Seq<u8>,
    t: Seq<u8>,
) -> bool {
    exists|r: int, k: int|
        #![trigger rules[r].prod@[k]]
        0 <= r < rules.len() && rules[r].name@ == n && 0 <= k < rules[r].prod@.len()
            && nullable_prefix(rules, ts, rules[r].prod@, k) && sym_first_has(
            rules,
            ts,
            rules[r].prod@[k],
            t,
        )
}

/// One more FIRST iteration over `ts` would mark `n` nullable: some rule
/// for `n` consists of nullable symbols only.
pub open spec fn eps_demand(rules: Seq<FlatRuleDef>, ts: TermSet, n: Seq<u8>) -> bool {
    exists|r: int|
        0 <= r < rules.len() && (#[trigger] rules[r]).name@ == n && nullable_prefix(
            rules,
            ts,
            rules[r].prod@,
            rules[r].prod@.len() as int,
        )
}

/// Name-level inclusion of the contents of two sets, whatever their
/// shapes.
pub open spec fn ts_below(a: TermSet, b: TermSet) -> bool {
    &&& forall|n: Seq<u8>, t: Seq<u8>| #![trigger a.has(n, t)] #![trigger b.has(n, t)]
        a.has(n, t) ==> b.has(n, t)
    &&& forall|n: Seq<u8>| #![trigger a.eps_of(n)] #![trigger b.eps_of(n)]
        a.eps_of(n) ==> b.eps_of(n)
}

/// `other` satisfies the FIRST equations: everything one more step would
/// demand of it is already in it.
pub open spec fn first_closed(rules: Seq<FlatRuleDef>, other: TermSet) -> bool {
    &&& forall|n: Seq<u8>, t: Seq<u8>|
        #![trigger first_demand(rules, other, n, t)]
        #![trigger other.has(n, t)]
        first_demand(rules, other, n, t) ==> other.has(n, t)
    &&& forall|n: Seq<u8>|
        #![trigger eps_demand(rules, other, n)]
        #![trigger other.eps_of(n)]
        eps_demand(rules, other, n) ==> other.eps_of(n)
}

/// Demands only grow under name-level inclusion.
proof fn lemma_demand_monotone_below(rules: Seq<FlatRuleDef>, a: TermSet, b: TermSet)
    requires
        ts_below(a, b),
    ensures
        forall|n: Seq<u8>, t: Seq<u8>|
            first_demand(rules, a, n, t) ==> first_demand(rules, b, n, t),
        forall|n: Seq<u8>| eps_demand(rules, a, n) ==> eps_demand(rules, b, n),
{
    assert forall|s: FlatProd|
        sym_nullable(rules, a, s) implies sym_nullable(rules, b, s) by {
        match s {
            FlatProd::NonTerminal(nn) => {
                assert(a.eps_of(nn@) ==> b.eps_of(nn@));
            },
            _ => {},
        }
    }
    assert forall|n: Seq<u8>, t: Seq<u8>|
        first_demand(rules, a, n, t) implies first_demand(rules, b, n, t) by {
        let (r, k) = choose|r: int, k: int|
            #![trigger rules[r].prod@[k]]
            0 <= r < rules.len() && rules[r].name@ == n && 0 <= k < rules[r].prod@.len()
                && nullable_prefix(rules, a, rules[r].prod@, k) && sym_first_has(
                rules,
                a,
                rules[r].prod@[k],
                t,
            );
        assert(nullable_prefix(rules, b, rules[r].prod@, k));
        assert(sym_first_has(rules, b, rules[r].prod@[k], t)) by {
            match rules[r].prod@[k] {
                FlatProd::NonTerminal(nn) => {
                    assert(a.has(nn@, t) ==> b.has(nn@, t));
                },
                _ => {},
            }
        }
        assert(first_demand(rules, b, n, t));
    }
    assert forall|n: Seq<u8>| eps_demand(rules, a, n) implies eps_demand(rules, b, n) by {
        let r = choose|r: int|
            0 <= r < rules.len() && (#[trigger] rules[r]).name@ == n && nullable_prefix(
                rules,
                a,
                rules[r].prod@,
                rules[r].prod@.len() as int,
            );
        assert(nullable_prefix(rules, b, rules[r].prod@, rules[r].prod@.len() as int));
        assert(eps_demand(rules, b, n));
    }
}

/// One pass preserves the bound by any closed set.
proof fn lemma_first_below_step(
    rules: Seq<FlatRuleDef>,
    cur: TermSet,
    next: TermSet,
    other: TermSet,
)
    requires
        cur.wf(),
        next.keys@.len() == cur.keys@.len(),
        next.terms@.len() == cur.terms@.len(),
        forall|i: int| 0 <= i < cur.keys@.len() ==> (#[trigger] next.keys@[i])@ == cur.keys@[i]@,
        forall|j: int|
            0 <= j < cur.terms@.len() ==> (#[trigger] next.terms@[j])@ == cur.terms@[j]@,
        next.eps@.len() == cur.keys@.len(),
        next.sets@.len() == cur.keys@.len(),
        forall|i: int|
            0 <= i < cur.keys@.len() ==> (#[trigger] next.eps@[i] == (cur.eps@[i] || eps_demand(
                rules,
                cur,
                cur.keys@[i]@,
            ))),
        forall|i: int, j: int|
            #![trigger next.sets@[i]@[j]]
            0 <= i < cur.keys@.len() && 0 <= j < cur.terms@.len() ==> (next.sets@[i]@[j]
                == (cur.sets@[i]@[j] || first_demand(rules, cur, cur.keys@[i]@, cur.terms@[j]@))),
        first_closed(rules, other),
        ts_below(cur, other),
    ensures
        ts_below(next, other),
{
    lemma_demand_monotone_below(rules, cur, other);
    assert forall|n: Seq<u8>, t: Seq<u8>| next.has(n, t) implies other.has(n, t) by {
        let (i, j) = choose|i: int, j: int|
            #![trigger next.keys@[i], next.terms@[j]]
            0 <= i < next.keys@.len() && 0 <= j < next.terms@.len() && next.keys@[i]@ == n
                && next.terms@[j]@ == t && next.sets@[i]@[j];
        assert(cur.keys@[i]@ == n && cur.terms@[j]@ == t);
        if cur.sets@[i]@[j] {
            assert(cur.has(n, t));
        } else {
            assert(first_demand(rules, cur, n, t));
            assert(first_demand(rules, other, n, t));
        }
    }
    assert forall|n: Seq<u8>| next.eps_of(n) implies other.eps_of(n) by {
        let i = choose|i: int|
            0 <= i < next.keys@.len() && (#[trigger] next.keys@[i])@ == n && next.eps@[i];
        assert(cur.keys@[i]@ == n);
        if cur.eps@[i] {
            assert(cur.eps_of(n));
        } else {
            assert(eps_demand(rules, cur, n));
            assert(eps_demand(rules, other, n));
        }
    }
}

/// Decide `sym_nullable`.
fn sym_nullable_exec(rules: &Vec<FlatRuleDef>, ts: &TermSet, s: &FlatProd) -> (r: bool)
    requires
        ts.wf(),
        forall|n: Seq<u8>| #![trigger ts.has_key(n)] #![trigger defines(rules@, n)] ts.has_key(n) <==> defines(rules@, n),
    ensures
        r == sym_nullable(rules@, *ts, *s),
{
    match s {
        FlatProd::Eps => true,
        FlatProd::Terminal(_) => false,
        FlatProd::NonTerminal(n) => {
            let found = find_name(&ts.keys, n);
            match found {
                None => {
                    assert(!defines(rules@, n@));
                    false
                },
                Some(i) => {
                    proof {
                        assert(mem_name(ts.keys@, n@));
                        if ts.eps@[i as int] {
                            assert(ts.eps_of(n@));
                        }
                        if ts.eps_of(n@) {
                            let i2 = choose|i2: int|
                                0 <= i2 < ts.keys@.len() && (#[trigger] ts.keys@[i2])@ == n@
                                    && ts.eps@[i2];
                            lemma_sorted_unique(ts.keys@, i as int, i2);
                        }
                    }
                    ts.eps[i]
                },
            }
        },
    }
}

/// Decide `sym_first_has`.
fn sym_first_has_exec(rules: &Vec<FlatRuleDef>, ts: &TermSet, s: &FlatProd, t: &Vec<u8>) -> (r:
    bool)
    requires
        ts.wf(),
        forall|n: Seq<u8>| #![trigger ts.has_key(n)] #![trigger defines(rules@, n)] ts.has_key(n) <==> defines(rules@, n),
    ensures
        r == sym_first_has(rules@, *ts, *s, t@),
{
    match s {
        FlatProd::Eps => false,
        FlatProd::Terminal(x) => crate::bytes::bytes_eq(x, t),
        FlatProd::NonTerminal(n) => {
            let found = find_name(&ts.keys, n);
            match found {
                None => {
                    assert(!defines(rules@, n@));
                    crate::bytes::bytes_eq(n, t)
                },
                Some(i) => {
                    let found_t = find_name(&ts.terms, t);
                    match found_t {
                        None => {
                            proof {
                                assert(mem_name(ts.keys@, n@));
                                if ts.has(n@, t@) {
                                    let (i2, j2) = choose|i2: int, j2: int|
                                        #![trigger ts.keys@[i2], ts.terms@[j2]]
                                        0 <= i2 < ts.keys@.len() && 0 <= j2 < ts.terms@.len()
                                            && ts.keys@[i2]@ == n@ && ts.terms@[j2]@ == t@
                                            && ts.sets@[i2]@[j2];
                                    assert(mem_name(ts.terms@, t@));
                                }
                            }
                            false
                        },
                        Some(j) => {
                            proof {
                                assert(mem_name(ts.keys@, n@));
                                if ts.sets@[i as int]@[j as int] {
                                    assert(ts.has(n@, t@));
                                }
                                if ts.has(n@, t@) {
                                    let (i2, j2) = choose|i2: int, j2: int|
                                        #![trigger ts.keys@[i2], ts.terms@[j2]]
                                        0 <= i2 < ts.keys@.len() && 0 <= j2 < ts.terms@.len()
                                            && ts.keys@[i2]@ == n@ && ts.terms@[j2]@ == t@
                                            && ts.sets@[i2]@[j2];
                                    lemma_sorted_unique(ts.keys@, i as int, i2);
                                    lemma_sorted_unique(ts.terms@, j as int, j2);
                                }
                            }
                            ts.sets[i][j]
                        },
                    }
                },
            }
        },
    }
}

/// Decide `first_demand(rules, ts, n, t)`.
fn first_demand_exec(rules: &Vec<FlatRuleDef>, ts: &TermSet, n: &Vec<u8>, t: &Vec<u8>) -> (r: bool)
    requires
        ts.wf(),
        forall|nn: Seq<u8>| #![trigger ts.has_key(nn)] #![trigger defines(rules@, nn)] ts.has_key(nn) <==> defines(rules@, nn),
    ensures
        r == first_demand(rules@, *ts, n@, t@),
{
    let mut r: usize = 0;
    while r < rules.len()
        invariant
            r <= rules@.len(),
            ts.wf(),
            forall|nn: Seq<u8>| #![trigger ts.has_key(nn)] #![trigger defines(rules@, nn)] ts.has_key(nn) <==> defines(rules@, nn),
            forall|q: int, k: int|
                #![trigger rules@[q].prod@[k]]
                0 <= q < r && rules@[q].name@ == n@ && 0 <= k < rules@[q].prod@.len()
                    && nullable_prefix(rules@, *ts, rules@[q].prod@, k) ==> !sym_first_has(
                    rules@,
                    *ts,
                    rules@[q].prod@[k],
                    t@,
                ),
        decreases rules@.len() - r,
    {
        if crate::bytes::bytes_eq(&rules[r].name, n) {
            let prod_len = rules[r].prod.len();
            let mut k: usize = 0;
            let mut broke: bool = false;
            while k < prod_len && !broke
                invariant
                    r < rules@.len(),
                    k <= prod_len,
                    prod_len == rules@[r as int].prod@.len(),
                    rules@[r as int].name@ == n@,
                    ts.wf(),
                    forall|nn: Seq<u8>| #![trigger ts.has_key(nn)] #![trigger defines(rules@, nn)] ts.has_key(nn) <==> defines(rules@, nn),
                    !broke ==> nullable_prefix(rules@, *ts, rules@[r as int].prod@, k as int),
                    broke ==> !sym_nullable(
                        rules@,
                        *ts,
                        rules@[r as int].prod@[k - 1],
                    ) && k >= 1,
                    forall|m: int|
                        0 <= m < k && nullable_prefix(rules@, *ts, rules@[r as int].prod@, m)
                            ==> !sym_first_has(
                            rules@,
                            *ts,
                            #[trigger] rules@[r as int].prod@[m],
                            t@,
                        ),
                decreases prod_len - k,
            {
                if sym_first_has_exec(rules, ts, &rules[r].prod[k], t) {
                    proof {
                        let ghost wr = r as int;
                        let ghost wk = k as int;
                        assert(0 <= wr < rules@.len() && rules@[wr].name@ == n@ && 0 <= wk
                            < rules@[wr].prod@.len() && nullable_prefix(
                            rules@,
                            *ts,
                            rules@[wr].prod@,
                            wk,
                        ) && sym_first_has(rules@, *ts, rules@[wr].prod@[wk], t@));
                        assert(first_demand(rules@, *ts, n@, t@));
                    }
                    return true;
                }
                if !sym_nullable_exec(rules, ts, &rules[r].prod[k]) {
                    broke = true;
                } else {
                    proof {
                        assert forall|m: int|
                            0 <= m < k + 1 implies sym_nullable(
                            rules@,
                            *ts,
                            #[trigger] rules@[r as int].prod@[m],
                        ) by {}
                    }
                }
                k = k + 1;
            }
            proof {
                assert forall|kk: int|
                    0 <= kk < rules@[r as int].prod@.len() && nullable_prefix(
                        rules@,
                        *ts,
                        rules@[r as int].prod@,
                        kk,
                    ) implies !sym_first_has(
                    rules@,
                    *ts,
                    #[trigger] rules@[r as int].prod@[kk],
                    t@,
                ) by {
                    if kk >= k {
                        assert(broke);
                        assert(!sym_nullable(rules@, *ts, rules@[r as int].prod@[k - 1]));
                        assert(sym_nullable(rules@, *ts, rules@[r as int].prod@[k - 1]));
                    }
                }
            }
        }
        r = r + 1;
    }
    proof {
        if first_demand(rules@, *ts, n@, t@) {
            let (q, k) = choose|q: int, k: int|
                #![trigger rules@[q].prod@[k]]
                0 <= q < rules@.len() && rules@[q].name@ == n@ && 0 <= k < rules@[q].prod@.len()
                    && nullable_prefix(rules@, *ts, rules@[q].prod@, k) && sym_first_has(
                    rules@,
                    *ts,
                    rules@[q].prod@[k],
                    t@,
                );
            assert(false);
        }
    }
    false
}

/// Decide `eps_demand(rules, ts, n)`.
fn eps_demand_exec(rules: &Vec<FlatRuleDef>, ts: &TermSet, n: &Vec<u8>) -> (r: bool)
    requires
        ts.wf(),
        forall|nn: Seq<u8>| #![trigger ts.has_key(nn)] #![trigger defines(rules@, nn)] ts.has_key(nn) <==> defines(rules@, nn),
    ensures
        r == eps_demand(rules@, *ts, n@),
{
    let mut r: usize = 0;
    while r < rules.len()
        invariant
            r <= rules@.len(),
            ts.wf(),
            forall|nn: Seq<u8>| #![trigger ts.has_key(nn)] #![trigger defines(rules@, nn)] ts.has_key(nn) <==> defines(rules@, nn),
            forall|q: int|
                0 <= q < r && (#[trigger] rules@[q]).name@ == n@ ==> !nullable_prefix(
                    rules@,
                    *ts,
                    rules@[q].prod@,
                    rules@[q].prod@.len() as int,
                ),
        decreases rules@.len() - r,
    {
        if crate::bytes::bytes_eq(&rules[r].name, n) {
            let prod_len = rules[r].prod.len();
            let mut k: usize = 0;
            let mut all: bool = true;
            while k < prod_len && all
                invariant
                    r < rules@.len(),
                    k <= prod_len,
                    prod_len == rules@[r as int].prod@.len(),
                    ts.wf(),
                    forall|nn: Seq<u8>| #![trigger ts.has_key(nn)] #![trigger defines(rules@, nn)] ts.has_key(nn) <==> defines(rules@, nn),
                    all ==> nullable_prefix(rules@, *ts, rules@[r as int].prod@, k as int),
                    !all ==> !nullable_prefix(
                        rules@,
                        *ts,
                        rules@[r as int].prod@,
                        rules@[r as int].prod@.len() as int,
                    ),
                decreases prod_len - k,
            {
                if !sym_nullable_exec(rules, ts, &rules[r].prod[k]) {
                    all = false;
                } else {
                    proof {
                        assert forall|m: int|
                            0 <= m < k + 1 implies sym_nullable(
                            rules@,
                            *ts,
                            #[trigger] rules@[r as int].prod@[m],
                        ) by {}
                    }
                }
                k = k + 1;
            }
            if all {
                proof {
                    assert(nullable_prefix(
                        rules@,
                        *ts,
                        rules@[r as int].prod@,
                        rules@[r as int].prod@.len() as int,
                    ));
                    assert(eps_demand(rules@, *ts, n@));
                }
                return true;
            }
        }
        r = r + 1;
    }
    proof {
        if eps_demand(rules@, *ts, n@) {
            let q = choose|q: int|
                0 <= q < rules@.len() && (#[trigger] rules@[q]).name@ == n@ && nullable_prefix(
                    rules@,
                    *ts,
                    rules@[q].prod@,
                    rules@[q].prod@.len() as int,
                );
            assert(false);
        }
    }
    false
}

/// One full FIRST iteration: every bit of the result is the old bit or the
/// demand of one more step, nothing else.
fn first_pass(rules: &Vec<FlatRuleDef>, cur: &TermSet) -> (next: TermSet)
    requires
        cur.wf(),
        forall|n: Seq<u8>| #![trigger cur.has_key(n)] #![trigger defines(rules@, n)] cur.has_key(n) <==> defines(rules@, n),
    ensures
        next.wf(),
        next.keys@.len() == cur.keys@.len(),
        next.terms@.len() == cur.terms@.len(),
        forall|i: int| 0 <= i < cur.keys@.len() ==> (#[trigger] next.keys@[i])@ == cur.keys@[i]@,
        forall|j: int| 0 <= j < cur.terms@.len() ==> (#[trigger] next.terms@[j])@ == cur.terms@[j]@,
        forall|i: int|
            0 <= i < cur.keys@.len() ==> (#[trigger] next.eps@[i] == (cur.eps@[i] || eps_demand(
                rules@,
                *cur,
                cur.keys@[i]@,
            ))),
        forall|i: int, j: int|
            #![trigger next.sets@[i]@[j]]
            0 <= i < cur.keys@.len() && 0 <= j < cur.terms@.len() ==> (next.sets@[i]@[j]
                == (cur.sets@[i]@[j] || first_demand(rules@, *cur, cur.keys@[i]@, cur.terms@[j]@))),
{
    let keys = copy_names(&cur.keys);
    let terms = copy_names(&cur.terms);
    let mut eps: Vec<bool> = Vec::new();
    let mut sets: Vec<Vec<bool>> = Vec::new();
    let mut i: usize = 0;
    while i < cur.keys.len()
        invariant
            cur.wf(),
            forall|n: Seq<u8>| #![trigger cur.has_key(n)] #![trigger defines(rules@, n)] cur.has_key(n) <==> defines(rules@, n),
            i <= cur.keys@.len(),
            eps@.len() == i,
            sets@.len() == i,
            forall|a: int|
                0 <= a < i ==> (#[trigger] eps@[a] == (cur.eps@[a] || eps_demand(
                    rules@,
                    *cur,
                    cur.keys@[a]@,
                ))),
            forall|a: int| 0 <= a < i ==> (#[trigger] sets@[a])@.len() == cur.terms@.len(),
            forall|a: int, b: int|
                #![trigger sets@[a]@[b]]
                0 <= a < i && 0 <= b < cur.terms@.len() ==> (sets@[a]@[b] == (cur.sets@[a]@[b]
                    || first_demand(rules@, *cur, cur.keys@[a]@, cur.terms@[b]@))),
        decreases cur.keys@.len() - i,
    {
        let e = cur.eps[i] || eps_demand_exec(rules, cur, &cur.keys[i]);
        eps.push(e);
        let mut row: Vec<bool> = Vec::new();
        let mut j: usize = 0;
        while j < cur.terms.len()
            invariant
                cur.wf(),
                forall|n: Seq<u8>| #![trigger cur.has_key(n)] #![trigger defines(rules@, n)] cur.has_key(n) <==> defines(rules@, n),
                i < cur.keys@.len(),
                j <= cur.terms@.len(),
                row@.len() == j,
                forall|b: int|
                    0 <= b < j ==> (#[trigger] row@[b] == (cur.sets@[i as int]@[b] || first_demand(
                        rules@,
                        *cur,
                        cur.keys@[i as int]@,
                        cur.terms@[b]@,
                    ))),
            decreases cur.terms@.len() - j,
        {
            let v = cur.sets[i][j] || first_demand_exec(rules, cur, &cur.keys[i], &cur.terms[j]);
            row.push(v);
            j = j + 1;
        }
        sets.push(row);
        i = i + 1;
    }
    TermSet { keys, terms, eps, sets }
}

/// A fresh copy of a name list, name for name.
fn copy_names(v: &Vec<Vec<u8>>) -> (r: Vec<Vec<u8>>)
    ensures
        r@.len() == v@.len(),
        forall|i: int| 0 <= i < v@.len() ==> (#[trigger] r@[i])@ == v@[i]@,
{
    let mut r: Vec<Vec<u8>> = Vec::new();
    let mut i: usize = 0;
    while i < v.len()
        invariant
            i <= v@.len(),
            r@.len() == i,
            forall|k: int| 0 <= k < i ==> (#[trigger] r@[k])@ == v@[k]@,
        decreases v@.len() - i,
    {
        let ghost pre = r@;
        r.push(copy_bytes(&v[i]));
        proof {
            assert(forall|k: int| 0 <= k < pre.len() ==> #[trigger] r@[k] == pre[k]);
        }
        i = i + 1;
    }
    r
}

/// Demands only grow when the set grows.
proof fn lemma_demand_monotone(rules: Seq<FlatRuleDef>, a: TermSet, b: TermSet)
    requires
        a.wf(),
        b.wf(),
        a.le(b),
    ensures
        forall|n: Seq<u8>, t: Seq<u8>|
            first_demand(rules, a, n, t) ==> first_demand(rules, b, n, t),
        forall|n: Seq<u8>| eps_demand(rules, a, n) ==> eps_demand(rules, b, n),
        forall|n: Seq<u8>, t: Seq<u8>| a.has(n, t) ==> b.has(n, t),
        forall|n: Seq<u8>| a.eps_of(n) ==> b.eps_of(n),
{
    assert forall|n: Seq<u8>, t: Seq<u8>| a.has(n, t) implies b.has(n, t) by {
        let (i, j) = choose|i: int, j: int|
            #![trigger a.keys@[i], a.terms@[j]]
            0 <= i < a.keys@.len() && 0 <= j < a.terms@.len() && a.keys@[i]@ == n
                && a.terms@[j]@ == t && a.sets@[i]@[j];
        assert(b.keys@[i]@ == n && b.terms@[j]@ == t && b.sets@[i]@[j]);
    }
    assert forall|n: Seq<u8>| a.eps_of(n) implies b.eps_of(n) by {
        let i = choose|i: int|
            0 <= i < a.keys@.len() && (#[trigger] a.keys@[i])@ == n && a.eps@[i];
        assert(b.keys@[i]@ == n && b.eps@[i]);
    }
    assert forall|s: FlatProd|
        sym_nullable(rules, a, s) implies sym_nullable(rules, b, s) by {
        match s {
            FlatProd::NonTerminal(nn) => {
                assert(a.eps_of(nn@) ==> b.eps_of(nn@));
            },
            _ => {},
        }
    }
    assert forall|n: Seq<u8>, t: Seq<u8>|
        first_demand(rules, a, n, t) implies first_demand(rules, b, n, t) by {
        let (r, k) = choose|r: int, k: int|
            #![trigger rules[r].prod@[k]]
            0 <= r < rules.len() && rules[r].name@ == n && 0 <= k < rules[r].prod@.len()
                && nullable_prefix(rules, a, rules[r].prod@, k) && sym_first_has(
                rules,
                a,
                rules[r].prod@[k],
                t,
            );
        assert(nullable_prefix(rules, b, rules[r].prod@, k));
        assert(sym_first_has(rules, b, rules[r].prod@[k], t)) by {
            match rules[r].prod@[k] {
                FlatProd::NonTerminal(nn) => {},
                _ => {},
            }
        }
        assert(first_demand(rules, b, n, t));
    }
    assert forall|n: Seq<u8>| eps_demand(rules, a, n) implies eps_demand(rules, b, n) by {
        let r = choose|r: int|
            0 <= r < rules.len() && (#[trigger] rules[r]).name@ == n && nullable_prefix(
                rules,
                a,
                rules[r].prod@,
                rules[r].prod@.len() as int,
            );
        assert(nullable_prefix(rules, b, rules[r].prod@, rules[r].prod@.len() as int));
        assert(eps_demand(rules, b, n));
    }
}

/// Bit-for-bit equality of the contents of two sets over the same shape.
fn termset_bits_eq(a: &TermSet, b: &TermSet) -> (r: bool)
    requires
        a.wf(),
        b.wf(),
        a.keys@.len() == b.keys@.len(),
        a.terms@.len() == b.terms@.len(),
    ensures
        r == (a.eps@ == b.eps@ && forall|i: int|
            0 <= i < a.sets@.len() ==> (#[trigger] a.sets@[i])@ == b.sets@[i]@),
{
    let mut i: usize = 0;
    while i < a.eps.len()
        invariant
            a.wf(),
            b.wf(),
            a.keys@.len() == b.keys@.len(),
            a.terms@.len() == b.terms@.len(),
            i <= a.eps@.len(),
            forall|k: int| 0 <= k < i ==> a.eps@[k] == b.eps@[k],
        decreases a.eps@.len() - i,
    {
        if a.eps[i] != b.eps[i] {
            assert(a.eps@ != b.eps@);
            return false;
        }
        i = i + 1;
    }
    assert(a.eps@ =~= b.eps@);
    let mut i: usize = 0;
    while i < a.sets.len()
        invariant
            a.wf(),
            b.wf(),
            a.keys@.len() == b.keys@.len(),
            a.terms@.len() == b.terms@.len(),
            a.eps@ == b.eps@,
            i <= a.sets@.len(),
            forall|k: int| 0 <= k < i ==> (#[trigger] a.sets@[k])@ == b.sets@[k]@,
        decreases a.sets@.len() - i,
    {
        let mut j: usize = 0;
        while j < a.terms.len()
            invariant
                a.wf(),
                b.wf(),
                i < a.sets@.len(),
                a.keys@.len() == b.keys@.len(),
                a.terms@.len() == b.terms@.len(),
                j <= a.terms@.len(),
                forall|m: int| 0 <= m < j ==> a.sets@[i as int]@[m] == b.sets@[i as int]@[m],
            decreases a.terms@.len() - j,
        {
            if a.sets[i][j] != b.sets[i][j] {
                assert(a.sets@[i as int]@ != b.sets@[i as int]@);
                return false;
            }
            j = j + 1;
        }
        assert(a.sets@[i as int]@ =~= b.sets@[i as int]@);
        i = i + 1;
    }
    true
}

/// The FIRST sets of a flat grammar: for each defined name, the terminals
/// that can begin one of its derivations, and whether it derives the empty
/// string.  The result is the least fixed point reached by iterating the
/// defining equations from empty sets; the contract pins it as a fixed
/// point in which every member is supported by a rule.
pub fn first_set(rules: &Vec<FlatRuleDef>) -> (ts: TermSet)
    ensures
        ts.wf(),
        forall|n: Seq<u8>| #![trigger ts.has_key(n)] #![trigger defines(rules@, n)] ts.has_key(n) <==> defines(rules@, n),
        forall|t: Seq<u8>|
            mem_name(ts.terms@, t) <==> (occurs_as_term(rules@, t) || t == hash_name()),
        forall|n: Seq<u8>, t: Seq<u8>| ts.has(n, t) <==> first_demand(rules@, ts, n, t),
        forall|n: Seq<u8>| ts.eps_of(n) <==> eps_demand(rules@, ts, n),
        forall|other: TermSet| #[trigger] first_closed(rules@, other) ==> ts_below(ts, other),
{
    let tab = classify(rules);
    let nkeys = tab.nonterms.len();
    let nterms = tab.terms.len();
    let mut eps: Vec<bool> = Vec::new();
    let mut sets: Vec<Vec<bool>> = Vec::new();
    let mut i: usize = 0;
    while i < nkeys
        invariant
            i <= nkeys,
            eps@.len() == i,
            sets@.len() == i,
            forall|a: int| 0 <= a < i ==> !(#[trigger] eps@[a]),
            forall|a: int| 0 <= a < i ==> (#[trigger] sets@[a])@.len() == nterms,
            forall|a: int, b: int|
                #![trigger sets@[a]@[b]]
                0 <= a < i && 0 <= b < nterms ==> !sets@[a]@[b],
        decreases nkeys - i,
    {
        eps.push(false);
        let mut row: Vec<bool> = Vec::new();
        let mut j: usize = 0;
        while j < nterms
            invariant
                j <= nterms,
                row@.len() == j,
                forall|b: int| 0 <= b < j ==> !(#[trigger] row@[b]),
            decreases nterms - j,
        {
            row.push(false);
            j = j + 1;
        }
        sets.push(row);
        i = i + 1;
    }
    let mut cur = TermSet { keys: tab.nonterms, terms: tab.terms, eps, sets };
    let ghost keyviews = Seq::new(cur.keys@.len(), |i: int| cur.keys@[i]@);
    let ghost termviews = Seq::new(cur.terms@.len(), |j: int| cur.terms@[j]@);
    proof {
        assert(cur.wf());
        assert forall|n: Seq<u8>, t: Seq<u8>| cur.has(n, t) implies first_demand(
            rules@,
            cur,
            n,
            t,
        ) by {
            let (i2, j2) = choose|i2: int, j2: int|
                #![trigger cur.keys@[i2], cur.terms@[j2]]
                0 <= i2 < cur.keys@.len() && 0 <= j2 < cur.terms@.len() && cur.keys@[i2]@ == n
                    && cur.terms@[j2]@ == t && cur.sets@[i2]@[j2];
        }
        assert forall|n: Seq<u8>| cur.eps_of(n) implies eps_demand(rules@, cur, n) by {
            let i2 = choose|i2: int|
                0 <= i2 < cur.keys@.len() && (#[trigger] cur.keys@[i2])@ == n && cur.eps@[i2];
        }
        assert forall|other: TermSet| #[trigger] first_closed(rules@, other) implies ts_below(
            cur,
            other,
        ) by {
            assert forall|n: Seq<u8>, t: Seq<u8>| cur.has(n, t) implies other.has(n, t) by {
                let (i2, j2) = choose|i2: int, j2: int|
                    #![trigger cur.keys@[i2], cur.terms@[j2]]
                    0 <= i2 < cur.keys@.len() && 0 <= j2 < cur.terms@.len() && cur.keys@[i2]@
                        == n && cur.terms@[j2]@ == t && cur.sets@[i2]@[j2];
            }
            assert forall|n: Seq<u8>| cur.eps_of(n) implies other.eps_of(n) by {
                let i2 = choose|i2: int|
                    0 <= i2 < cur.keys@.len() && (#[trigger] cur.keys@[i2])@ == n && cur.eps@[i2];
            }
        }
    }
    loop
        invariant
            cur.wf(),
            cur.keys@.len() == keyviews.len(),
            cur.terms@.len() == termviews.len(),
            forall|i2: int|
                0 <= i2 < keyviews.len() ==> (#[trigger] cur.keys@[i2])@ == keyviews[i2],
            forall|j2: int|
                0 <= j2 < termviews.len() ==> (#[trigger] cur.terms@[j2])@ == termviews[j2],
            forall|n: Seq<u8>| #![trigger cur.has_key(n)] #![trigger defines(rules@, n)] cur.has_key(n) <==> defines(rules@, n),
            forall|t: Seq<u8>| #![trigger mem_name(cur.terms@, t)] #![trigger occurs_as_term(rules@, t)]
                mem_name(cur.terms@, t) <==> (occurs_as_term(rules@, t) || t == hash_name()),
            forall|n: Seq<u8>, t: Seq<u8>| cur.has(n, t) ==> first_demand(rules@, cur, n, t),
            forall|n: Seq<u8>| cur.eps_of(n) ==> eps_demand(rules@, cur, n),
            forall|other: TermSet| #[trigger] first_closed(rules@, other) ==> ts_below(cur, other),
        ensures
            forall|n: Seq<u8>, t: Seq<u8>| cur.has(n, t) <==> first_demand(rules@, cur, n, t),
            forall|n: Seq<u8>| cur.eps_of(n) <==> eps_demand(rules@, cur, n),
            forall|other: TermSet| #[trigger] first_closed(rules@, other) ==> ts_below(cur, other),
        decreases keyviews.len() * (termviews.len() + 1) + 1 - (count_row(cur.eps@) + count_rows(
            cur.sets@,
        )),
    {
        proof {
            lemma_count_row_le(cur.eps@, cur.eps@);
            lemma_count_rows_bound(cur.sets@, termviews.len());
            assert(keyviews.len() * (termviews.len() + 1) == keyviews.len() * termviews.len()
                + keyviews.len()) by (nonlinear_arith);
        }
        let next = first_pass(rules, &cur);
        proof {
            assert forall|other: TermSet| #[trigger] first_closed(rules@, other) implies ts_below(
                next,
                other,
            ) by {
                lemma_first_below_step(rules@, cur, next, other);
            }
        }
        let same = termset_bits_eq(&cur, &next);
        if same {
            proof {
                lemma_fixpoint_from_pass(rules@, cur, next);
            }
            break;
        }
        proof {
            assert(cur.le(next));
            lemma_demand_monotone(rules@, cur, next);
            lemma_next_supported(rules@, cur, next);
            lemma_growth(cur, next);
            assert forall|n: Seq<u8>| next.has_key(n) <==> cur.has_key(n) by {
                if next.has_key(n) {
                    let i2 = choose|i2: int|
                        0 <= i2 < next.keys@.len() && (#[trigger] next.keys@[i2])@ == n;
                    assert(cur.keys@[i2]@ == n);
                }
                if cur.has_key(n) {
                    let i2 = choose|i2: int|
                        0 <= i2 < cur.keys@.len() && (#[trigger] cur.keys@[i2])@ == n;
                    assert(next.keys@[i2]@ == n);
                }
            }
            assert forall|t: Seq<u8>| mem_name(next.terms@, t) <==> mem_name(cur.terms@, t) by {
                if mem_name(next.terms@, t) {
                    let j2 = choose|j2: int|
                        0 <= j2 < next.terms@.len() && (#[trigger] next.terms@[j2])@ == t;
                    assert(cur.terms@[j2]@ == t);
                }
                if mem_name(cur.terms@, t) {
                    let j2 = choose|j2: int|
                        0 <= j2 < cur.terms@.len() && (#[trigger] cur.terms@[j2])@ == t;
                    assert(next.terms@[j2]@ == t);
                }
            }
            assert(strictly_sorted_names(next.keys@)) by {
                assert forall|a: int, b: int| 0 <= a < b < next.keys@.len() implies
                    crate::bytes::lex_lt(next.keys@[a]@, next.keys@[b]@) by {
                    assert(next.keys@[a]@ == cur.keys@[a]@ && next.keys@[b]@ == cur.keys@[b]@);
                }
            }
            assert(strictly_sorted_names(next.terms@)) by {
                assert forall|a: int, b: int| 0 <= a < b < next.terms@.len() implies
                    crate::bytes::lex_lt(next.terms@[a]@, next.terms@[b]@) by {
                    assert(next.terms@[a]@ == cur.terms@[a]@ && next.terms@[b]@ == cur.terms@[b]@);
                }
            }
            lemma_count_row_le(next.eps@, next.eps@);
            lemma_count_rows_bound(next.sets@, termviews.len());
            assert(keyviews.len() * (termviews.len() + 1) == keyviews.len() * termviews.len()
                + keyviews.len()) by (nonlinear_arith);
        }
        cur = next;
    }
    cur
}

/// When a pass returns the same bits, the set satisfies the fixed-point
/// equations.
proof fn lemma_fixpoint_from_pass(rules: Seq<FlatRuleDef>, cur: TermSet, next: TermSet)
    requires
        cur.wf(),
        next.keys@.len() == cur.keys@.len(),
        next.terms@.len() == cur.terms@.len(),
        forall|i: int|
            0 <= i < cur.keys@.len() ==> (#[trigger] next.eps@[i] == (cur.eps@[i] || eps_demand(
                rules,
                cur,
                cur.keys@[i]@,
            ))),
        forall|i: int, j: int|
            #![trigger next.sets@[i]@[j]]
            0 <= i < cur.keys@.len() && 0 <= j < cur.terms@.len() ==> (next.sets@[i]@[j]
                == (cur.sets@[i]@[j] || first_demand(rules, cur, cur.keys@[i]@, cur.terms@[j]@))),
        next.eps@.len() == cur.keys@.len(),
        next.sets@.len() == cur.keys@.len(),
        cur.eps@ == next.eps@,
        forall|i: int| 0 <= i < cur.sets@.len() ==> (#[trigger] cur.sets@[i])@ == next.sets@[i]@,
        forall|n: Seq<u8>, t: Seq<u8>| cur.has(n, t) ==> first_demand(rules, cur, n, t),
        forall|n: Seq<u8>| cur.eps_of(n) ==> eps_demand(rules, cur, n),
        forall|n: Seq<u8>| cur.has_key(n) <==> defines(rules, n),
        forall|t: Seq<u8>| mem_name(cur.terms@, t) <==> (occurs_as_term(rules, t) || t
            == hash_name()),
    ensures
        forall|n: Seq<u8>, t: Seq<u8>| cur.has(n, t) <==> first_demand(rules, cur, n, t),
        forall|n: Seq<u8>| cur.eps_of(n) <==> eps_demand(rules, cur, n),
{
    assert forall|n: Seq<u8>, t: Seq<u8>|
        first_demand(rules, cur, n, t) implies cur.has(n, t) by {
        lemma_demand_in_universe(rules, cur, n, t);
        let i = choose|i: int| 0 <= i < cur.keys@.len() && (#[trigger] cur.keys@[i])@ == n;
        let j = choose|j: int| 0 <= j < cur.terms@.len() && (#[trigger] cur.terms@[j])@ == t;
        assert(next.sets@[i]@[j] == (cur.sets@[i]@[j] || first_demand(
            rules,
            cur,
            cur.keys@[i]@,
            cur.terms@[j]@,
        )));
        assert(cur.sets@[i]@ == next.sets@[i]@);
        assert(cur.sets@[i]@[j]);
    }
    assert forall|n: Seq<u8>| eps_demand(rules, cur, n) implies cur.eps_of(n) by {
        let r = choose|r: int|
            0 <= r < rules.len() && (#[trigger] rules[r]).name@ == n && nullable_prefix(
                rules,
                cur,
                rules[r].prod@,
                rules[r].prod@.len() as int,
            );
        assert(defines(rules, n));
        let i = choose|i: int| 0 <= i < cur.keys@.len() && (#[trigger] cur.keys@[i])@ == n;
        assert(next.eps@[i] == (cur.eps@[i] || eps_demand(rules, cur, cur.keys@[i]@)));
        assert(cur.eps@[i]);
    }
}

/// Anything demanded names a defined nonterminal and a terminal of the
/// alphabet.
proof fn lemma_demand_in_universe(rules: Seq<FlatRuleDef>, ts: TermSet, n: Seq<u8>, t: Seq<u8>)
    requires
        first_demand(rules, ts, n, t),
        forall|nn: Seq<u8>| ts.has_key(nn) <==> defines(rules, nn),
        forall|tt: Seq<u8>| mem_name(ts.terms@, tt) <==> (occurs_as_term(rules, tt) || tt
            == hash_name()),
    ensures
        defines(rules, n),
        mem_name(ts.terms@, t),
{
    let (r, k) = choose|r: int, k: int|
        #![trigger rules[r].prod@[k]]
        0 <= r < rules.len() && rules[r].name@ == n && 0 <= k < rules[r].prod@.len()
            && nullable_prefix(rules, ts, rules[r].prod@, k) && sym_first_has(
            rules,
            ts,
            rules[r].prod@[k],
            t,
        );
    assert(defines(rules, n));
    match rules[r].prod@[k] {
        FlatProd::Terminal(x) => {
            assert(sym_term_name(rules, rules[r].prod@[k], t));
            assert(occurs_as_term(rules, t));
        },
        FlatProd::NonTerminal(nn) => {
            if defines(rules, nn@) {
                assert(ts.has(nn@, t));
                let (i2, j2) = choose|i2: int, j2: int|
                    #![trigger ts.keys@[i2], ts.terms@[j2]]
                    0 <= i2 < ts.keys@.len() && 0 <= j2 < ts.terms@.len() && ts.keys@[i2]@ == nn@
                        && ts.terms@[j2]@ == t && ts.sets@[i2]@[j2];
                assert(mem_name(ts.terms@, t));
            } else {
                assert(sym_term_name(rules, rules[r].prod@[k], t));
                assert(occurs_as_term(rules, t));
            }
        },
        FlatProd::Eps => {},
    }
}

/// Bits of the pass output stay supported.
proof fn lemma_next_supported(rules: Seq<FlatRuleDef>, cur: TermSet, next: TermSet)
    requires
        cur.wf(),
        cur.le(next),
        next.wf(),
        forall|i: int|
            0 <= i < cur.keys@.len() ==> (#[trigger] next.eps@[i] == (cur.eps@[i] || eps_demand(
                rules,
                cur,
                cur.keys@[i]@,
            ))),
        forall|i: int, j: int|
            #![trigger next.sets@[i]@[j]]
            0 <= i < cur.keys@.len() && 0 <= j < cur.terms@.len() ==> (next.sets@[i]@[j]
                == (cur.sets@[i]@[j] || first_demand(rules, cur, cur.keys@[i]@, cur.terms@[j]@))),
        forall|n: Seq<u8>, t: Seq<u8>| cur.has(n, t) ==> first_demand(rules, cur, n, t),
        forall|n: Seq<u8>| cur.eps_of(n) ==> eps_demand(rules, cur, n),
    ensures
        forall|n: Seq<u8>, t: Seq<u8>| next.has(n, t) ==> first_demand(rules, next, n, t),
        forall|n: Seq<u8>| next.eps_of(n) ==> eps_demand(rules, next, n),
{
    lemma_demand_monotone(rules, cur, next);
    assert forall|n: Seq<u8>, t: Seq<u8>| next.has(n, t) implies first_demand(
        rules,
        next,
        n,
        t,
    ) by {
        let (i, j) = choose|i: int, j: int|
            #![trigger next.keys@[i], next.terms@[j]]
            0 <= i < next.keys@.len() && 0 <= j < next.terms@.len() && next.keys@[i]@ == n
                && next.terms@[j]@ == t && next.sets@[i]@[j];
        assert(cur.keys@[i]@ == n && cur.terms@[j]@ == t);
        if cur.sets@[i]@[j] {
            assert(cur.has(n, t));
        } else {
            assert(first_demand(rules, cur, n, t));
        }
    }
    assert forall|n: Seq<u8>| next.eps_of(n) implies eps_demand(rules, next, n) by {
        let i = choose|i: int|
            0 <= i < next.keys@.len() && (#[trigger] next.keys@[i])@ == n && next.eps@[i];
        assert(cur.keys@[i]@ == n);
        if cur.eps@[i] {
            assert(cur.eps_of(n));
        } else {
            assert(eps_demand(rules, cur, n));
        }
    }
}

/// When a pass changes some bit the total bit count strictly grows.
proof fn lemma_growth(cur: TermSet, next: TermSet)
    requires
        cur.wf(),
        next.wf(),
        cur.le(next),
        !(cur.eps@ == next.eps@ && forall|i: int|
            0 <= i < cur.sets@.len() ==> (#[trigger] cur.sets@[i])@ == next.sets@[i]@),
    ensures
        count_row(cur.eps@) + count_rows(cur.sets@) < count_row(next.eps@) + count_rows(
            next.sets@,
        ),
{
    lemma_count_row_le(cur.eps@, next.eps@);
    lemma_count_rows_le(cur.sets@, next.sets@);
    if cur.eps@ != next.eps@ {
    } else {
        let i = choose|i: int|
            0 <= i < cur.sets@.len() && (#[trigger] cur.sets@[i])@ != next.sets@[i]@;
        assert(cur.sets@[i]@.len() == next.sets@[i]@.len());
        assert(exists|j2: int|
            0 <= j2 < cur.sets@[i]@.len() && cur.sets@[i]@[j2] != next.sets@[i]@[j2]) by {
            if forall|j2: int|
                0 <= j2 < cur.sets@[i]@.len() ==> cur.sets@[i]@[j2] == next.sets@[i]@[j2] {
                assert(cur.sets@[i]@ =~= next.sets@[i]@);
            }
        }
        let j = choose|j: int|
            0 <= j < cur.sets@[i]@.len() && cur.sets@[i]@[j] != next.sets@[i]@[j];
        assert(!cur.sets@[i]@[j] && next.sets@[i]@[j]);
        assert(exists|i2: int, j2: int|
            #![trigger cur.sets@[i2]@[j2]]
            0 <= i2 < cur.sets@.len() && 0 <= j2 < cur.sets@[i2]@.len() && !cur.sets@[i2]@[j2]
                && next.sets@[i2]@[j2]);
    }
}

/// The symbol `s` is an occurrence of the defined nonterminal `n`.
pub open spec fn sym_is_nt(rules: Seq<FlatRuleDef>, s: FlatProd, n: Seq<u8>) -> bool {
    match s {
        FlatProd::NonTerminal(m) => defines(rules, m@) && m@ == n,
        _ => false,
    }
}

/// Every symbol strictly between positions `k` and `k2` is nullable
/// according to `first`.
pub open spec fn between_nullable(
    rules: Seq<FlatRuleDef>,
    first: TermSet,
    prod: Seq<FlatProd>,
    k: int,
    k2: int,
) -> bool {
    forall|m: int| k < m < k2 ==> sym_nullable(rules, first, #[trigger] prod[m])
}

/// One more FOLLOW step would add `t` after the occurrence at rule `r`,
/// position `k`: either some later symbol contributes `t` to the FIRST of
/// the rest, or the rest is nullable and `t` follows the rule's own name.
pub open spec fn occ_demand(
    rules: Seq<FlatRuleDef>,
    first: TermSet,
    ts: TermSet,
    r: int,
    k: int,
    t: Seq<u8>,
) -> bool {
    (exists|k2: int|
        k < k2 < rules[r].prod@.len() && between_nullable(rules, first, rules[r].prod@, k, k2)
            && sym_first_has(rules, first, #[trigger] rules[r].prod@[k2], t)) || (between_nullable(
        rules,
        first,
        rules[r].prod@,
        k,
        rules[r].prod@.len() as int,
    ) && ts.has(rules[r].name@, t))
}

/// One more FOLLOW iteration over `ts` would put `t` into the FOLLOW set of
/// `n`: the seeded end-of-input marker after the start symbol, or a demand
/// from some occurrence of `n`.
pub open spec fn follow_demand(
    rules: Seq<FlatRuleDef>,
    first: TermSet,
    ts: TermSet,
    n: Seq<u8>,
    t: Seq<u8>,
) -> bool {
    (rules.len() >= 1 && n == rules[0].name@ && t == hash_name()) || exists|r: int, k: int|
        #![trigger rules[r].prod@[k]]
        0 <= r < rules.len() && 0 <= k < rules[r].prod@.len() && sym_is_nt(
            rules,
            rules[r].prod@[k],
            n,
        ) && occ_demand(rules, first, ts, r, k, t)
}

/// Decide `ts.has(n, t)`.
pub fn ts_has_exec(ts: &TermSet, n: &Vec<u8>, t: &Vec<u8>) -> (r: bool)
    requires
        ts.wf(),
    ensures
        r == ts.has(n@, t@),
{
    let found = find_name(&ts.keys, n);
    match found {
        None => {
            proof {
                if ts.has(n@, t@) {
                    let (i2, j2) = choose|i2: int, j2: int|
                        #![trigger ts.keys@[i2], ts.terms@[j2]]
                        0 <= i2 < ts.keys@.len() && 0 <= j2 < ts.terms@.len() && ts.keys@[i2]@
                            == n@ && ts.terms@[j2]@ == t@ && ts.sets@[i2]@[j2];
                    assert(mem_name(ts.keys@, n@));
                }
            }
            false
        },
        Some(i) => {
            let found_t = find_name(&ts.terms, t);
            match found_t {
                None => {
                    proof {
                        if ts.has(n@, t@) {
                            let (i2, j2) = choose|i2: int, j2: int|
                                #![trigger ts.keys@[i2], ts.terms@[j2]]
                                0 <= i2 < ts.keys@.len() && 0 <= j2 < ts.terms@.len()
                                    && ts.keys@[i2]@ == n@ && ts.terms@[j2]@ == t@
                                    && ts.sets@[i2]@[j2];
                            assert(mem_name(ts.terms@, t@));
                        }
                    }
                    false
                },
                Some(j) => {
                    proof {
                        if ts.sets@[i as int]@[j as int] {
                            assert(ts.has(n@, t@));
                        }
                        if ts.has(n@, t@) {
                            let (i2, j2) = choose|i2: int, j2: int|
                                #![trigger ts.keys@[i2], ts.terms@[j2]]
                                0 <= i2 < ts.keys@.len() && 0 <= j2 < ts.terms@.len()
                                    && ts.keys@[i2]@ == n@ && ts.terms@[j2]@ == t@
                                    && ts.sets@[i2]@[j2];
                            lemma_sorted_unique(ts.keys@, i as int, i2);
                            lemma_sorted_unique(ts.terms@, j as int, j2);
                        }
                    }
                    ts.sets[i][j]
                },
            }
        },
    }
}

/// Decide `occ_demand` for the occurrence at (`r`, `k`).
fn occ_demand_exec(
    rules: &Vec<FlatRuleDef>,
    first: &TermSet,
    cur: &TermSet,
    r: usize,
    k: usize,
    t: &Vec<u8>,
) -> (res: bool)
    requires
        r < rules@.len(),
        k < rules@[r as int].prod@.len(),
        first.wf(),
        cur.wf(),
        forall|nn: Seq<u8>| #![trigger first.has_key(nn)] #![trigger defines(rules@, nn)] first.has_key(nn) <==> defines(rules@, nn),
    ensures
        res == occ_demand(rules@, *first, *cur, r as int, k as int, t@),
{
    let prod_len = rules[r].prod.len();
    let mut k2 = k + 1;
    while k2 < prod_len
        invariant
            r < rules@.len(),
            k < k2,
            k2 <= prod_len,
            prod_len == rules@[r as int].prod@.len(),
            first.wf(),
            cur.wf(),
            forall|nn: Seq<u8>| #![trigger first.has_key(nn)] #![trigger defines(rules@, nn)] first.has_key(nn) <==> defines(rules@, nn),
            between_nullable(rules@, *first, rules@[r as int].prod@, k as int, k2 as int),
            forall|m: int|
                k < m < k2 ==> !sym_first_has(
                    rules@,
                    *first,
                    #[trigger] rules@[r as int].prod@[m],
                    t@,
                ),
        decreases prod_len - k2,
    {
        if sym_first_has_exec(rules, first, &rules[r].prod[k2], t) {
            proof {
                let ghost w = k2 as int;
                assert(k < w < rules@[r as int].prod@.len() && between_nullable(
                    rules@,
                    *first,
                    rules@[r as int].prod@,
                    k as int,
                    w,
                ) && sym_first_has(rules@, *first, rules@[r as int].prod@[w], t@));
                assert(occ_demand(rules@, *first, *cur, r as int, k as int, t@));
            }
            return true;
        }
        if !sym_nullable_exec(rules, first, &rules[r].prod[k2]) {
            proof {
                assert forall|w: int|
                    k < w < rules@[r as int].prod@.len() && between_nullable(
                        rules@,
                        *first,
                        rules@[r as int].prod@,
                        k as int,
                        w,
                    ) implies !sym_first_has(
                    rules@,
                    *first,
                    #[trigger] rules@[r as int].prod@[w],
                    t@,
                ) by {
                    if w > k2 {
                        assert(sym_nullable(
                            rules@,
                            *first,
                            rules@[r as int].prod@[k2 as int],
                        ));
                        assert(false);
                    }
                }
                assert(!between_nullable(
                    rules@,
                    *first,
                    rules@[r as int].prod@,
                    k as int,
                    rules@[r as int].prod@.len() as int,
                ));
            }
            return false;
        }
        proof {
            assert forall|m: int|
                k < m < k2 + 1 implies sym_nullable(
                rules@,
                *first,
                #[trigger] rules@[r as int].prod@[m],
            ) by {}
        }
        k2 = k2 + 1;
    }
    let res = ts_has_exec(cur, &rules[r].name, t);
    proof {
        if res {
            assert(occ_demand(rules@, *first, *cur, r as int, k as int, t@));
        } else {
            assert forall|w: int|
                k < w < rules@[r as int].prod@.len() && between_nullable(
                    rules@,
                    *first,
                    rules@[r as int].prod@,
                    k as int,
                    w,
                ) implies !sym_first_has(
                rules@,
                *first,
                #[trigger] rules@[r as int].prod@[w],
                t@,
            ) by {}
        }
    }
    res
}

/// Decide `follow_demand(rules, first, cur, n, t)`.
fn follow_demand_exec(
    rules: &Vec<FlatRuleDef>,
    first: &TermSet,
    cur: &TermSet,
    n: &Vec<u8>,
    t: &Vec<u8>,
) -> (res: bool)
    requires
        rules@.len() >= 1,
        first.wf(),
        cur.wf(),
        forall|nn: Seq<u8>| #![trigger first.has_key(nn)] #![trigger defines(rules@, nn)] first.has_key(nn) <==> defines(rules@, nn),
    ensures
        res == follow_demand(rules@, *first, *cur, n@, t@),
{
    let mut hash: Vec<u8> = Vec::new();
    hash.push(35);
    assert(hash@ =~= hash_name());
    if crate::bytes::bytes_eq(n, &rules[0].name) && crate::bytes::bytes_eq(t, &hash) {
        return true;
    }
    let mut r: usize = 0;
    while r < rules.len()
        invariant
            rules@.len() >= 1,
            r <= rules@.len(),
            first.wf(),
            cur.wf(),
            forall|nn: Seq<u8>| #![trigger first.has_key(nn)] #![trigger defines(rules@, nn)] first.has_key(nn) <==> defines(rules@, nn),
            forall|q: int, m: int|
                #![trigger rules@[q].prod@[m]]
                0 <= q < r && 0 <= m < rules@[q].prod@.len() && sym_is_nt(
                    rules@,
                    rules@[q].prod@[m],
                    n@,
                ) ==> !occ_demand(rules@, *first, *cur, q, m, t@),
        decreases rules@.len() - r,
    {
        let prod_len = rules[r].prod.len();
        let mut k: usize = 0;
        while k < prod_len
            invariant
                r < rules@.len(),
                k <= prod_len,
                prod_len == rules@[r as int].prod@.len(),
                first.wf(),
                cur.wf(),
                forall|nn: Seq<u8>| #![trigger first.has_key(nn)] #![trigger defines(rules@, nn)] first.has_key(nn) <==> defines(rules@, nn),
                forall|m: int|
                    0 <= m < k && sym_is_nt(
                        rules@,
                        #[trigger] rules@[r as int].prod@[m],
                        n@,
                    ) ==> !occ_demand(rules@, *first, *cur, r as int, m, t@),
            decreases prod_len - k,
        {
            let is_occ: bool = match &rules[r].prod[k] {
                FlatProd::NonTerminal(m) => {
                    if crate::bytes::bytes_eq(m, n) {
                        let fo = find_name(&first.keys, m);
                        proof {
                            if fo matches Some(ii) {
                                assert(mem_name(first.keys@, m@));
                            }
                        }
                        fo.is_some()
                    } else {
                        false
                    }
                },
                _ => false,
            };
            proof {
                assert(is_occ == sym_is_nt(rules@, rules@[r as int].prod@[k as int], n@));
            }
            if is_occ {
                if occ_demand_exec(rules, first, cur, r, k, t) {
                    proof {
                        assert(follow_demand(rules@, *first, *cur, n@, t@));
                    }
                    return true;
                }
            }
            k = k + 1;
        }
        r = r + 1;
    }
    proof {
        if follow_demand(rules@, *first, *cur, n@, t@) {
            let (q, m) = choose|q: int, m: int|
                #![trigger rules@[q].prod@[m]]
                0 <= q < rules@.len() && 0 <= m < rules@[q].prod@.len() && sym_is_nt(
                    rules@,
                    rules@[q].prod@[m],
                    n@,
                ) && occ_demand(rules@, *first, *cur, q, m, t@);
            assert(false);
        }
    }
    false
}

/// One full FOLLOW iteration, bit for bit.
fn follow_pass(rules: &Vec<FlatRuleDef>, first: &TermSet, cur: &TermSet) -> (next: TermSet)
    requires
        rules@.len() >= 1,
        cur.wf(),
        first.wf(),
        forall|nn: Seq<u8>| #![trigger first.has_key(nn)] #![trigger defines(rules@, nn)] first.has_key(nn) <==> defines(rules@, nn),
    ensures
        next.wf(),
        next.keys@.len() == cur.keys@.len(),
        next.terms@.len() == cur.terms@.len(),
        forall|i: int| 0 <= i < cur.keys@.len() ==> (#[trigger] next.keys@[i])@ == cur.keys@[i]@,
        forall|j: int| 0 <= j < cur.terms@.len() ==> (#[trigger] next.terms@[j])@ == cur.terms@[j]@,
        forall|i: int| 0 <= i < cur.keys@.len() ==> (#[trigger] next.eps@[i] == cur.eps@[i]),
        forall|i: int, j: int|
            #![trigger next.sets@[i]@[j]]
            0 <= i < cur.keys@.len() && 0 <= j < cur.terms@.len() ==> (next.sets@[i]@[j]
                == (cur.sets@[i]@[j] || follow_demand(
                rules@,
                *first,
                *cur,
                cur.keys@[i]@,
                cur.terms@[j]@,
            ))),
{
    let keys = copy_names(&cur.keys);
    let terms = copy_names(&cur.terms);
    let mut eps: Vec<bool> = Vec::new();
    let mut sets: Vec<Vec<bool>> = Vec::new();
    let mut i: usize = 0;
    while i < cur.keys.len()
        invariant
            rules@.len() >= 1,
            cur.wf(),
            first.wf(),
            forall|nn: Seq<u8>| #![trigger first.has_key(nn)] #![trigger defines(rules@, nn)] first.has_key(nn) <==> defines(rules@, nn),
            i <= cur.keys@.len(),
            eps@.len() == i,
            sets@.len() == i,
            forall|a: int| 0 <= a < i ==> (#[trigger] eps@[a] == cur.eps@[a]),
            forall|a: int| 0 <= a < i ==> (#[trigger] sets@[a])@.len() == cur.terms@.len(),
            forall|a: int, b: int|
                #![trigger sets@[a]@[b]]
                0 <= a < i && 0 <= b < cur.terms@.len() ==> (sets@[a]@[b] == (cur.sets@[a]@[b]
                    || follow_demand(rules@, *first, *cur, cur.keys@[a]@, cur.terms@[b]@))),
        decreases cur.keys@.len() - i,
    {
        eps.push(cur.eps[i]);
        let mut row: Vec<bool> = Vec::new();
        let mut j: usize = 0;
        while j < cur.terms.len()
            invariant
                rules@.len() >= 1,
                cur.wf(),
                first.wf(),
                forall|nn: Seq<u8>| #![trigger first.has_key(nn)] #![trigger defines(rules@, nn)] first.has_key(nn) <==> defines(rules@, nn),
                i < cur.keys@.len(),
                j <= cur.terms@.len(),
                row@.len() == j,
                forall|b: int|
                    0 <= b < j ==> (#[trigger] row@[b] == (cur.sets@[i as int]@[b]
                        || follow_demand(
                        rules@,
                        *first,
                        *cur,
                        cur.keys@[i as int]@,
                        cur.terms@[b]@,
                    ))),
            decreases cur.terms@.len() - j,
        {
            let v = cur.sets[i][j] || follow_demand_exec(rules, first, cur, &cur.keys[i], &cur.terms[j]);
            row.push(v);
            j = j + 1;
        }
        sets.push(row);
        i = i + 1;
    }
    TermSet { keys, terms, eps, sets }
}

/// `other` satisfies the FOLLOW equations over the given FIRST data.
pub open spec fn follow_closed(rules: Seq<FlatRuleDef>, first: TermSet, other: TermSet) -> bool {
    forall|n: Seq<u8>, t: Seq<u8>|
        #![trigger follow_demand(rules, first, other, n, t)]
        #![trigger other.has(n, t)]
        follow_demand(rules, first, other, n, t) ==> other.has(n, t)
}

/// FOLLOW demands only grow under name-level inclusion of the running set.
proof fn lemma_follow_monotone_below(
    rules: Seq<FlatRuleDef>,
    first: TermSet,
    a: TermSet,
    b: TermSet,
)
    requires
        forall|n: Seq<u8>, t: Seq<u8>| #![trigger a.has(n, t)] a.has(n, t) ==> b.has(n, t),
    ensures
        forall|n: Seq<u8>, t: Seq<u8>|
            follow_demand(rules, first, a, n, t) ==> follow_demand(rules, first, b, n, t),
{
    assert forall|n: Seq<u8>, t: Seq<u8>|
        follow_demand(rules, first, a, n, t) implies follow_demand(rules, first, b, n, t) by {
        if !(rules.len() >= 1 && n == rules[0].name@ && t == hash_name()) {
            let (r, k) = choose|r: int, k: int|
                #![trigger rules[r].prod@[k]]
                0 <= r < rules.len() && 0 <= k < rules[r].prod@.len() && sym_is_nt(
                    rules,
                    rules[r].prod@[k],
                    n,
                ) && occ_demand(rules, first, a, r, k, t);
            assert(occ_demand(rules, first, b, r, k, t)) by {
                if between_nullable(rules, first, rules[r].prod@, k, rules[r].prod@.len() as int)
                    && a.has(rules[r].name@, t) {
                    assert(b.has(rules[r].name@, t));
                }
            }
            assert(follow_demand(rules, first, b, n, t));
        }
    }
}

/// One FOLLOW pass preserves the bound by any closed set.
proof fn lemma_follow_below_step(
    rules: Seq<FlatRuleDef>,
    first: TermSet,
    cur: TermSet,
    next: TermSet,
    other: TermSet,
)
    requires
        cur.wf(),
        next.keys@.len() == cur.keys@.len(),
        next.terms@.len() == cur.terms@.len(),
        forall|i: int| 0 <= i < cur.keys@.len() ==> (#[trigger] next.keys@[i])@ == cur.keys@[i]@,
        forall|j: int|
            0 <= j < cur.terms@.len() ==> (#[trigger] next.terms@[j])@ == cur.terms@[j]@,
        next.sets@.len() == cur.keys@.len(),
        forall|i: int, j: int|
            #![trigger next.sets@[i]@[j]]
            0 <= i < cur.keys@.len() && 0 <= j < cur.terms@.len() ==> (next.sets@[i]@[j]
                == (cur.sets@[i]@[j] || follow_demand(
                rules,
                first,
                cur,
                cur.keys@[i]@,
                cur.terms@[j]@,
            ))),
        follow_closed(rules, first, other),
        forall|n: Seq<u8>, t: Seq<u8>| #![trigger cur.has(n, t)] cur.has(n, t) ==> other.has(n, t),
    ensures
        forall|n: Seq<u8>, t: Seq<u8>| #![trigger next.has(n, t)] next.has(n, t) ==> other.has(
            n,
            t,
        ),
{
    lemma_follow_monotone_below(rules, first, cur, other);
    assert forall|n: Seq<u8>, t: Seq<u8>| #![trigger next.has(n, t)] next.has(n, t)
        implies other.has(n, t) by {
        let (i, j) = choose|i: int, j: int|
            #![trigger next.keys@[i], next.terms@[j]]
            0 <= i < next.keys@.len() && 0 <= j < next.terms@.len() && next.keys@[i]@ == n
                && next.terms@[j]@ == t && next.sets@[i]@[j];
        assert(cur.keys@[i]@ == n && cur.terms@[j]@ == t);
        if cur.sets@[i]@[j] {
            assert(cur.has(n, t));
        } else {
            assert(follow_demand(rules, first, cur, n, t));
            assert(follow_demand(rules, first, other, n, t));
        }
    }
}

/// FOLLOW demands only grow when the running set grows; the FIRST data is
/// fixed.
proof fn lemma_follow_demand_monotone(
    rules: Seq<FlatRuleDef>,
    first: TermSet,
    a: TermSet,
    b: TermSet,
)
    requires
        a.wf(),
        b.wf(),
        a.le(b),
    ensures
        forall|n: Seq<u8>, t: Seq<u8>|
            follow_demand(rules, first, a, n, t) ==> follow_demand(rules, first, b, n, t),
        forall|n: Seq<u8>, t: Seq<u8>| a.has(n, t) ==> b.has(n, t),
{
    assert forall|n: Seq<u8>, t: Seq<u8>| a.has(n, t) implies b.has(n, t) by {
        let (i, j) = choose|i: int, j: int|
            #![trigger a.keys@[i], a.terms@[j]]
            0 <= i < a.keys@.len() && 0 <= j < a.terms@.len() && a.keys@[i]@ == n
                && a.terms@[j]@ == t && a.sets@[i]@[j];
        assert(b.keys@[i]@ == n && b.terms@[j]@ == t && b.sets@[i]@[j]);
    }
    assert forall|n: Seq<u8>, t: Seq<u8>|
        follow_demand(rules, first, a, n, t) implies follow_demand(rules, first, b, n, t) by {
        if !(rules.len() >= 1 && n == rules[0].name@ && t == hash_name()) {
            let (r, k) = choose|r: int, k: int|
                #![trigger rules[r].prod@[k]]
                0 <= r < rules.len() && 0 <= k < rules[r].prod@.len() && sym_is_nt(
                    rules,
                    rules[r].prod@[k],
                    n,
                ) && occ_demand(rules, first, a, r, k, t);
            assert(occ_demand(rules, first, b, r, k, t)) by {
                if between_nullable(rules, first, rules[r].prod@, k, rules[r].prod@.len() as int)
                    && a.has(rules[r].name@, t) {
                    assert(b.has(rules[r].name@, t));
                }
            }
            assert(follow_demand(rules, first, b, n, t));
        }
    }
}

/// Anything the FOLLOW step demands names a defined nonterminal and a
/// terminal of the alphabet.
proof fn lemma_follow_demand_in_universe(
    rules: Seq<FlatRuleDef>,
    first: TermSet,
    ts: TermSet,
    n: Seq<u8>,
    t: Seq<u8>,
)
    requires
        rules.len() >= 1,
        follow_demand(rules, first, ts, n, t),
        forall|nn: Seq<u8>| #![trigger ts.has_key(nn)] #![trigger defines(rules, nn)] ts.has_key(nn) <==> defines(rules, nn),
        forall|tt: Seq<u8>| #![trigger mem_name(ts.terms@, tt)] #![trigger occurs_as_term(rules, tt)]
            mem_name(ts.terms@, tt) <==> (occurs_as_term(rules, tt) || tt == hash_name()),
        forall|tt: Seq<u8>| #![trigger mem_name(first.terms@, tt)] #![trigger occurs_as_term(rules, tt)]
            mem_name(first.terms@, tt) <==> (occurs_as_term(rules, tt) || tt == hash_name()),
    ensures
        defines(rules, n),
        mem_name(ts.terms@, t),
{
    if rules.len() >= 1 && n == rules[0].name@ && t == hash_name() {
        assert(defines(rules, n));
        assert(mem_name(ts.terms@, t));
    } else {
        let (r, k) = choose|r: int, k: int|
            #![trigger rules[r].prod@[k]]
            0 <= r < rules.len() && 0 <= k < rules[r].prod@.len() && sym_is_nt(
                rules,
                rules[r].prod@[k],
                n,
            ) && occ_demand(rules, first, ts, r, k, t);
        assert(defines(rules, n));
        if exists|k2: int|
            k < k2 < rules[r].prod@.len() && between_nullable(rules, first, rules[r].prod@, k, k2)
                && sym_first_has(rules, first, #[trigger] rules[r].prod@[k2], t) {
            let k2 = choose|k2: int|
                k < k2 < rules[r].prod@.len() && between_nullable(
                    rules,
                    first,
                    rules[r].prod@,
                    k,
                    k2,
                ) && sym_first_has(rules, first, #[trigger] rules[r].prod@[k2], t);
            match rules[r].prod@[k2] {
                FlatProd::Terminal(x) => {
                    assert(sym_term_name(rules, rules[r].prod@[k2], t));
                    assert(occurs_as_term(rules, t));
                },
                FlatProd::NonTerminal(nn) => {
                    if defines(rules, nn@) {
                        assert(first.has(nn@, t));
                        let (i2, j2) = choose|i2: int, j2: int|
                            #![trigger first.keys@[i2], first.terms@[j2]]
                            0 <= i2 < first.keys@.len() && 0 <= j2 < first.terms@.len()
                                && first.keys@[i2]@ == nn@ && first.terms@[j2]@ == t
                                && first.sets@[i2]@[j2];
                        assert(mem_name(first.terms@, t));
                    } else {
                        assert(sym_term_name(rules, rules[r].prod@[k2], t));
                        assert(occurs_as_term(rules, t));
                    }
                },
                FlatProd::Eps => {},
            }
        } else {
            assert(ts.has(rules[r].name@, t));
            let (i2, j2) = choose|i2: int, j2: int|
                #![trigger ts.keys@[i2], ts.terms@[j2]]
                0 <= i2 < ts.keys@.len() && 0 <= j2 < ts.terms@.len() && ts.keys@[i2]@
                    == rules[r].name@ && ts.terms@[j2]@ == t && ts.sets@[i2]@[j2];
            assert(mem_name(ts.terms@, t));
        }
    }
}

/// The FOLLOW sets of a flat grammar: for each defined name, the terminals
/// that can appear immediately after it in a sentential form, with `#`
/// seeded after the start symbol.  The contract pins the result as the
/// exact fixed point of the defining equations; in particular `#` belongs
/// to FOLLOW of the start symbol.
pub fn follow_set(rules: &Vec<FlatRuleDef>, first: &TermSet) -> (ts: TermSet)
    requires
        rules@.len() >= 1,
        first.wf(),
        forall|nn: Seq<u8>| #![trigger first.has_key(nn)] #![trigger defines(rules@, nn)] first.has_key(nn) <==> defines(rules@, nn),
        forall|tt: Seq<u8>| #![trigger mem_name(first.terms@, tt)] #![trigger occurs_as_term(rules@, tt)]
            mem_name(first.terms@, tt) <==> (occurs_as_term(rules@, tt) || tt == hash_name()),
    ensures
        ts.wf(),
        forall|n: Seq<u8>| #![trigger ts.has_key(n)] #![trigger defines(rules@, n)] ts.has_key(n) <==> defines(rules@, n),
        forall|t: Seq<u8>| #![trigger mem_name(ts.terms@, t)] #![trigger occurs_as_term(rules@, t)]
            mem_name(ts.terms@, t) <==> (occurs_as_term(rules@, t) || t == hash_name()),
        forall|n: Seq<u8>, t: Seq<u8>| ts.has(n, t) <==> follow_demand(rules@, *first, ts, n, t),
        forall|n: Seq<u8>| !ts.eps_of(n),
        ts.has(rules@[0].name@, hash_name()),
        forall|other: TermSet|
            #[trigger] follow_closed(rules@, *first, other) ==> forall|n: Seq<u8>, t: Seq<u8>|
                #![trigger ts.has(n, t)]
                ts.has(n, t) ==> other.has(n, t),
{
    let tab = classify(rules);
    let nkeys = tab.nonterms.len();
    let nterms = tab.terms.len();
    let mut eps: Vec<bool> = Vec::new();
    let mut sets: Vec<Vec<bool>> = Vec::new();
    let mut i: usize = 0;
    while i < nkeys
        invariant
            i <= nkeys,
            eps@.len() == i,
            sets@.len() == i,
            forall|a: int| 0 <= a < i ==> !(#[trigger] eps@[a]),
            forall|a: int| 0 <= a < i ==> (#[trigger] sets@[a])@.len() == nterms,
            forall|a: int, b: int|
                #![trigger sets@[a]@[b]]
                0 <= a < i && 0 <= b < nterms ==> !sets@[a]@[b],
        decreases nkeys - i,
    {
        eps.push(false);
        let mut row: Vec<bool> = Vec::new();
        let mut j: usize = 0;
        while j < nterms
            invariant
                j <= nterms,
                row@.len() == j,
                forall|b: int| 0 <= b < j ==> !(#[trigger] row@[b]),
            decreases nterms - j,
        {
            row.push(false);
            j = j + 1;
        }
        sets.push(row);
        i = i + 1;
    }
    let mut cur = TermSet { keys: tab.nonterms, terms: tab.terms, eps, sets };
    let ghost keyviews = Seq::new(cur.keys@.len(), |i: int| cur.keys@[i]@);
    let ghost termviews = Seq::new(cur.terms@.len(), |j: int| cur.terms@[j]@);
    proof {
        assert(cur.wf());
        assert forall|n: Seq<u8>, t: Seq<u8>| cur.has(n, t) implies follow_demand(
            rules@,
            *first,
            cur,
            n,
            t,
        ) by {
            let (i2, j2) = choose|i2: int, j2: int|
                #![trigger cur.keys@[i2], cur.terms@[j2]]
                0 <= i2 < cur.keys@.len() && 0 <= j2 < cur.terms@.len() && cur.keys@[i2]@ == n
                    && cur.terms@[j2]@ == t && cur.sets@[i2]@[j2];
        }
        assert forall|n: Seq<u8>| !cur.eps_of(n) by {
            if cur.eps_of(n) {
                let i2 = choose|i2: int|
                    0 <= i2 < cur.keys@.len() && (#[trigger] cur.keys@[i2])@ == n && cur.eps@[i2];
            }
        }
        assert forall|other: TermSet|
            #[trigger] follow_closed(rules@, *first, other) implies forall|n: Seq<u8>, t: Seq<u8>|
            #![trigger cur.has(n, t)]
            cur.has(n, t) ==> other.has(n, t) by {
            assert forall|n: Seq<u8>, t: Seq<u8>| #![trigger cur.has(n, t)] cur.has(n, t)
                implies other.has(n, t) by {
                let (i2, j2) = choose|i2: int, j2: int|
                    #![trigger cur.keys@[i2], cur.terms@[j2]]
                    0 <= i2 < cur.keys@.len() && 0 <= j2 < cur.terms@.len() && cur.keys@[i2]@
                        == n && cur.terms@[j2]@ == t && cur.sets@[i2]@[j2];
            }
        }
    }
    loop
        invariant
            rules@.len() >= 1,
            first.wf(),
            forall|nn: Seq<u8>| #![trigger first.has_key(nn)] #![trigger defines(rules@, nn)] first.has_key(nn) <==> defines(rules@, nn),
            forall|tt: Seq<u8>| #![trigger mem_name(first.terms@, tt)] #![trigger occurs_as_term(rules@, tt)]
                mem_name(first.terms@, tt) <==> (occurs_as_term(rules@, tt) || tt == hash_name()),
            cur.wf(),
            cur.keys@.len() == keyviews.len(),
            cur.terms@.len() == termviews.len(),
            forall|i2: int|
                0 <= i2 < keyviews.len() ==> (#[trigger] cur.keys@[i2])@ == keyviews[i2],
            forall|j2: int|
                0 <= j2 < termviews.len() ==> (#[trigger] cur.terms@[j2])@ == termviews[j2],
            forall|n: Seq<u8>| #![trigger cur.has_key(n)] #![trigger defines(rules@, n)] cur.has_key(n) <==> defines(rules@, n),
            forall|t: Seq<u8>| #![trigger mem_name(cur.terms@, t)] #![trigger occurs_as_term(rules@, t)]
                mem_name(cur.terms@, t) <==> (occurs_as_term(rules@, t) || t == hash_name()),
            forall|n: Seq<u8>, t: Seq<u8>|
                cur.has(n, t) ==> follow_demand(rules@, *first, cur, n, t),
            forall|n: Seq<u8>| !cur.eps_of(n),
            forall|other: TermSet|
                #[trigger] follow_closed(rules@, *first, other) ==> forall|n: Seq<u8>, t: Seq<u8>|
                    #![trigger cur.has(n, t)]
                    cur.has(n, t) ==> other.has(n, t),
        ensures
            forall|n: Seq<u8>, t: Seq<u8>|
                cur.has(n, t) <==> follow_demand(rules@, *first, cur, n, t),
            forall|n: Seq<u8>| !cur.eps_of(n),
            forall|other: TermSet|
                #[trigger] follow_closed(rules@, *first, other) ==> forall|n: Seq<u8>, t: Seq<u8>|
                    #![trigger cur.has(n, t)]
                    cur.has(n, t) ==> other.has(n, t),
        decreases keyviews.len() * (termviews.len() + 1) + 1 - (count_row(cur.eps@) + count_rows(
            cur.sets@,
        )),
    {
        proof {
            lemma_count_row_le(cur.eps@, cur.eps@);
            lemma_count_rows_bound(cur.sets@, termviews.len());
            assert(keyviews.len() * (termviews.len() + 1) == keyviews.len() * termviews.len()
                + keyviews.len()) by (nonlinear_arith);
        }
        let next = follow_pass(rules, first, &cur);
        proof {
            assert forall|other: TermSet|
                #[trigger] follow_closed(rules@, *first, other) implies forall|
                n: Seq<u8>,
                t: Seq<u8>,
            |
                #![trigger next.has(n, t)]
                next.has(n, t) ==> other.has(n, t) by {
                lemma_follow_below_step(rules@, *first, cur, next, other);
            }
        }
        let same = termset_bits_eq(&cur, &next);
        if same {
            proof {
                assert forall|n: Seq<u8>, t: Seq<u8>|
                    follow_demand(rules@, *first, cur, n, t) implies cur.has(n, t) by {
                    lemma_follow_demand_in_universe(rules@, *first, cur, n, t);
                    let i = choose|i: int|
                        0 <= i < cur.keys@.len() && (#[trigger] cur.keys@[i])@ == n;
                    let j = choose|j: int|
                        0 <= j < cur.terms@.len() && (#[trigger] cur.terms@[j])@ == t;
                    assert(next.sets@[i]@[j] == (cur.sets@[i]@[j] || follow_demand(
                        rules@,
                        *first,
                        cur,
                        cur.keys@[i]@,
                        cur.terms@[j]@,
                    )));
                    assert(cur.sets@[i]@ == next.sets@[i]@);
                    assert(cur.sets@[i]@[j]);
                }
            }
            break;
        }
        proof {
            assert(cur.le(next));
            lemma_follow_demand_monotone(rules@, *first, cur, next);
            assert forall|n: Seq<u8>, t: Seq<u8>| next.has(n, t) implies follow_demand(
                rules@,
                *first,
                next,
                n,
                t,
            ) by {
                let (i, j) = choose|i: int, j: int|
                    #![trigger next.keys@[i], next.terms@[j]]
                    0 <= i < next.keys@.len() && 0 <= j < next.terms@.len() && next.keys@[i]@
                        == n && next.terms@[j]@ == t && next.sets@[i]@[j];
                assert(cur.keys@[i]@ == n && cur.terms@[j]@ == t);
                if cur.sets@[i]@[j] {
                    assert(cur.has(n, t));
                } else {
                    assert(follow_demand(rules@, *first, cur, n, t));
                }
            }
            assert forall|n: Seq<u8>| !next.eps_of(n) by {
                if next.eps_of(n) {
                    let i = choose|i: int|
                        0 <= i < next.keys@.len() && (#[trigger] next.keys@[i])@ == n
                            && next.eps@[i];
                    assert(cur.keys@[i]@ == n && cur.eps@[i]);
                    assert(cur.eps_of(n));
                }
            }
            lemma_growth(cur, next);
            assert forall|n: Seq<u8>| next.has_key(n) <==> cur.has_key(n) by {
                if next.has_key(n) {
                    let i2 = choose|i2: int|
                        0 <= i2 < next.keys@.len() && (#[trigger] next.keys@[i2])@ == n;
                    assert(cur.keys@[i2]@ == n);
                }
                if cur.has_key(n) {
                    let i2 = choose|i2: int|
                        0 <= i2 < cur.keys@.len() && (#[trigger] cur.keys@[i2])@ == n;
                    assert(next.keys@[i2]@ == n);
                }
            }
            assert forall|t: Seq<u8>| mem_name(next.terms@, t) <==> mem_name(cur.terms@, t) by {
                if mem_name(next.terms@, t) {
                    let j2 = choose|j2: int|
                        0 <= j2 < next.terms@.len() && (#[trigger] next.terms@[j2])@ == t;
                    assert(cur.terms@[j2]@ == t);
                }
                if mem_name(cur.terms@, t) {
                    let j2 = choose|j2: int|
                        0 <= j2 < cur.terms@.len() && (#[trigger] cur.terms@[j2])@ == t;
                    assert(next.terms@[j2]@ == t);
                }
            }
            assert(strictly_sorted_names(next.keys@)) by {
                assert forall|a: int, b: int| 0 <= a < b < next.keys@.len() implies
                    crate::bytes::lex_lt(next.keys@[a]@, next.keys@[b]@) by {
                    assert(next.keys@[a]@ == cur.keys@[a]@ && next.keys@[b]@ == cur.keys@[b]@);
                }
            }
            assert(strictly_sorted_names(next.terms@)) by {
                assert forall|a: int, b: int| 0 <= a < b < next.terms@.len() implies
                    crate::bytes::lex_lt(next.terms@[a]@, next.terms@[b]@) by {
                    assert(next.terms@[a]@ == cur.terms@[a]@ && next.terms@[b]@ == cur.terms@[b]@);
                }
            }
            lemma_count_row_le(next.eps@, next.eps@);
            lemma_count_rows_bound(next.sets@, termviews.len());
            assert(keyviews.len() * (termviews.len() + 1) == keyviews.len() * termviews.len()
                + keyviews.len()) by (nonlinear_arith);
        }
        cur = next;
    }
    proof {
        assert(follow_demand(rules@, *first, cur, rules@[0].name@, hash_name()));
        assert(cur.has(rules@[0].name@, hash_name()));
    }
    cur
}

/// One more FIRST iteration after convergence changes nothing: everything
/// a further pass would demand is already in the set.
pub proof fn lemma_first_fixpoint(rules: Seq<FlatRuleDef>, ts: TermSet)
    requires
        forall|n: Seq<u8>, t: Seq<u8>| ts.has(n, t) <==> first_demand(rules, ts, n, t),
        forall|n: Seq<u8>| ts.eps_of(n) <==> eps_demand(rules, ts, n),
    ensures
        forall|n: Seq<u8>, t: Seq<u8>|
            (ts.has(n, t) || first_demand(rules, ts, n, t)) <==> ts.has(n, t),
        forall|n: Seq<u8>| (ts.eps_of(n) || eps_demand(rules, ts, n)) <==> ts.eps_of(n),
{
}

/// One more FOLLOW iteration after convergence changes nothing.
pub proof fn lemma_follow_fixpoint(rules: Seq<FlatRuleDef>, first: TermSet, ts: TermSet)
    requires
        forall|n: Seq<u8>, t: Seq<u8>| ts.has(n, t) <==> follow_demand(rules, first, ts, n, t),
    ensures
        forall|n: Seq<u8>, t: Seq<u8>|
            (ts.has(n, t) || follow_demand(rules, first, ts, n, t)) <==> ts.has(n, t),
{
}

} // verus!
