//! The LR(0) item-set automaton and the LR(0) and SLR(1) parse tables.
//!
//! An item marks a position inside one flat rule; a state is a canonical
//! (strictly sorted, hence duplicate-free) item set with its outgoing
//! edges.  States are discovered breadth-first with the successor symbols
//! taken in sorted order, so numbering and edges are a function of the
//! input alone.  Conflicting actions accumulate in their table cell and
//! are never resolved away.

use crate::ast::{FlatProd, FlatRuleDef, copy_flat, defines, sym_eq, sym_lt};
use crate::bits::{count_row, lemma_count_row_le};
use crate::bytes::{mem_name, strictly_sorted_names};
use crate::ll::{TermSet, ts_has_exec};
use crate::symbols::{classify, hash_name, occurs_as_term};
use vstd::prelude::*;

verus! {

/// One LR(0) item: the dot sits at `position` inside rule `rule_index`.
/// A `position` equal to the rule length is a completed item; for a rule
/// whose only symbol is epsilon the dot never rests before the epsilon, so
/// position 1 is its completed form.
#[derive(Clone, Copy, PartialEq, Eq, Structural)]
pub struct ProdState {
    pub position: usize,
    pub rule_index: usize,
}

/// The canonical item order: by position, then by rule index.
pub open spec fn item_lt(a: ProdState, b: ProdState) -> bool {
    a.position < b.position || (a.position == b.position && a.rule_index < b.rule_index)
}

/// Strictly sorted, hence duplicate-free.
pub open spec fn items_sorted(s: Seq<ProdState>) -> bool {
    forall|a: int, b: int| 0 <= a < b < s.len() ==> item_lt(s[a], s[b])
}

pub open spec fn item_in_bounds(rules: Seq<FlatRuleDef>, it: ProdState) -> bool {
    it.rule_index < rules.len() && it.position <= rules[it.rule_index as int].prod@.len()
}

pub open spec fn items_in_bounds(rules: Seq<FlatRuleDef>, s: Seq<ProdState>) -> bool {
    forall|a: int| 0 <= a < s.len() ==> item_in_bounds(rules, #[trigger] s[a])
}

/// The item `it` has its dot before the nonterminal that rule `r2`
/// defines, so the closure of a set containing `it` contains `(0, r2)`.
pub open spec fn expands_to(rules: Seq<FlatRuleDef>, it: ProdState, r2: int) -> bool {
    &&& it.rule_index < rules.len()
    &&& it.position < rules[it.rule_index as int].prod@.len()
    &&& 0 <= r2 < rules.len()
    &&& match rules[it.rule_index as int].prod@[it.position as int] {
        FlatProd::NonTerminal(b) => rules[r2].name@ == b@,
        _ => false,
    }
}

pub open spec fn item0(r: int) -> ProdState {
    ProdState { position: 0, rule_index: r as usize }
}

/// The set is closed under item expansion: an item with its dot before a
/// defined nonterminal is joined by the first items of that nonterminal's
/// rules.
pub open spec fn expansion_closed(rules: Seq<FlatRuleDef>, s: Set<ProdState>) -> bool {
    forall|it: ProdState, r2: int|
        #![trigger s.contains(it), expands_to(rules, it, r2)]
        s.contains(it) && expands_to(rules, it, r2) ==> s.contains(item0(r2))
}

/// `items` is the canonical closure of the item set `base`: it contains
/// `base`, it is closed under expansion, everything in it is either from
/// `base` or an expansion of something in it, and it is the smallest such
/// set: it lies inside every expansion-closed superset of `base`.
pub open spec fn is_closure(
    rules: Seq<FlatRuleDef>,
    base: Seq<ProdState>,
    items: Seq<ProdState>,
) -> bool {
    &&& items_sorted(items)
    &&& items_in_bounds(rules, items)
    &&& forall|a: int| 0 <= a < base.len() ==> items.contains(#[trigger] base[a])
    &&& forall|a: int, r2: int|
        #![trigger expands_to(rules, items[a], r2)]
        0 <= a < items.len() && expands_to(rules, items[a], r2) ==> items.contains(item0(r2))
    &&& forall|a: int|
        0 <= a < items.len() ==> (base.contains(#[trigger] items[a]) || (items[a].position == 0
            && exists|b: int|
            0 <= b < items.len() && expands_to(
                rules,
                #[trigger] items[b],
                items[a].rule_index as int,
            )))
    &&& forall|other: Set<ProdState>|
        #![trigger expansion_closed(rules, other)]
        expansion_closed(rules, other) && (forall|a: int|
            0 <= a < base.len() ==> other.contains(#[trigger] base[a])) ==> forall|a: int|
            0 <= a < items.len() ==> other.contains(#[trigger] items[a])
}

/// Insert an item into a strictly sorted item list unless it is present.
fn sorted_insert_item(v: &mut Vec<ProdState>, x: ProdState)
    requires
        items_sorted(old(v)@),
    ensures
        items_sorted(final(v)@),
        forall|y: ProdState| final(v)@.contains(y) <==> (old(v)@.contains(y) || y == x),
{
    let mut i: usize = 0;
    loop
        invariant
            items_sorted(v@),
            v@ == old(v)@,
            i <= v@.len(),
            forall|k: int| 0 <= k < i ==> item_lt(#[trigger] v@[k], x),
        ensures
            items_sorted(final(v)@),
            forall|y: ProdState| final(v)@.contains(y) <==> (old(v)@.contains(y) || y == x),
        decreases v@.len() - i,
    {
        if i == v.len() {
            let ghost pre = v@;
            v.push(x);
            proof {
                assert(forall|k: int| 0 <= k < pre.len() ==> #[trigger] v@[k] == pre[k]);
                assert(v@[pre.len() as int] == x);
                assert forall|y: ProdState|
                    v@.contains(y) <==> (pre.contains(y) || y == x) by {
                    if v@.contains(y) {
                        let q = choose|q: int| 0 <= q < v@.len() && v@[q] == y;
                        if q < pre.len() {
                            assert(pre[q] == y);
                        }
                    }
                    if pre.contains(y) {
                        let q = choose|q: int| 0 <= q < pre.len() && pre[q] == y;
                        assert(v@[q] == y);
                    }
                }
            }
            return ;
        }
        let c = v[i];
        if c.position == x.position && c.rule_index == x.rule_index {
            assert(v@.contains(x)) by {
                assert(v@[i as int] == x);
            }
            return ;
        }
        let xl = x.position < c.position || (x.position == c.position && x.rule_index
            < c.rule_index);
        if xl {
            let ghost pre = v@;
            v.insert(i, x);
            proof {
                assert(v@ == pre.insert(i as int, x));
                assert(v@[i as int] == x);
                assert(forall|k: int| 0 <= k < i ==> #[trigger] v@[k] == pre[k]);
                assert(forall|k: int| i < k < v@.len() ==> #[trigger] v@[k] == pre[k - 1]);
                assert forall|a: int, b: int| 0 <= a < b < v@.len() implies item_lt(
                    v@[a],
                    v@[b],
                ) by {
                    if a == i && b > i {
                        assert(item_lt(x, pre[i as int]));
                        if b - 1 > i {
                            assert(item_lt(pre[i as int], pre[b - 1]));
                        }
                    }
                }
                assert forall|y: ProdState|
                    v@.contains(y) <==> (pre.contains(y) || y == x) by {
                    if v@.contains(y) {
                        let q = choose|q: int| 0 <= q < v@.len() && v@[q] == y;
                        if q < i {
                            assert(pre[q] == y);
                        } else if q > i {
                            assert(pre[q - 1] == y);
                        }
                    }
                    if pre.contains(y) {
                        let q = choose|q: int| 0 <= q < pre.len() && pre[q] == y;
                        if q < i {
                            assert(v@[q] == y);
                        } else {
                            assert(v@[q + 1] == y);
                        }
                    }
                }
            }
            return ;
        }
        i = i + 1;
    }
}

/// Decide `expands_to(rules, it, r2)`.
fn expands_to_exec(rules: &Vec<FlatRuleDef>, it: ProdState, r2: usize) -> (res: bool)
    requires
        r2 < rules@.len(),
    ensures
        res == expands_to(rules@, it, r2 as int),
{
    if it.rule_index >= rules.len() {
        return false;
    }
    if it.position >= rules[it.rule_index].prod.len() {
        return false;
    }
    match &rules[it.rule_index].prod[it.position] {
        FlatProd::NonTerminal(b) => crate::bytes::bytes_eq(&rules[r2].name, b),
        _ => false,
    }
}

/// One more closure step over the reached-rule bits `cur` would reach rule
/// `r2`: an original item, or the first item of a reached rule, expands to
/// it.
pub open spec fn close_demand(
    rules: Seq<FlatRuleDef>,
    orig: Seq<ProdState>,
    cur: Seq<bool>,
    r2: int,
) -> bool {
    (exists|a: int| 0 <= a < orig.len() && expands_to(rules, #[trigger] orig[a], r2)) || (exists|
        r: int,
    |
        0 <= r < cur.len() && cur[r] && expands_to(rules, item0(r), r2))
}

fn close_demand_exec(rules: &Vec<FlatRuleDef>, orig: &Vec<ProdState>, cur: &Vec<bool>, r2: usize)
    -> (res: bool)
    requires
        r2 < rules@.len(),
        cur@.len() == rules@.len(),
    ensures
        res == close_demand(rules@, orig@, cur@, r2 as int),
{
    let mut a: usize = 0;
    while a < orig.len()
        invariant
            a <= orig@.len(),
            r2 < rules@.len(),
            forall|q: int| 0 <= q < a ==> !expands_to(rules@, #[trigger] orig@[q], r2 as int),
        decreases orig@.len() - a,
    {
        if expands_to_exec(rules, orig[a], r2) {
            return true;
        }
        a = a + 1;
    }
    let mut r: usize = 0;
    while r < cur.len()
        invariant
            r <= cur@.len(),
            r2 < rules@.len(),
            cur@.len() == rules@.len(),
            forall|q: int| 0 <= q < a ==> !expands_to(rules@, #[trigger] orig@[q], r2 as int),
            a == orig@.len(),
            forall|q: int|
                0 <= q < r ==> !(cur@[q] && expands_to(rules@, item0(q), r2 as int)),
        decreases cur@.len() - r,
    {
        if cur[r] {
            if expands_to_exec(rules, ProdState { position: 0, rule_index: r }, r2) {
                assert(item0(r as int) == ProdState { position: 0, rule_index: r });
                return true;
            }
        }
        r = r + 1;
    }
    proof {
        if close_demand(rules@, orig@, cur@, r2 as int) {
            if exists|q: int| 0 <= q < orig@.len() && expands_to(rules@, #[trigger] orig@[q], r2 as int) {
                let q = choose|q: int|
                    0 <= q < orig@.len() && expands_to(rules@, #[trigger] orig@[q], r2 as int);
                assert(false);
            } else {
                let q = choose|q: int|
                    0 <= q < cur@.len() && cur@[q] && expands_to(rules@, item0(q), r2 as int);
                assert(false);
            }
        }
    }
    false
}

/// The canonical closure of an item set: the smallest set containing
/// `orig` in which every item with the dot before a defined nonterminal is
/// joined by the first items of that nonterminal's rules.  The result is
/// strictly sorted, so equal closures are equal sequences.
#[verifier::rlimit(100)]
pub fn closure(rules: &Vec<FlatRuleDef>, orig: Vec<ProdState>) -> (res: Vec<ProdState>)
    requires
        items_in_bounds(rules@, orig@),
    ensures
        is_closure(rules@, orig@, res@),
{
    let n = rules.len();
    let mut bits: Vec<bool> = Vec::new();
    let mut i: usize = 0;
    while i < n
        invariant
            i <= n,
            bits@.len() == i,
            forall|q: int| 0 <= q < i ==> !(#[trigger] bits@[q]),
        decreases n - i,
    {
        bits.push(false);
        i = i + 1;
    }
    proof {
        assert forall|r2: int|
            0 <= r2 < bits@.len() && (#[trigger] bits@[r2]) implies close_demand(
            rules@,
            orig@,
            bits@,
            r2,
        ) by {}
        assert(bits_below_closed(rules@, orig@, bits@)) by {
            assert forall|other: Set<ProdState>|
                #![trigger expansion_closed(rules@, other)]
                expansion_closed(rules@, other) && (forall|a: int|
                    0 <= a < orig@.len() ==> other.contains(#[trigger] orig@[a]))
                    implies forall|r2: int|
                    0 <= r2 < bits@.len() && (#[trigger] bits@[r2]) ==> other.contains(
                        item0(r2),
                    ) by {}
        }
    }
    loop
        invariant
            n == rules@.len(),
            items_in_bounds(rules@, orig@),
            bits@.len() == n,
            forall|r2: int|
                0 <= r2 < n && (#[trigger] bits@[r2]) ==> close_demand(rules@, orig@, bits@, r2),
            bits_below_closed(rules@, orig@, bits@),
        ensures
            bits@.len() == n,
            forall|r2: int|
                0 <= r2 < n ==> ((#[trigger] bits@[r2]) <==> close_demand(
                    rules@,
                    orig@,
                    bits@,
                    r2,
                )),
            bits_below_closed(rules@, orig@, bits@),
        decreases n + 1 - count_row(bits@),
    {
        proof {
            lemma_count_row_le(bits@, bits@);
        }
        let mut next: Vec<bool> = Vec::new();
        let mut r2: usize = 0;
        while r2 < n
            invariant
                n == rules@.len(),
                bits@.len() == n,
                r2 <= n,
                next@.len() == r2,
                forall|q: int|
                    0 <= q < r2 ==> (#[trigger] next@[q] == (bits@[q] || close_demand(
                        rules@,
                        orig@,
                        bits@,
                        q,
                    ))),
            decreases n - r2,
        {
            let v = bits[r2] || close_demand_exec(rules, &orig, &bits, r2);
            next.push(v);
            r2 = r2 + 1;
        }
        let mut same = true;
        let mut q: usize = 0;
        while q < n
            invariant
                q <= n,
                bits@.len() == n,
                next@.len() == n,
                same ==> forall|m: int| 0 <= m < q ==> bits@[m] == next@[m],
                !same ==> exists|m: int| 0 <= m < n && bits@[m] != next@[m],
            decreases n - q,
        {
            if bits[q] != next[q] {
                same = false;
            }
            q = q + 1;
        }
        if same {
            proof {
                lemma_bits_fix(rules@, orig@, bits@, next@);
            }
            break;
        }
        proof {
            lemma_bits_step(rules@, orig@, bits@, next@);
            lemma_bits_least_step(rules@, orig@, bits@, next@);
            lemma_count_row_le(bits@, next@);
            lemma_count_row_le(next@, next@);
            assert(bits@ != next@) by {
                let m = choose|m: int| 0 <= m < n && bits@[m] != next@[m];
            }
        }
        bits = next;
    }
    let mut res: Vec<ProdState> = Vec::new();
    let mut a: usize = 0;
    while a < orig.len()
        invariant
            a <= orig@.len(),
            items_sorted(res@),
            forall|y: ProdState|
                res@.contains(y) <==> exists|q: int| 0 <= q < a && #[trigger] orig@[q] == y,
        decreases orig@.len() - a,
    {
        let ghost pre = res@;
        sorted_insert_item(&mut res, orig[a]);
        proof {
            assert forall|y: ProdState|
                res@.contains(y) <==> exists|q: int| 0 <= q < a + 1 && #[trigger] orig@[q] == y by {
                if res@.contains(y) {
                    if pre.contains(y) {
                        let q = choose|q: int| 0 <= q < a && #[trigger] orig@[q] == y;
                    } else {
                        assert(orig@[a as int] == y);
                    }
                }
                if exists|q: int| 0 <= q < a + 1 && #[trigger] orig@[q] == y {
                    let q = choose|q: int| 0 <= q < a + 1 && #[trigger] orig@[q] == y;
                    if q < a {
                        assert(pre.contains(y)) by {
                            assert(exists|q2: int| 0 <= q2 < a && #[trigger] orig@[q2] == y);
                        }
                    }
                }
            }
        }
        a = a + 1;
    }
    let mut r: usize = 0;
    while r < n
        invariant
            n == rules@.len(),
            bits@.len() == n,
            r <= n,
            items_sorted(res@),
            forall|y: ProdState|
                res@.contains(y) <==> (orig@.contains(y) || exists|q: int|
                    0 <= q < r && (#[trigger] bits@[q]) && item0(q) == y),
        decreases n - r,
    {
        if bits[r] {
            let ghost pre = res@;
            sorted_insert_item(&mut res, ProdState { position: 0, rule_index: r });
            proof {
                assert(item0(r as int) == ProdState { position: 0, rule_index: r });
                assert forall|y: ProdState|
                    res@.contains(y) <==> (orig@.contains(y) || exists|q: int|
                        0 <= q < r + 1 && (#[trigger] bits@[q]) && item0(q) == y) by {
                    if res@.contains(y) && !pre.contains(y) {
                        assert(y == item0(r as int));
                        assert(bits@[r as int] && item0(r as int) == y);
                    }
                    if exists|q: int| 0 <= q < r + 1 && (#[trigger] bits@[q]) && item0(q) == y {
                        let q = choose|q: int|
                            0 <= q < r + 1 && (#[trigger] bits@[q]) && item0(q) == y;
                        if q < r {
                            assert(pre.contains(y));
                        }
                    }
                }
            }
        }
        r = r + 1;
    }
    proof {
        lemma_closure_result(rules@, orig@, bits@, res@);
    }
    res
}

/// A pass that changes nothing has reached the fixed point.
proof fn lemma_bits_fix(
    rules: Seq<FlatRuleDef>,
    orig: Seq<ProdState>,
    bits: Seq<bool>,
    next: Seq<bool>,
)
    requires
        bits.len() == next.len(),
        forall|q: int|
            0 <= q < next.len() ==> (#[trigger] next[q] == (bits[q] || close_demand(
                rules,
                orig,
                bits,
                q,
            ))),
        forall|q: int| 0 <= q < bits.len() ==> bits[q] == next[q],
        forall|r2: int|
            0 <= r2 < bits.len() && (#[trigger] bits[r2]) ==> close_demand(rules, orig, bits, r2),
    ensures
        forall|r2: int|
            0 <= r2 < bits.len() ==> ((#[trigger] bits[r2]) <==> close_demand(
                rules,
                orig,
                bits,
                r2,
            )),
{
    assert forall|r2: int|
        0 <= r2 < bits.len() implies ((#[trigger] bits[r2]) <==> close_demand(
        rules,
        orig,
        bits,
        r2,
    )) by {
        assert(next[r2] == (bits[r2] || close_demand(rules, orig, bits, r2)));
    }
}

/// Every set bit stays inside any expansion-closed superset of the base
/// items.
pub open spec fn bits_below_closed(
    rules: Seq<FlatRuleDef>,
    orig: Seq<ProdState>,
    bits: Seq<bool>,
) -> bool {
    forall|other: Set<ProdState>|
        #![trigger expansion_closed(rules, other)]
        expansion_closed(rules, other) && (forall|a: int|
            0 <= a < orig.len() ==> other.contains(#[trigger] orig[a])) ==> forall|r2: int|
            0 <= r2 < bits.len() && (#[trigger] bits[r2]) ==> other.contains(item0(r2))
}

/// A pass preserves the bound by expansion-closed supersets.
proof fn lemma_bits_least_step(
    rules: Seq<FlatRuleDef>,
    orig: Seq<ProdState>,
    bits: Seq<bool>,
    next: Seq<bool>,
)
    requires
        bits.len() == next.len(),
        forall|q: int|
            0 <= q < next.len() ==> (#[trigger] next[q] == (bits[q] || close_demand(
                rules,
                orig,
                bits,
                q,
            ))),
        bits_below_closed(rules, orig, bits),
    ensures
        bits_below_closed(rules, orig, next),
{
    assert forall|other: Set<ProdState>|
        #![trigger expansion_closed(rules, other)]
        expansion_closed(rules, other) && (forall|a: int|
            0 <= a < orig.len() ==> other.contains(#[trigger] orig[a])) implies forall|r2: int|
        0 <= r2 < next.len() && (#[trigger] next[r2]) ==> other.contains(item0(r2)) by {
        assert forall|r2: int|
            0 <= r2 < next.len() && (#[trigger] next[r2]) implies other.contains(item0(r2)) by {
            if bits[r2] {
            } else {
                assert(close_demand(rules, orig, bits, r2));
                if exists|q: int|
                    0 <= q < orig.len() && expands_to(rules, #[trigger] orig[q], r2) {
                    let q = choose|q: int|
                        0 <= q < orig.len() && expands_to(rules, #[trigger] orig[q], r2);
                    assert(other.contains(orig[q]));
                    assert(other.contains(item0(r2)));
                } else {
                    let q = choose|q: int|
                        0 <= q < bits.len() && bits[q] && expands_to(rules, item0(q), r2);
                    assert(other.contains(item0(q)));
                    assert(other.contains(item0(r2)));
                }
            }
        }
    }
}

/// Bits set by a pass are still demanded over the new bits.
proof fn lemma_bits_step(
    rules: Seq<FlatRuleDef>,
    orig: Seq<ProdState>,
    bits: Seq<bool>,
    next: Seq<bool>,
)
    requires
        bits.len() == next.len(),
        forall|q: int|
            0 <= q < next.len() ==> (#[trigger] next[q] == (bits[q] || close_demand(
                rules,
                orig,
                bits,
                q,
            ))),
        forall|r2: int|
            0 <= r2 < bits.len() && (#[trigger] bits[r2]) ==> close_demand(rules, orig, bits, r2),
    ensures
        forall|r2: int|
            0 <= r2 < next.len() && (#[trigger] next[r2]) ==> close_demand(rules, orig, next, r2),
{
    assert forall|r2: int|
        0 <= r2 < next.len() && (#[trigger] next[r2]) implies close_demand(
        rules,
        orig,
        next,
        r2,
    ) by {
        assert(close_demand(rules, orig, bits, r2));
        lemma_close_demand_monotone(rules, orig, bits, next, r2);
    }
}

proof fn lemma_close_demand_monotone(
    rules: Seq<FlatRuleDef>,
    orig: Seq<ProdState>,
    a: Seq<bool>,
    b: Seq<bool>,
    r2: int,
)
    requires
        a.len() == b.len(),
        forall|q: int| 0 <= q < a.len() ==> (a[q] ==> b[q]),
        close_demand(rules, orig, a, r2),
    ensures
        close_demand(rules, orig, b, r2),
{
    if exists|q: int| 0 <= q < orig.len() && expands_to(rules, #[trigger] orig[q], r2) {
    } else {
        let q = choose|q: int| 0 <= q < a.len() && a[q] && expands_to(rules, item0(q), r2);
        assert(b[q] && expands_to(rules, item0(q), r2));
    }
}

/// The merged, sorted result satisfies the closure characterization.
proof fn lemma_closure_result(
    rules: Seq<FlatRuleDef>,
    orig: Seq<ProdState>,
    bits: Seq<bool>,
    res: Seq<ProdState>,
)
    requires
        items_in_bounds(rules, orig),
        bits.len() == rules.len(),
        rules.len() <= usize::MAX,
        bits_below_closed(rules, orig, bits),
        items_sorted(res),
        forall|r2: int|
            0 <= r2 < bits.len() ==> ((#[trigger] bits[r2]) <==> close_demand(
                rules,
                orig,
                bits,
                r2,
            )),
        forall|y: ProdState|
            res.contains(y) <==> (orig.contains(y) || exists|q: int|
                0 <= q < bits.len() && (#[trigger] bits[q]) && item0(q) == y),
    ensures
        is_closure(rules, orig, res),
{
    assert forall|a: int| 0 <= a < res.len() implies item_in_bounds(
        rules,
        #[trigger] res[a],
    ) by {
        assert(res.contains(res[a]));
        if orig.contains(res[a]) {
            let q = choose|q: int| 0 <= q < orig.len() && orig[q] == res[a];
        } else {
            let q = choose|q: int|
                0 <= q < bits.len() && (#[trigger] bits[q]) && item0(q) == res[a];
        }
    }
    assert forall|a: int| 0 <= a < orig.len() implies res.contains(#[trigger] orig[a]) by {
        assert(orig.contains(orig[a]));
    }
    assert forall|a: int, r2: int|
        #![trigger expands_to(rules, res[a], r2)]
        0 <= a < res.len() && expands_to(rules, res[a], r2) implies res.contains(item0(r2)) by {
        assert(res.contains(res[a]));
        if orig.contains(res[a]) {
            assert(close_demand(rules, orig, bits, r2)) by {
                let q = choose|q: int| 0 <= q < orig.len() && orig[q] == res[a];
                assert(expands_to(rules, orig[q], r2));
            }
            assert(bits[r2]);
        } else {
            let q = choose|q: int|
                0 <= q < bits.len() && (#[trigger] bits[q]) && item0(q) == res[a];
            assert(close_demand(rules, orig, bits, r2)) by {
                assert(bits[q] && expands_to(rules, item0(q), r2));
            }
            assert(bits[r2]);
        }
    }
    assert forall|other: Set<ProdState>|
        #![trigger expansion_closed(rules, other)]
        expansion_closed(rules, other) && (forall|a: int|
            0 <= a < orig.len() ==> other.contains(#[trigger] orig[a])) implies forall|a: int|
        0 <= a < res.len() ==> other.contains(#[trigger] res[a]) by {
        assert forall|a: int| 0 <= a < res.len() implies other.contains(#[trigger] res[a]) by {
            assert(res.contains(res[a]));
            if orig.contains(res[a]) {
                let q = choose|q: int| 0 <= q < orig.len() && orig[q] == res[a];
                assert(other.contains(orig[q]));
            } else {
                let q = choose|q: int|
                    0 <= q < bits.len() && (#[trigger] bits[q]) && item0(q) == res[a];
                assert(other.contains(item0(q)));
            }
        }
    }
    assert forall|a: int|
        0 <= a < res.len() implies (orig.contains(#[trigger] res[a]) || (res[a].position == 0
            && exists|b: int|
            0 <= b < res.len() && expands_to(rules, #[trigger] res[b], res[a].rule_index as int)))
        by {
        assert(res.contains(res[a]));
        if !orig.contains(res[a]) {
            let q = choose|q: int|
                0 <= q < bits.len() && (#[trigger] bits[q]) && item0(q) == res[a];
            assert(close_demand(rules, orig, bits, q));
            assert(res[a].rule_index as int == q);
            if exists|m: int| 0 <= m < orig.len() && expands_to(rules, #[trigger] orig[m], q) {
                let m = choose|m: int|
                    0 <= m < orig.len() && expands_to(rules, #[trigger] orig[m], q);
                assert(res.contains(orig[m]));
                let b = choose|b: int| 0 <= b < res.len() && res[b] == orig[m];
                assert(expands_to(rules, res[b], res[a].rule_index as int));
            } else {
                let m = choose|m: int|
                    0 <= m < bits.len() && bits[m] && expands_to(rules, item0(m), q);
                assert(res.contains(item0(m)));
                let b = choose|b: int| 0 <= b < res.len() && res[b] == item0(m);
                assert(expands_to(rules, res[b], res[a].rule_index as int));
            }
        }
    }
}

/// The item `it` has its dot immediately before a symbol equal to `sym`.
pub open spec fn dot_sym_is(rules: Seq<FlatRuleDef>, it: ProdState, sym: FlatProd) -> bool {
    &&& it.rule_index < rules.len()
    &&& it.position < rules[it.rule_index as int].prod@.len()
    &&& sym_eq(rules[it.rule_index as int].prod@[it.position as int], sym)
}

/// The same item with the dot moved one symbol to the right.
pub open spec fn adv(it: ProdState) -> ProdState {
    ProdState { position: (it.position + 1) as usize, rule_index: it.rule_index }
}

/// `items` is the canonical `Goto(src, sym)` state: the closure of the
/// advanced dots of every item of `src` whose dot sits before `sym`.
pub open spec fn is_goto_closure(
    rules: Seq<FlatRuleDef>,
    src: Seq<ProdState>,
    sym: FlatProd,
    items: Seq<ProdState>,
) -> bool {
    &&& items_sorted(items)
    &&& items_in_bounds(rules, items)
    &&& forall|a: int|
        0 <= a < src.len() && dot_sym_is(rules, #[trigger] src[a], sym) ==> items.contains(
            adv(src[a]),
        )
    &&& forall|a: int, r2: int|
        #![trigger expands_to(rules, items[a], r2)]
        0 <= a < items.len() && expands_to(rules, items[a], r2) ==> items.contains(item0(r2))
    &&& forall|a: int|
        0 <= a < items.len() ==> ((exists|c: int|
            0 <= c < src.len() && dot_sym_is(rules, #[trigger] src[c], sym) && items[a] == adv(
                src[c],
            )) || ((#[trigger] items[a]).position == 0 && exists|b: int|
            0 <= b < items.len() && expands_to(
                rules,
                #[trigger] items[b],
                items[a].rule_index as int,
            )))
    &&& forall|other: Set<ProdState>|
        #![trigger expansion_closed(rules, other)]
        expansion_closed(rules, other) && (forall|a: int|
            0 <= a < src.len() && dot_sym_is(rules, #[trigger] src[a], sym) ==> other.contains(
                adv(src[a]),
            )) ==> forall|a: int|
            0 <= a < items.len() ==> other.contains(#[trigger] items[a])
}

/// A symbol equal to `x` occurs in the list.
pub open spec fn mem_sym(s: Seq<FlatProd>, x: FlatProd) -> bool {
    exists|i: int| 0 <= i < s.len() && sym_eq(#[trigger] s[i], x)
}

pub open spec fn syms_strictly_sorted(s: Seq<FlatProd>) -> bool {
    forall|a: int, b: int| 0 <= a < b < s.len() ==> sym_lt(s[a], s[b])
}

proof fn lemma_sym_trichotomy(a: FlatProd, b: FlatProd)
    ensures
        sym_lt(a, b) || sym_eq(a, b) || sym_lt(b, a),
        sym_lt(a, b) ==> !sym_eq(a, b) && !sym_lt(b, a),
        sym_eq(a, b) ==> !sym_lt(a, b),
{
    crate::bytes::lemma_lex_trichotomy(a.spec_name(), b.spec_name());
}

proof fn lemma_sym_transitive(a: FlatProd, b: FlatProd, c: FlatProd)
    requires
        sym_lt(a, b),
        sym_lt(b, c),
    ensures
        sym_lt(a, c),
{
    if a.rank() == b.rank() && b.rank() == c.rank() {
        crate::bytes::lemma_lex_transitive(a.spec_name(), b.spec_name(), c.spec_name());
    }
}

/// Insert a copy of `x` into a strictly sorted symbol list unless an equal
/// symbol is present.
fn sorted_insert_sym(v: &mut Vec<FlatProd>, x: &FlatProd)
    requires
        syms_strictly_sorted(old(v)@),
    ensures
        syms_strictly_sorted(final(v)@),
        forall|y: FlatProd|
            #![trigger mem_sym(final(v)@, y)]
            #![trigger mem_sym(old(v)@, y)]
            mem_sym(final(v)@, y) <==> (mem_sym(old(v)@, y) || sym_eq(*x, y)),
{
    let mut i: usize = 0;
    loop
        invariant
            syms_strictly_sorted(v@),
            v@ == old(v)@,
            i <= v@.len(),
            forall|k: int| 0 <= k < i ==> sym_lt(#[trigger] v@[k], *x),
        ensures
            syms_strictly_sorted(final(v)@),
            forall|y: FlatProd|
                #![trigger mem_sym(final(v)@, y)]
                #![trigger mem_sym(old(v)@, y)]
                mem_sym(final(v)@, y) <==> (mem_sym(old(v)@, y) || sym_eq(*x, y)),
        decreases v@.len() - i,
    {
        if i == v.len() {
            let ghost pre = v@;
            v.push(copy_flat(x));
            proof {
                assert(forall|k: int| 0 <= k < pre.len() ==> #[trigger] v@[k] == pre[k]);
                assert(sym_eq(*x, v@[pre.len() as int]));
                assert forall|y: FlatProd|
                    mem_sym(v@, y) <==> (mem_sym(pre, y) || sym_eq(*x, y)) by {
                    if mem_sym(v@, y) {
                        let q = choose|q: int| 0 <= q < v@.len() && sym_eq(#[trigger] v@[q], y);
                        if q < pre.len() {
                            assert(sym_eq(pre[q], y));
                        }
                    }
                    if mem_sym(pre, y) {
                        let q = choose|q: int| 0 <= q < pre.len() && sym_eq(#[trigger] pre[q], y);
                        assert(sym_eq(v@[q], y));
                    }
                }
            }
            return ;
        }
        if crate::ast::flat_eq(&v[i], x) {
            assert(mem_sym(v@, *x)) by {
                assert(sym_eq(v@[i as int], *x));
            }
            proof {
                assert forall|y: FlatProd|
                    mem_sym(v@, y) <==> (mem_sym(v@, y) || sym_eq(*x, y)) by {
                    if sym_eq(*x, y) {
                        assert(sym_eq(v@[i as int], y));
                    }
                }
            }
            return ;
        }
        let xl = crate::ast::flat_lt(x, &v[i]);
        if xl {
            let ghost pre = v@;
            v.insert(i, copy_flat(x));
            proof {
                assert(v@ == pre.insert(i as int, v@[i as int]));
                assert(sym_eq(*x, v@[i as int]));
                assert(forall|k: int| 0 <= k < i ==> #[trigger] v@[k] == pre[k]);
                assert(forall|k: int| i < k < v@.len() ==> #[trigger] v@[k] == pre[k - 1]);
                assert forall|a: int, b: int| 0 <= a < b < v@.len() implies sym_lt(
                    v@[a],
                    v@[b],
                ) by {
                    if a < i && b == i {
                        assert(sym_lt(pre[a], *x));
                        assert(sym_lt(v@[a], v@[b])) by {
                            lemma_sym_eqlt(pre[a], *x, v@[i as int]);
                        }
                    } else if a == i && b > i {
                        assert(sym_lt(*x, pre[i as int]));
                        if b - 1 > i {
                            assert(sym_lt(pre[i as int], pre[b - 1]));
                            lemma_sym_transitive(*x, pre[i as int], pre[b - 1]);
                        }
                        lemma_sym_lteq(*x, v@[b], v@[i as int]);
                    } else if a < i && b > i {
                    } else {
                    }
                }
                assert forall|y: FlatProd|
                    mem_sym(v@, y) <==> (mem_sym(pre, y) || sym_eq(*x, y)) by {
                    if mem_sym(v@, y) {
                        let q = choose|q: int| 0 <= q < v@.len() && sym_eq(#[trigger] v@[q], y);
                        if q < i {
                            assert(sym_eq(pre[q], y));
                        } else if q > i {
                            assert(sym_eq(pre[q - 1], y));
                        }
                    }
                    if mem_sym(pre, y) {
                        let q = choose|q: int| 0 <= q < pre.len() && sym_eq(#[trigger] pre[q], y);
                        if q < i {
                            assert(sym_eq(v@[q], y));
                        } else {
                            assert(sym_eq(v@[q + 1], y));
                        }
                    }
                }
            }
            return ;
        }
        proof {
            lemma_sym_trichotomy(*x, v@[i as int]);
        }
        i = i + 1;
    }
}

/// `sym_lt` respects symbol equality on the left.
proof fn lemma_sym_eqlt(a: FlatProd, x: FlatProd, y: FlatProd)
    requires
        sym_lt(a, x),
        sym_eq(x, y),
    ensures
        sym_lt(a, y),
{
}

/// `sym_lt` respects symbol equality between its arguments.
proof fn lemma_sym_lteq(x: FlatProd, b: FlatProd, y: FlatProd)
    requires
        sym_lt(x, b),
        sym_eq(x, y),
    ensures
        sym_lt(y, b),
{
}

/// One state of the automaton: its index, its canonical item set, and its
/// outgoing edges in sorted symbol order.
pub struct LrState {
    pub index: usize,
    pub prods: Vec<ProdState>,
    pub edges: Vec<(FlatProd, usize)>,
}

/// The LR(0) item-set automaton, with the terminal and nonterminal
/// alphabets of the grammar it was built from.  `discovery` is a ghost
/// witness of the breadth-first construction: for each state beyond 0 the
/// (state, edge) position at which it was first discovered.
pub struct LrGraph {
    pub states: Vec<LrState>,
    pub terminals: Vec<Vec<u8>>,
    pub non_terminals: Vec<Vec<u8>>,
    pub discovery: Ghost<Seq<(int, int)>>,
}

/// The state's edges are exactly one per symbol that occurs after a dot in
/// its item set (epsilon never does), in strictly sorted symbol order,
/// each leading to the canonical goto state.
pub open spec fn state_edges_wf(rules: Seq<FlatRuleDef>, states: Seq<LrState>, s: int) -> bool {
    &&& forall|e: int|
        0 <= e < states[s].edges@.len() ==> (#[trigger] states[s].edges@[e]).1
            < states.len() && is_goto_closure(
            rules,
            states[s].prods@,
            states[s].edges@[e].0,
            states[states[s].edges@[e].1 as int].prods@,
        )
    &&& forall|e1: int, e2: int|
        0 <= e1 < e2 < states[s].edges@.len() ==> sym_lt(
            (#[trigger] states[s].edges@[e1]).0,
            (#[trigger] states[s].edges@[e2]).0,
        )
    &&& forall|a: int|
        #![trigger states[s].prods@[a]]
        0 <= a < states[s].prods@.len() && states[s].prods@[a].rule_index < rules.len()
            && states[s].prods@[a].position
            < rules[states[s].prods@[a].rule_index as int].prod@.len() && !(
        rules[states[s].prods@[a].rule_index as int].prod@[states[s].prods@[a].position as int]
            matches FlatProd::Eps) ==> exists|e: int|
            0 <= e < states[s].edges@.len() && sym_eq(
                (#[trigger] states[s].edges@[e]).0,
                rules[states[s].prods@[a].rule_index as int].prod@[states[s].prods@[a].position as int],
            )
    &&& forall|e: int|
        0 <= e < states[s].edges@.len() ==> !(#[trigger] states[s].edges@[e]).0.spec_is_eps()
            && exists|a: int|
            0 <= a < states[s].prods@.len() && dot_sym_is(
                rules,
                #[trigger] states[s].prods@[a],
                states[s].edges@[e].0,
            )
}

/// All structural facts of a finished automaton over its grammar.
/// Edge `e` of state `p` targets state `s`.
pub open spec fn edge_to(states: Seq<LrState>, p: int, e: int, s: int) -> bool {
    0 <= p < states.len() && 0 <= e < states[p].edges@.len() && states[p].edges@[e].1 == s
}

/// The scan order on (state, edge) pairs.
pub open spec fn pair_lt(a: (int, int), b: (int, int)) -> bool {
    a.0 < b.0 || (a.0 == b.0 && a.1 < b.1)
}

pub open spec fn pair_le(a: (int, int), b: (int, int)) -> bool {
    a.0 < b.0 || (a.0 == b.0 && a.1 <= b.1)
}

/// The state list holds exactly the discovered states in first-discovery
/// order: each state beyond 0 was created at its `discovery` position —
/// an incoming edge of an earlier state — that position is its earliest
/// incoming edge in scan order (state, then edge), and later states were
/// discovered strictly later.  No unreachable extra state can satisfy
/// this, and the numbering is the breadth-first one.
pub open spec fn states_discovered(states: Seq<LrState>, discovery: Seq<(int, int)>) -> bool {
    &&& discovery.len() == states.len()
    &&& forall|s: int|
        1 <= s < states.len() ==> edge_to(states, (#[trigger] discovery[s]).0, discovery[s].1, s)
            && discovery[s].0 < s
    &&& forall|s: int, q: int, f: int|
        #![trigger edge_to(states, q, f, s)]
        1 <= s < states.len() && edge_to(states, q, f, s) ==> pair_le(discovery[s], (q, f))
    &&& forall|s1: int, s2: int|
        1 <= s1 < s2 < states.len() ==> pair_lt(
            (#[trigger] discovery[s1]),
            (#[trigger] discovery[s2]),
        )
}

pub open spec fn graph_wf(rules: Seq<FlatRuleDef>, g: LrGraph) -> bool {
    &&& g.states@.len() >= 1
    &&& forall|s: int| 0 <= s < g.states@.len() ==> (#[trigger] g.states@[s]).index == s
    &&& forall|s: int|
        0 <= s < g.states@.len() ==> items_sorted((#[trigger] g.states@[s]).prods@)
            && items_in_bounds(rules, g.states@[s].prods@)
    &&& is_closure(rules, seq![item0(0)], g.states@[0].prods@)
    &&& forall|s1: int, s2: int|
        0 <= s1 < s2 < g.states@.len() ==> (#[trigger] g.states@[s1]).prods@ != (
        #[trigger] g.states@[s2]).prods@
    &&& forall|s: int| 0 <= s < g.states@.len() ==> state_edges_wf(rules, g.states@, s)
    &&& states_discovered(g.states@, g.discovery@)
}

/// A fresh copy of an item list.
fn copy_items(v: &Vec<ProdState>) -> (r: Vec<ProdState>)
    ensures
        r@ == v@,
{
    let mut r: Vec<ProdState> = Vec::new();
    let mut i: usize = 0;
    while i < v.len()
        invariant
            i <= v@.len(),
            r@ =~= v@.take(i as int),
        decreases v@.len() - i,
    {
        r.push(v[i]);
        i = i + 1;
    }
    assert(r@ =~= v@);
    r
}

/// Compare two item lists.
fn items_eq(a: &Vec<ProdState>, b: &Vec<ProdState>) -> (r: bool)
    ensures
        r == (a@ == b@),
{
    if a.len() != b.len() {
        assert(a@ != b@);
        return false;
    }
    let mut i: usize = 0;
    while i < a.len()
        invariant
            i <= a@.len(),
            a@.len() == b@.len(),
            forall|k: int| 0 <= k < i ==> a@[k] == b@[k],
        decreases a@.len() - i,
    {
        if !(a[i].position == b[i].position && a[i].rule_index == b[i].rule_index) {
            assert(a@[i as int] != b@[i as int]);
            return false;
        }
        i = i + 1;
    }
    assert(a@ =~= b@);
    true
}

/// The longest right-hand side of any rule.
pub open spec fn max_prod_len(rules: Seq<FlatRuleDef>) -> nat
    decreases rules.len(),
{
    if rules.len() == 0 {
        0
    } else if rules[0].prod@.len() >= max_prod_len(rules.skip(1)) {
        rules[0].prod@.len()
    } else {
        max_prod_len(rules.skip(1))
    }
}

proof fn lemma_max_prod_len(rules: Seq<FlatRuleDef>, r: int)
    requires
        0 <= r < rules.len(),
    ensures
        rules[r].prod@.len() <= max_prod_len(rules),
    decreases rules.len(),
{
    if r > 0 {
        lemma_max_prod_len(rules.skip(1), r - 1);
        assert(rules.skip(1)[r - 1] == rules[r]);
    }
}

/// The numeric code of an item: items sorted by `item_lt` have strictly
/// increasing codes.
pub open spec fn item_code(it: ProdState, n: nat) -> int {
    it.position * n + it.rule_index
}

proof fn lemma_item_code_lt(a: ProdState, b: ProdState, n: nat)
    requires
        item_lt(a, b),
        a.rule_index < n,
        b.rule_index < n,
    ensures
        item_code(a, n) < item_code(b, n),
{
    if a.position < b.position {
        assert((a.position + 1) * n <= b.position * n) by (nonlinear_arith)
            requires
                a.position + 1 <= b.position,
                n >= 0;
        assert(a.position * n + n == (a.position + 1) * n) by (nonlinear_arith);
    }
}

proof fn lemma_item_code_inj(a: ProdState, b: ProdState, n: nat)
    requires
        a.rule_index < n,
        b.rule_index < n,
        item_code(a, n) == item_code(b, n),
    ensures
        a == b,
{
    if item_lt(a, b) {
        lemma_item_code_lt(a, b, n);
    }
    if item_lt(b, a) {
        lemma_item_code_lt(b, a, n);
    }
    assert(a.position == b.position && a.rule_index == b.rule_index);
}

/// The bitmask encoding of an item set.
pub open spec fn items_mask(s: Seq<ProdState>, n: nat) -> nat
    decreases s.len(),
{
    if s.len() == 0 {
        0
    } else {
        items_mask(s.drop_last(), n) + vstd::arithmetic::power2::pow2(
            item_code(s.last(), n) as nat,
        )
    }
}

proof fn lemma_code_nonneg(it: ProdState, n: nat)
    ensures
        item_code(it, n) >= 0,
{
    assert(it.position * n >= 0) by (nonlinear_arith);
}

proof fn lemma_mask_tight(s: Seq<ProdState>, n: nat)
    requires
        s.len() >= 1,
        items_sorted(s),
        forall|a: int| 0 <= a < s.len() ==> (#[trigger] s[a]).rule_index < n,
    ensures
        items_mask(s, n) < vstd::arithmetic::power2::pow2((item_code(s.last(), n) + 1) as nat),
        items_mask(s, n) >= vstd::arithmetic::power2::pow2(item_code(s.last(), n) as nat),
    decreases s.len(),
{
    lemma_code_nonneg(s.last(), n);
    let c = item_code(s.last(), n) as nat;
    assert(item_code(s.last(), n) == c);
    assert((item_code(s.last(), n) + 1) as nat == c + 1);
    vstd::arithmetic::power2::lemma_pow2_pos(c);
    vstd::arithmetic::power2::lemma_pow2_adds(c, 1);
    vstd::arithmetic::power2::lemma2_to64();
    assert(vstd::arithmetic::power2::pow2(c + 1) == 2 * vstd::arithmetic::power2::pow2(c));
    if s.len() == 1 {
        assert(items_mask(s, n) == items_mask(s.drop_last(), n)
            + vstd::arithmetic::power2::pow2(c));
        assert(items_mask(s.drop_last(), n) == 0);
    } else {
        let d = s.drop_last();
        assert(forall|a: int| 0 <= a < d.len() ==> #[trigger] d[a] == s[a]);
        lemma_mask_tight(d, n);
        lemma_code_nonneg(d.last(), n);
        let c2 = item_code(d.last(), n) as nat;
        assert(item_lt(d.last(), s.last()));
        lemma_item_code_lt(d.last(), s.last(), n);
        assert(c2 + 1 <= c);
        if c2 + 1 < c {
            vstd::arithmetic::power2::lemma_pow2_strictly_increases(c2 + 1, c);
        }
        assert(items_mask(d, n) < vstd::arithmetic::power2::pow2(c));
        assert(items_mask(s, n) == items_mask(d, n) + vstd::arithmetic::power2::pow2(c));
    }
}

proof fn lemma_mask_inj(s: Seq<ProdState>, t: Seq<ProdState>, n: nat)
    requires
        items_sorted(s),
        items_sorted(t),
        forall|a: int| 0 <= a < s.len() ==> (#[trigger] s[a]).rule_index < n,
        forall|a: int| 0 <= a < t.len() ==> (#[trigger] t[a]).rule_index < n,
        s != t,
    ensures
        items_mask(s, n) != items_mask(t, n),
    decreases s.len() + t.len(),
{
    if s.len() == 0 && t.len() == 0 {
        assert(s =~= t);
    } else if s.len() == 0 {
        lemma_mask_tight(t, n);
        lemma_code_nonneg(t.last(), n);
        vstd::arithmetic::power2::lemma_pow2_pos(item_code(t.last(), n) as nat);
    } else if t.len() == 0 {
        lemma_mask_tight(s, n);
        lemma_code_nonneg(s.last(), n);
        vstd::arithmetic::power2::lemma_pow2_pos(item_code(s.last(), n) as nat);
    } else {
        lemma_code_nonneg(s.last(), n);
        lemma_code_nonneg(t.last(), n);
        let cs = item_code(s.last(), n) as nat;
        let ct = item_code(t.last(), n) as nat;
        lemma_mask_tight(s, n);
        lemma_mask_tight(t, n);
        if cs < ct {
            if cs + 1 < ct {
                vstd::arithmetic::power2::lemma_pow2_strictly_increases(cs + 1, ct);
            }
            assert(items_mask(s, n) < vstd::arithmetic::power2::pow2(ct));
            assert(items_mask(t, n) >= vstd::arithmetic::power2::pow2(ct));
        } else if ct < cs {
            if ct + 1 < cs {
                vstd::arithmetic::power2::lemma_pow2_strictly_increases(ct + 1, cs);
            }
            assert(items_mask(t, n) < vstd::arithmetic::power2::pow2(cs));
            assert(items_mask(s, n) >= vstd::arithmetic::power2::pow2(cs));
        } else {
            lemma_item_code_inj(s.last(), t.last(), n);
            let ds = s.drop_last();
            let dt = t.drop_last();
            assert(ds != dt) by {
                if ds == dt {
                    assert forall|i: int| 0 <= i < s.len() implies s[i] == t[i] by {
                        if i < s.len() - 1 {
                            assert(s[i] == ds[i] && t[i] == dt[i]);
                        } else {
                            assert(s[i] == s.last() && t[i] == t.last());
                        }
                    }
                    assert(s =~= t);
                }
            }
            assert(forall|a: int| 0 <= a < ds.len() ==> #[trigger] ds[a] == s[a]);
            assert(forall|a: int| 0 <= a < dt.len() ==> #[trigger] dt[a] == t[a]);
            lemma_mask_inj(ds, dt, n);
            assert(items_mask(s, n) == items_mask(ds, n) + vstd::arithmetic::power2::pow2(cs));
            assert(items_mask(t, n) == items_mask(dt, n) + vstd::arithmetic::power2::pow2(ct));
        }
    }
}

/// Pairwise distinct canonical item sets over a grammar of `n` rules are at
/// most `2^((maxlen + 1) * n)` many.
proof fn lemma_states_capacity(rules: Seq<FlatRuleDef>, states: Seq<LrState>)
    requires
        forall|s: int|
            0 <= s < states.len() ==> items_sorted((#[trigger] states[s]).prods@)
                && items_in_bounds(rules, states[s].prods@),
        forall|s1: int, s2: int|
            0 <= s1 < s2 < states.len() ==> (#[trigger] states[s1]).prods@ != (
            #[trigger] states[s2]).prods@,
    ensures
        states.len() <= vstd::arithmetic::power2::pow2(
            ((max_prod_len(rules) + 1) * rules.len()) as nat,
        ),
{
    let n = rules.len() as nat;
    let u = ((max_prod_len(rules) + 1) * rules.len()) as nat;
    let p = vstd::arithmetic::power2::pow2(u) as int;
    let masks = Seq::new(states.len(), |s: int| items_mask(states[s].prods@, n) as int);
    assert forall|s: int| 0 <= s < states.len() implies 0 <= #[trigger] masks[s] < p by {
        let items = states[s].prods@;
        assert(forall|a: int|
            0 <= a < items.len() ==> (#[trigger] items[a]).rule_index < n || n == 0);
        if items.len() == 0 {
            vstd::arithmetic::power2::lemma_pow2_pos(u);
        } else {
            assert(n >= 1);
            lemma_mask_tight(items, n);
            let c = item_code(items.last(), n);
            assert(items.last().position <= rules[items.last().rule_index as int].prod@.len());
            lemma_max_prod_len(rules, items.last().rule_index as int);
            assert(items.last().position <= max_prod_len(rules));
            assert(c + 1 <= u) by (nonlinear_arith)
                requires
                    c == items.last().position * n + items.last().rule_index,
                    items.last().position <= max_prod_len(rules),
                    items.last().rule_index < n,
                    n == rules.len(),
                    u == (max_prod_len(rules) + 1) * rules.len(),
                    n >= 1;
            if ((c + 1) as nat) < u {
                vstd::arithmetic::power2::lemma_pow2_strictly_increases((c + 1) as nat, u);
            }
        }
    }
    assert(masks.no_duplicates()) by {
        assert forall|s1: int, s2: int|
            0 <= s1 < masks.len() && 0 <= s2 < masks.len() && s1 != s2 implies masks[s1]
            != masks[s2] by {
            if states.len() > 0 {
                let items1 = states[s1].prods@;
                let items2 = states[s2].prods@;
                assert(n >= 1 || (items1.len() == 0 && items2.len() == 0) || true);
                if items1 != items2 {
                    assert(forall|a: int|
                        0 <= a < items1.len() ==> (#[trigger] items1[a]).rule_index < n);
                    assert(forall|a: int|
                        0 <= a < items2.len() ==> (#[trigger] items2[a]).rule_index < n);
                    lemma_mask_inj(items1, items2, n);
                } else {
                    if s1 < s2 {
                        assert(false);
                    } else {
                        assert(false);
                    }
                }
            }
        }
    }
    masks.unique_seq_to_set();
    assert(p >= 1) by {
        vstd::arithmetic::power2::lemma_pow2_pos(u);
    }
    vstd::set_lib::lemma_int_range(0, p);
    assert(masks.to_set() <= vstd::set_lib::set_int_range(0, p)) by {
        assert forall|x: int|
            masks.to_set().contains(x) implies vstd::set_lib::set_int_range(0, p).contains(x) by {
            let s2 = choose|s2: int| 0 <= s2 < masks.len() && masks[s2] == x;
            assert(0 <= masks[s2] < p);
        }
    }
    vstd::set_lib::lemma_len_subset(masks.to_set(), vstd::set_lib::set_int_range(0, p));
}

/// Epsilon is exactly the symbol of rank 2.
proof fn lemma_rank_eps(y: FlatProd)
    ensures
        y.spec_is_eps() <==> y.rank() == 2,
{
    match y {
        FlatProd::Terminal(_) => {},
        FlatProd::NonTerminal(_) => {},
        FlatProd::Eps => {},
    }
}

/// Symbols equal under `sym_eq` sit before the same dots.
proof fn lemma_dot_sym_congr(rules: Seq<FlatRuleDef>, it: ProdState, y1: FlatProd, y2: FlatProd)
    requires
        sym_eq(y1, y2),
    ensures
        dot_sym_is(rules, it, y1) == dot_sym_is(rules, it, y2),
{
}

/// `is_goto_closure` depends on the edge symbol only through `sym_eq`.
proof fn lemma_goto_congr(
    rules: Seq<FlatRuleDef>,
    src: Seq<ProdState>,
    y1: FlatProd,
    y2: FlatProd,
    items: Seq<ProdState>,
)
    requires
        sym_eq(y1, y2),
        is_goto_closure(rules, src, y1, items),
    ensures
        is_goto_closure(rules, src, y2, items),
{
    assert forall|a: int|
        0 <= a < src.len() && dot_sym_is(rules, #[trigger] src[a], y2) implies items.contains(
        adv(src[a]),
    ) by {
        lemma_dot_sym_congr(rules, src[a], y1, y2);
    }
    assert forall|a: int|
        0 <= a < items.len() implies ((exists|c: int|
            0 <= c < src.len() && dot_sym_is(rules, #[trigger] src[c], y2) && items[a] == adv(
                src[c],
            )) || ((#[trigger] items[a]).position == 0 && exists|b: int|
            0 <= b < items.len() && expands_to(
                rules,
                #[trigger] items[b],
                items[a].rule_index as int,
            ))) by {
        if exists|c: int|
            0 <= c < src.len() && dot_sym_is(rules, #[trigger] src[c], y1) && items[a] == adv(
                src[c],
            ) {
            let c = choose|c: int|
                0 <= c < src.len() && dot_sym_is(rules, #[trigger] src[c], y1) && items[a] == adv(
                    src[c],
                );
            lemma_dot_sym_congr(rules, src[c], y1, y2);
        }
    }
}

/// The sorted list of symbols that occur right after a dot of `src`,
/// epsilon excluded.
fn collect_dot_syms(rules: &Vec<FlatRuleDef>, src: &Vec<ProdState>) -> (syms: Vec<FlatProd>)
    requires
        items_in_bounds(rules@, src@),
    ensures
        syms_strictly_sorted(syms@),
        forall|y: FlatProd|
            #![trigger mem_sym(syms@, y)]
            #![trigger y.spec_is_eps()]
            mem_sym(syms@, y) <==> (!y.spec_is_eps() && exists|a: int|
                0 <= a < src@.len() && dot_sym_is(rules@, #[trigger] src@[a], y)),
{
    let mut syms: Vec<FlatProd> = Vec::new();
    let mut a: usize = 0;
    while a < src.len()
        invariant
            items_in_bounds(rules@, src@),
            a <= src@.len(),
            syms_strictly_sorted(syms@),
            forall|y: FlatProd|
                #![trigger mem_sym(syms@, y)]
                #![trigger y.spec_is_eps()]
                mem_sym(syms@, y) <==> (!y.spec_is_eps() && exists|q: int|
                    0 <= q < a && dot_sym_is(rules@, #[trigger] src@[q], y)),
        decreases src@.len() - a,
    {
        let it = src[a];
        let ghost pre = syms@;
        if it.position < rules[it.rule_index].prod.len() {
            let symref = &rules[it.rule_index].prod[it.position];
            if !symref.is_eps() {
                sorted_insert_sym(&mut syms, symref);
                proof {
                    let ghost symv = rules@[it.rule_index as int].prod@[it.position as int];
                    assert(sym_eq(symv, symv));
                    assert(dot_sym_is(rules@, src@[a as int], symv));
                    lemma_rank_eps(symv);
                    assert forall|y: FlatProd|
                        mem_sym(syms@, y) <==> (!y.spec_is_eps() && exists|q: int|
                            0 <= q < a + 1 && dot_sym_is(rules@, #[trigger] src@[q], y)) by {
                        lemma_rank_eps(y);
                        assert(mem_sym(syms@, y) <==> (mem_sym(pre, y) || sym_eq(symv, y)));
                        if mem_sym(syms@, y) && !mem_sym(pre, y) {
                            assert(sym_eq(symv, y));
                            assert(dot_sym_is(rules@, src@[a as int], y));
                            assert(!y.spec_is_eps());
                        }
                        if mem_sym(pre, y) {
                            let q = choose|q: int|
                                0 <= q < a && dot_sym_is(rules@, #[trigger] src@[q], y);
                            assert(0 <= q < a + 1 && dot_sym_is(rules@, src@[q], y));
                        }
                        if !y.spec_is_eps() && exists|q: int|
                            0 <= q < a + 1 && dot_sym_is(rules@, #[trigger] src@[q], y) {
                            let q = choose|q: int|
                                0 <= q < a + 1 && dot_sym_is(rules@, #[trigger] src@[q], y);
                            if q < a {
                                assert(mem_sym(pre, y));
                            } else {
                                assert(sym_eq(symv, y));
                            }
                        }
                    }
                }
            } else {
                proof {
                    let ghost symv = rules@[it.rule_index as int].prod@[it.position as int];
                    lemma_rank_eps(symv);
                    assert forall|y: FlatProd|
                        mem_sym(syms@, y) <==> (!y.spec_is_eps() && exists|q: int|
                            0 <= q < a + 1 && dot_sym_is(rules@, #[trigger] src@[q], y)) by {
                        lemma_rank_eps(y);
                        if mem_sym(syms@, y) {
                            let q = choose|q: int|
                                0 <= q < a && dot_sym_is(rules@, #[trigger] src@[q], y);
                            assert(0 <= q < a + 1 && dot_sym_is(rules@, src@[q], y));
                        }
                        if !y.spec_is_eps() && exists|q: int|
                            0 <= q < a + 1 && dot_sym_is(rules@, #[trigger] src@[q], y) {
                            let q = choose|q: int|
                                0 <= q < a + 1 && dot_sym_is(rules@, #[trigger] src@[q], y);
                            if q == a {
                                assert(sym_eq(symv, y));
                                assert(y.rank() == 2);
                                assert(false);
                            } else {
                                assert(exists|q2: int|
                                    0 <= q2 < a && dot_sym_is(rules@, #[trigger] src@[q2], y));
                            }
                        }
                    }
                }
            }
        } else {
            proof {
                assert forall|y: FlatProd|
                    mem_sym(syms@, y) <==> (!y.spec_is_eps() && exists|q: int|
                        0 <= q < a + 1 && dot_sym_is(rules@, #[trigger] src@[q], y)) by {
                    if mem_sym(syms@, y) {
                        let q = choose|q: int|
                            0 <= q < a && dot_sym_is(rules@, #[trigger] src@[q], y);
                        assert(0 <= q < a + 1 && dot_sym_is(rules@, src@[q], y));
                    }
                    if !y.spec_is_eps() && exists|q: int|
                        0 <= q < a + 1 && dot_sym_is(rules@, #[trigger] src@[q], y) {
                        let q = choose|q: int|
                            0 <= q < a + 1 && dot_sym_is(rules@, #[trigger] src@[q], y);
                        if q == a {
                            assert(false);
                        } else {
                            assert(exists|q2: int|
                                0 <= q2 < a && dot_sym_is(rules@, #[trigger] src@[q2], y));
                        }
                    }
                }
            }
        }
        a = a + 1;
    }
    syms
}

/// The advanced dots of every item of `src` whose dot sits before `sym`.
fn goto_kernel(rules: &Vec<FlatRuleDef>, src: &Vec<ProdState>, sym: &FlatProd) -> (kernel: Vec<
    ProdState,
>)
    requires
        items_in_bounds(rules@, src@),
    ensures
        items_in_bounds(rules@, kernel@),
        forall|y: ProdState|
            kernel@.contains(y) <==> exists|a: int|
                0 <= a < src@.len() && dot_sym_is(rules@, #[trigger] src@[a], *sym) && y == adv(
                    src@[a],
                ),
{
    let mut kernel: Vec<ProdState> = Vec::new();
    let mut a: usize = 0;
    while a < src.len()
        invariant
            items_in_bounds(rules@, src@),
            items_in_bounds(rules@, kernel@),
            a <= src@.len(),
            forall|y: ProdState|
                kernel@.contains(y) <==> exists|q: int|
                    0 <= q < a && dot_sym_is(rules@, #[trigger] src@[q], *sym) && y == adv(
                        src@[q],
                    ),
        decreases src@.len() - a,
    {
        let it = src[a];
        let ghost pre = kernel@;
        if it.position < rules[it.rule_index].prod.len() {
            if crate::ast::flat_eq(&rules[it.rule_index].prod[it.position], sym) {
                kernel.push(ProdState { position: it.position + 1, rule_index: it.rule_index });
                proof {
                    assert(dot_sym_is(rules@, src@[a as int], *sym));
                    assert(kernel@.last() == adv(src@[a as int]));
                    assert(forall|k: int| 0 <= k < pre.len() ==> #[trigger] kernel@[k] == pre[k]);
                    assert(item_in_bounds(rules@, kernel@.last()));
                }
            }
        }
        proof {
            assert forall|y: ProdState|
                kernel@.contains(y) <==> exists|q: int|
                    0 <= q < a + 1 && dot_sym_is(rules@, #[trigger] src@[q], *sym) && y == adv(
                        src@[q],
                    ) by {
                if kernel@.contains(y) {
                    let k = choose|k: int| 0 <= k < kernel@.len() && kernel@[k] == y;
                    if k < pre.len() {
                        assert(pre.contains(y));
                        let q = choose|q: int|
                            0 <= q < a && dot_sym_is(rules@, #[trigger] src@[q], *sym) && y == adv(
                                src@[q],
                            );
                    } else {
                        assert(dot_sym_is(rules@, src@[a as int], *sym) && y == adv(
                            src@[a as int],
                        ));
                    }
                }
                if exists|q: int|
                    0 <= q < a + 1 && dot_sym_is(rules@, #[trigger] src@[q], *sym) && y == adv(
                        src@[q],
                    ) {
                    let q = choose|q: int|
                        0 <= q < a + 1 && dot_sym_is(rules@, #[trigger] src@[q], *sym) && y == adv(
                            src@[q],
                        );
                    if q < a {
                        assert(pre.contains(y));
                        assert(kernel@.contains(y)) by {
                            let k = choose|k: int| 0 <= k < pre.len() && pre[k] == y;
                            assert(kernel@[k] == y);
                        }
                    } else {
                        assert(kernel@.contains(y)) by {
                            assert(kernel@[kernel@.len() - 1] == y);
                        }
                    }
                }
            }
        }
        a = a + 1;
    }
    kernel
}

/// The closure of the goto kernel is the canonical goto state.
#[verifier::rlimit(60)]
proof fn lemma_goto_closure(
    rules: Seq<FlatRuleDef>,
    src: Seq<ProdState>,
    sym: FlatProd,
    kernel: Seq<ProdState>,
    items: Seq<ProdState>,
)
    requires
        forall|y: ProdState|
            kernel.contains(y) <==> exists|a: int|
                0 <= a < src.len() && dot_sym_is(rules, #[trigger] src[a], sym) && y == adv(
                    src[a],
                ),
        is_closure(rules, kernel, items),
    ensures
        is_goto_closure(rules, src, sym, items),
{
    assert forall|a: int|
        0 <= a < src.len() && dot_sym_is(rules, #[trigger] src[a], sym) implies items.contains(
        adv(src[a]),
    ) by {
        assert(kernel.contains(adv(src[a])));
        let k = choose|k: int| 0 <= k < kernel.len() && kernel[k] == adv(src[a]);
        assert(items.contains(kernel[k]));
    }
    assert forall|a: int|
        0 <= a < items.len() implies ((exists|c: int|
            0 <= c < src.len() && dot_sym_is(rules, #[trigger] src[c], sym) && items[a] == adv(
                src[c],
            )) || ((#[trigger] items[a]).position == 0 && exists|b: int|
            0 <= b < items.len() && expands_to(
                rules,
                #[trigger] items[b],
                items[a].rule_index as int,
            ))) by {
        if kernel.contains(items[a]) {
            let c = choose|c: int|
                0 <= c < src.len() && dot_sym_is(rules, #[trigger] src[c], sym) && items[a] == adv(
                    src[c],
                );
        }
    }
    assert forall|other: Set<ProdState>|
        #![trigger expansion_closed(rules, other)]
        expansion_closed(rules, other) && (forall|a: int|
            0 <= a < src.len() && dot_sym_is(rules, #[trigger] src[a], sym) ==> other.contains(
                adv(src[a]),
            )) implies forall|a: int|
        0 <= a < items.len() ==> other.contains(#[trigger] items[a]) by {
        assert forall|a: int| 0 <= a < kernel.len() implies other.contains(
            #[trigger] kernel[a],
        ) by {
            assert(kernel.contains(kernel[a]));
            let c = choose|c: int|
                0 <= c < src.len() && dot_sym_is(rules, #[trigger] src[c], sym) && kernel[a]
                    == adv(src[c]);
            assert(other.contains(adv(src[c])));
        }
        assert(forall|a: int| 0 <= a < items.len() ==> other.contains(#[trigger] items[a]));
    }
}

/// Find a state with exactly this item set.
fn find_state(states: &Vec<LrState>, t: &Vec<ProdState>) -> (r: Option<usize>)
    ensures
        match r {
            Some(i) => i < states@.len() && states@[i as int].prods@ == t@,
            None => forall|s: int| 0 <= s < states@.len() ==> (#[trigger] states@[s]).prods@ != t@,
        },
{
    let mut s: usize = 0;
    while s < states.len()
        invariant
            s <= states@.len(),
            forall|q: int| 0 <= q < s ==> (#[trigger] states@[q]).prods@ != t@,
        decreases states@.len() - s,
    {
        if items_eq(&states[s].prods, t) {
            return Some(s);
        }
        s = s + 1;
    }
    None
}

/// `state_edges_wf` carries over to any state list that keeps this state
/// and every item set it can reach.
proof fn lemma_edges_wf_transfer(
    rules: Seq<FlatRuleDef>,
    a: Seq<LrState>,
    b: Seq<LrState>,
    s: int,
)
    requires
        0 <= s < a.len(),
        a.len() <= b.len(),
        b[s] == a[s],
        forall|t: int| 0 <= t < a.len() ==> (#[trigger] b[t]).prods@ == a[t].prods@,
        state_edges_wf(rules, a, s),
    ensures
        state_edges_wf(rules, b, s),
{
    assert forall|e: int|
        0 <= e < b[s].edges@.len() implies (#[trigger] b[s].edges@[e]).1 < b.len()
            && is_goto_closure(
            rules,
            b[s].prods@,
            b[s].edges@[e].0,
            b[b[s].edges@[e].1 as int].prods@,
        ) by {
        assert(a[s].edges@[e].1 < a.len());
        let tgt = a[s].edges@[e].1 as int;
        assert(b[tgt].prods@ == a[tgt].prods@);
        assert(is_goto_closure(rules, a[s].prods@, a[s].edges@[e].0, a[tgt].prods@));
    }
    assert forall|e1: int, e2: int|
        0 <= e1 < e2 < b[s].edges@.len() implies sym_lt(
        (#[trigger] b[s].edges@[e1]).0,
        (#[trigger] b[s].edges@[e2]).0,
    ) by {
        assert(sym_lt((a[s].edges@[e1]).0, (a[s].edges@[e2]).0));
    }
    assert forall|e: int|
        0 <= e < b[s].edges@.len() implies !(#[trigger] b[s].edges@[e]).0.spec_is_eps()
            && exists|q: int|
            0 <= q < b[s].prods@.len() && dot_sym_is(
                rules,
                #[trigger] b[s].prods@[q],
                b[s].edges@[e].0,
            ) by {
        assert(!(a[s].edges@[e]).0.spec_is_eps());
        let q = choose|q: int|
            0 <= q < a[s].prods@.len() && dot_sym_is(
                rules,
                #[trigger] a[s].prods@[q],
                a[s].edges@[e].0,
            );
        assert(0 <= q < b[s].prods@.len() && dot_sym_is(rules, b[s].prods@[q], b[s].edges@[e].0));
    }
    assert forall|q: int|
        #![trigger b[s].prods@[q]]
        0 <= q < b[s].prods@.len() && b[s].prods@[q].rule_index < rules.len()
            && b[s].prods@[q].position
            < rules[b[s].prods@[q].rule_index as int].prod@.len() && !(
        rules[b[s].prods@[q].rule_index as int].prod@[b[s].prods@[q].position as int]
            matches FlatProd::Eps) implies exists|e: int|
        0 <= e < b[s].edges@.len() && sym_eq(
            (#[trigger] b[s].edges@[e]).0,
            rules[b[s].prods@[q].rule_index as int].prod@[b[s].prods@[q].position as int],
        ) by {
        assert(a[s].prods@[q] == b[s].prods@[q]);
        let e = choose|e: int|
            0 <= e < a[s].edges@.len() && sym_eq(
                (#[trigger] a[s].edges@[e]).0,
                rules[a[s].prods@[q].rule_index as int].prod@[a[s].prods@[q].position as int],
            );
        assert(0 <= e < b[s].edges@.len() && sym_eq(
            (b[s].edges@[e]).0,
            rules[b[s].prods@[q].rule_index as int].prod@[b[s].prods@[q].position as int],
        ));
    }
}

/// Build the LR(0) item-set automaton of a flat grammar.  State 0 is the
/// closure of the first item of rule 0; states are discovered breadth
/// first with successor symbols in sorted order, every state's item set is
/// canonical, and no two states share an item set.
#[verifier::rlimit(100)]
pub fn lr_graph(rules: &Vec<FlatRuleDef>) -> (g: LrGraph)
    requires
        rules@.len() >= 1,
    ensures
        graph_wf(rules@, g),
        strictly_sorted_names(g.terminals@),
        strictly_sorted_names(g.non_terminals@),
        forall|n: Seq<u8>| #![trigger mem_name(g.non_terminals@, n)] #![trigger defines(rules@, n)]
            mem_name(g.non_terminals@, n) <==> defines(rules@, n),
        forall|t: Seq<u8>| #![trigger mem_name(g.terminals@, t)] #![trigger occurs_as_term(rules@, t)]
            mem_name(g.terminals@, t) <==> (occurs_as_term(rules@, t) || t == hash_name()),
{
    let tab = classify(rules);
    let mut seed: Vec<ProdState> = Vec::new();
    seed.push(ProdState { position: 0, rule_index: 0 });
    proof {
        assert(seed@ =~= seq![item0(0)]);
        assert(items_in_bounds(rules@, seed@));
    }
    let init = closure(rules, seed);
    let mut states: Vec<LrState> = Vec::new();
    states.push(LrState { index: 0, prods: init, edges: Vec::new() });
    let ghost u = ((max_prod_len(rules@) + 1) * rules@.len()) as nat;
    let ghost mut creation: Seq<(int, int)> = seq![(-1int, -1int)];
    let mut done: usize = 0;
    while done < states.len()
        invariant
            rules@.len() >= 1,
            done <= states@.len(),
            states@.len() >= 1,
            forall|s: int| 0 <= s < states@.len() ==> (#[trigger] states@[s]).index == s,
            forall|s: int|
                0 <= s < states@.len() ==> items_sorted((#[trigger] states@[s]).prods@)
                    && items_in_bounds(rules@, states@[s].prods@),
            is_closure(rules@, seq![item0(0)], states@[0].prods@),
            forall|s1: int, s2: int|
                0 <= s1 < s2 < states@.len() ==> (#[trigger] states@[s1]).prods@ != (
                #[trigger] states@[s2]).prods@,
            forall|s: int| 0 <= s < done ==> state_edges_wf(rules@, states@, s),
            forall|s: int|
                done <= s < states@.len() ==> (#[trigger] states@[s]).edges@.len() == 0,
            u == ((max_prod_len(rules@) + 1) * rules@.len()) as nat,
            creation.len() == states@.len(),
            forall|s: int|
                1 <= s < states@.len() ==> edge_to(
                    states@,
                    (#[trigger] creation[s]).0,
                    creation[s].1,
                    s,
                ) && creation[s].0 < s && creation[s].0 < done,
            forall|s: int, q: int, f: int|
                #![trigger edge_to(states@, q, f, s)]
                1 <= s < states@.len() && edge_to(states@, q, f, s) ==> pair_le(
                    creation[s],
                    (q, f),
                ),
            forall|s1: int, s2: int|
                1 <= s1 < s2 < states@.len() ==> pair_lt(
                    (#[trigger] creation[s1]),
                    (#[trigger] creation[s2]),
                ),
        decreases vstd::arithmetic::power2::pow2(u) - done,
    {
        proof {
            lemma_states_capacity(rules@, states@);
        }
        let src = copy_items(&states[done].prods);
        let syms = collect_dot_syms(rules, &src);
        let mut edges: Vec<(FlatProd, usize)> = Vec::new();
        let mut e: usize = 0;
        let ghost done0 = done as int;
        while e < syms.len()
            invariant
                rules@.len() >= 1,
                done < states@.len(),
                done0 == done as int,
                states@.len() >= 1,
                e <= syms@.len(),
                src@ == states@[done0].prods@,
                items_in_bounds(rules@, src@),
                syms_strictly_sorted(syms@),
                forall|y: FlatProd|
                    #![trigger mem_sym(syms@, y)]
                    #![trigger y.spec_is_eps()]
                    mem_sym(syms@, y) <==> (!y.spec_is_eps() && exists|a: int|
                        0 <= a < src@.len() && dot_sym_is(rules@, #[trigger] src@[a], y)),
                forall|s: int| 0 <= s < states@.len() ==> (#[trigger] states@[s]).index == s,
                forall|s: int|
                    0 <= s < states@.len() ==> items_sorted((#[trigger] states@[s]).prods@)
                        && items_in_bounds(rules@, states@[s].prods@),
                is_closure(rules@, seq![item0(0)], states@[0].prods@),
                forall|s1: int, s2: int|
                    0 <= s1 < s2 < states@.len() ==> (#[trigger] states@[s1]).prods@ != (
                    #[trigger] states@[s2]).prods@,
                forall|s: int| 0 <= s < done0 ==> state_edges_wf(rules@, states@, s),
                forall|s: int|
                    done0 <= s < states@.len() ==> (#[trigger] states@[s]).edges@.len() == 0,
                edges@.len() == e,
                forall|q: int|
                    0 <= q < e ==> sym_eq((#[trigger] edges@[q]).0, syms@[q]),
                forall|q: int|
                    0 <= q < e ==> (#[trigger] edges@[q]).1 < states@.len() && is_goto_closure(
                        rules@,
                        src@,
                        edges@[q].0,
                        states@[edges@[q].1 as int].prods@,
                    ),
                creation.len() == states@.len(),
                forall|s: int|
                    1 <= s < states@.len() ==> (#[trigger] creation[s]).0 < s && ((creation[s].0
                        < done0 && edge_to(states@, creation[s].0, creation[s].1, s)) || (
                    creation[s].0 == done0 && 0 <= creation[s].1 < e && edges@[creation[s].1].1
                        == s)),
                forall|s: int, q: int, f: int|
                    #![trigger edge_to(states@, q, f, s)]
                    1 <= s < states@.len() && edge_to(states@, q, f, s) ==> pair_le(
                        creation[s],
                        (q, f),
                    ),
                forall|s: int, f: int|
                    #![trigger edges@[f], creation[s]]
                    1 <= s < states@.len() && 0 <= f < e && edges@[f].1 == s ==> pair_le(
                        creation[s],
                        (done0, f),
                    ),
                forall|s1: int, s2: int|
                    1 <= s1 < s2 < states@.len() ==> pair_lt(
                        (#[trigger] creation[s1]),
                        (#[trigger] creation[s2]),
                    ),
            decreases syms@.len() - e,
        {
            let kernel = goto_kernel(rules, &src, &syms[e]);
            let t = closure(rules, kernel);
            proof {
                lemma_goto_closure(rules@, src@, syms@[e as int], kernel@, t@);
            }
            let found = find_state(&states, &t);
            let sym_copy = copy_flat(&syms[e]);
            let ghost symv = sym_copy;
            match found {
                Some(idx) => {
                    edges.push((sym_copy, idx));
                    proof {
                        lemma_goto_congr(rules@, src@, syms@[e as int], symv, t@);
                        assert(edges@.last().1 == idx);
                        assert(states@[idx as int].prods@ == t@);
                        assert(forall|q: int|
                            0 <= q < e ==> #[trigger] edges@[q] == edges@.take(e as int)[q]);
                        assert forall|s: int, f: int|
                            #![trigger edges@[f], creation[s]]
                            1 <= s < states@.len() && 0 <= f < e + 1 && edges@[f].1 == s
                                implies pair_le(creation[s], (done0, f)) by {
                            if f == e {
                                assert(s == idx as int);
                                if creation[s].0 == done0 {
                                    assert(creation[s].1 < e);
                                }
                            }
                        }
                    }
                },
                None => {
                    let idx = states.len();
                    let ghost pre_states = states@;
                    let ghost pre_creation = creation;
                    let st = LrState { index: idx, prods: t, edges: Vec::new() };
                    let ghost stg = st;
                    states.push(st);
                    edges.push((sym_copy, idx));
                    proof {
                        creation = creation.push((done0, e as int));
                        assert(states@ == pre_states.push(stg));
                        assert(forall|s: int|
                            0 <= s < pre_states.len() ==> #[trigger] states@[s] == pre_states[s]);
                        assert(states@[idx as int] == stg);
                        lemma_goto_congr(rules@, src@, syms@[e as int], symv, t@);
                        assert forall|s: int| 0 <= s < done0 implies state_edges_wf(
                            rules@,
                            states@,
                            s,
                        ) by {
                            lemma_edges_wf_transfer(rules@, pre_states, states@, s);
                        }
                        assert forall|q: int|
                            0 <= q < e + 1 implies (#[trigger] edges@[q]).1 < states@.len()
                                && is_goto_closure(
                                rules@,
                                src@,
                                edges@[q].0,
                                states@[edges@[q].1 as int].prods@,
                            ) by {
                            if q < e {
                                assert(edges@[q] == edges@.take(e as int)[q]);
                                assert(states@[edges@[q].1 as int] == pre_states[edges@[q].1 as int]);
                            } else {
                                assert(edges@[q].1 == idx);
                                assert(states@[idx as int].prods@ == t@);
                            }
                        }
                        assert(forall|q: int|
                            0 <= q < e ==> #[trigger] edges@[q] == edges@.take(e as int)[q]);
                        assert(forall|s: int|
                            0 <= s < pre_creation.len() ==> #[trigger] creation[s]
                                == pre_creation[s]);
                        assert(creation[idx as int] == (done0, e as int));
                        assert forall|s: int, q: int, f: int|
                            #![trigger edge_to(states@, q, f, s)]
                            1 <= s < states@.len() && edge_to(states@, q, f, s) implies pair_le(
                            creation[s],
                            (q, f),
                        ) by {
                            assert(states@[q].edges@ == pre_states[q].edges@);
                            assert(edge_to(pre_states, q, f, s));
                            if s < idx as int {
                                assert(creation[s] == pre_creation[s]);
                            } else {
                                if q < done0 {
                                    assert(state_edges_wf(rules@, pre_states, q));
                                    assert(pre_states[q].edges@[f].1 < pre_states.len());
                                } else {
                                    assert(pre_states[q].edges@.len() == 0);
                                }
                                assert(false);
                            }
                        }
                        assert forall|s: int, f: int|
                            #![trigger edges@[f], creation[s]]
                            1 <= s < states@.len() && 0 <= f < e + 1 && edges@[f].1 == s
                                implies pair_le(creation[s], (done0, f)) by {
                            if f == e {
                                assert(s == idx as int);
                            } else {
                                assert(s < idx as int);
                                assert(creation[s] == pre_creation[s]);
                            }
                        }
                        assert forall|s1: int, s2: int|
                            1 <= s1 < s2 < states@.len() implies pair_lt(
                            (#[trigger] creation[s1]),
                            (#[trigger] creation[s2]),
                        ) by {
                            if s2 == idx as int {
                                if creation[s1].0 == done0 {
                                    assert(creation[s1].1 < e);
                                }
                            }
                        }
                    }
                },
            }
            e = e + 1;
        }
        let ghost pre_states = states@;
        let ghost edgesv = edges@;
        let mut st = states.remove(done);
        st.edges = edges;
        let ghost stg = st;
        states.insert(done, st);
        proof {
            assert(states@ =~= pre_states.update(done as int, stg));
            assert(forall|s: int|
                0 <= s < states@.len() && s != done as int ==> #[trigger] states@[s]
                    == pre_states[s]);
            assert(states@[done as int] == stg);
            assert(stg.prods@ == pre_states[done as int].prods@);
            assert(stg.prods@ == src@);
            assert forall|s: int| 0 <= s < done as int implies state_edges_wf(
                rules@,
                states@,
                s,
            ) by {
                lemma_edges_wf_transfer(rules@, pre_states, states@, s);
            }
            assert forall|s: int|
                1 <= s < states@.len() implies edge_to(
                states@,
                (#[trigger] creation[s]).0,
                creation[s].1,
                s,
            ) && creation[s].0 < s && creation[s].0 < done + 1 by {
                if creation[s].0 == done as int {
                    assert(edgesv[creation[s].1].1 == s);
                    assert(states@[done as int].edges@ == edgesv);
                } else {
                    assert(states@[creation[s].0] == pre_states[creation[s].0]);
                }
            }
            assert forall|s: int, q: int, f: int|
                #![trigger edge_to(states@, q, f, s)]
                1 <= s < states@.len() && edge_to(states@, q, f, s) implies pair_le(
                creation[s],
                (q, f),
            ) by {
                if q == done as int {
                    assert(states@[done as int].edges@ == edgesv);
                    assert(edgesv[f].1 == s);
                } else {
                    assert(states@[q] == pre_states[q]);
                    assert(edge_to(pre_states, q, f, s));
                }
            }
            assert(state_edges_wf(rules@, states@, done as int)) by {
                assert forall|q: int|
                    0 <= q < stg.edges@.len() implies (#[trigger] stg.edges@[q]).1
                        < states@.len() && is_goto_closure(
                        rules@,
                        states@[done as int].prods@,
                        stg.edges@[q].0,
                        states@[stg.edges@[q].1 as int].prods@,
                    ) by {
                    assert(stg.edges@[q] == edgesv[q]);
                    assert(edgesv[q].1 < pre_states.len());
                    assert(states@[edgesv[q].1 as int].prods@ == pre_states[edgesv[q].1 as int].prods@);
                }
                assert forall|e1: int, e2: int|
                    0 <= e1 < e2 < stg.edges@.len() implies sym_lt(
                    (#[trigger] stg.edges@[e1]).0,
                    (#[trigger] stg.edges@[e2]).0,
                ) by {
                    assert(sym_eq(edgesv[e1].0, syms@[e1]));
                    assert(sym_eq(edgesv[e2].0, syms@[e2]));
                    assert(sym_lt(syms@[e1], syms@[e2]));
                    lemma_sym_lteq(syms@[e1], syms@[e2], edgesv[e1].0);
                    lemma_sym_eqlt(edgesv[e1].0, syms@[e2], edgesv[e2].0);
                }
                assert forall|q: int|
                    #![trigger stg.prods@[q]]
                    0 <= q < stg.prods@.len() && stg.prods@[q].rule_index < rules@.len()
                        && stg.prods@[q].position
                        < rules@[stg.prods@[q].rule_index as int].prod@.len() && !(
                    rules@[stg.prods@[q].rule_index as int].prod@[stg.prods@[q].position as int]
                        matches FlatProd::Eps) implies exists|e: int|
                    0 <= e < stg.edges@.len() && sym_eq(
                        (#[trigger] stg.edges@[e]).0,
                        rules@[stg.prods@[q].rule_index as int].prod@[stg.prods@[q].position as int],
                    ) by {
                    let ghost y =
                        rules@[stg.prods@[q].rule_index as int].prod@[stg.prods@[q].position as int];
                    assert(stg.prods@ == src@);
                    assert(sym_eq(y, y));
                    assert(dot_sym_is(rules@, src@[q], y));
                    lemma_rank_eps(y);
                    assert(mem_sym(syms@, y));
                    let w = choose|w: int| 0 <= w < syms@.len() && sym_eq(#[trigger] syms@[w], y);
                    assert(sym_eq(edgesv[w].0, syms@[w]));
                    assert(sym_eq(stg.edges@[w].0, y));
                }
                assert forall|e2: int|
                    0 <= e2 < stg.edges@.len() implies !(#[trigger] stg.edges@[e2]).0.spec_is_eps()
                        && exists|q: int|
                        0 <= q < stg.prods@.len() && dot_sym_is(
                            rules@,
                            #[trigger] stg.prods@[q],
                            stg.edges@[e2].0,
                        ) by {
                    assert(sym_eq(edgesv[e2].0, syms@[e2]));
                    assert(sym_eq(syms@[e2], syms@[e2]));
                    assert(mem_sym(syms@, syms@[e2]));
                    assert(!syms@[e2].spec_is_eps());
                    lemma_rank_eps(syms@[e2]);
                    lemma_rank_eps(stg.edges@[e2].0);
                    assert(!stg.edges@[e2].0.spec_is_eps());
                    let q = choose|q: int|
                        0 <= q < src@.len() && dot_sym_is(rules@, #[trigger] src@[q], syms@[e2]);
                    lemma_dot_sym_congr(rules@, src@[q], syms@[e2], stg.edges@[e2].0);
                    assert(stg.prods@ == src@);
                    assert(dot_sym_is(rules@, stg.prods@[q], stg.edges@[e2].0));
                }
            }
        }
        done = done + 1;
    }
    LrGraph { states, terminals: tab.terms, non_terminals: tab.nonterms, discovery: Ghost(creation) }
}

/// One parse action.  A cell holding more than one action is a conflict;
/// conflicts are preserved, never resolved.
#[derive(Clone, Copy, PartialEq, Eq, Structural)]
pub enum LrAction {
    Shift(usize),
    Reduce(usize),
    Accept,
}

/// One table row: per terminal column the list of actions, per nonterminal
/// column the goto target.
pub struct LrTableEntry {
    pub actions: Vec<Vec<LrAction>>,
    pub goto_row: Vec<Option<usize>>,
}

/// An action/goto table with its column alphabets (terminals first, then
/// nonterminals, both strictly sorted).
pub struct LrTable {
    pub rows: Vec<LrTableEntry>,
    pub terminals: Vec<Vec<u8>>,
    pub non_terminals: Vec<Vec<u8>>,
}

/// The item's dot has passed every symbol of its rule; a rule whose only
/// symbol is epsilon is complete wherever its dot rests.
pub open spec fn item_completed(rules: Seq<FlatRuleDef>, it: ProdState) -> bool {
    it.rule_index < rules.len() && (it.position == rules[it.rule_index as int].prod@.len() || (
    rules[it.rule_index as int].prod@.len() == 1
        && rules[it.rule_index as int].prod@[0] matches FlatProd::Eps))
}

/// State `s` of the automaton carries a completed item of rule `r`.
pub open spec fn has_completed(rules: Seq<FlatRuleDef>, items: Seq<ProdState>, r: int) -> bool {
    exists|a: int|
        0 <= a < items.len() && (#[trigger] items[a]).rule_index == r && item_completed(
            rules,
            items[a],
        )
}

/// The action `act` belongs in the cell of state `s` and terminal column
/// `j`: a shift along a matching terminal edge, a reduce of a completed
/// non-start rule (for LR(0) on every terminal, for SLR(1) only on FOLLOW
/// of its left-hand side), or accept on `#` when rule 0 is complete.
pub open spec fn action_fits(
    rules: Seq<FlatRuleDef>,
    g: LrGraph,
    slr: bool,
    follow: TermSet,
    s: int,
    j: int,
    act: LrAction,
) -> bool {
    match act {
        LrAction::Shift(tgt) => exists|e: int|
            0 <= e < g.states@[s].edges@.len() && (#[trigger] g.states@[s].edges@[e]).0.spec_name()
                == g.terminals@[j]@ && !defines(rules, g.terminals@[j]@) && g.states@[s].edges@[e].1
                == tgt,
        LrAction::Reduce(r) => 1 <= r < rules.len() && has_completed(
            rules,
            g.states@[s].prods@,
            r as int,
        ) && (slr ==> follow.has(rules[r as int].name@, g.terminals@[j]@)),
        LrAction::Accept => g.terminals@[j]@ == hash_name() && has_completed(
            rules,
            g.states@[s].prods@,
            0,
        ),
    }
}

/// The shift actions contributed by the first `e` edges of state `s` to
/// the cell of terminal column `j`, in edge order.
pub open spec fn shifts_upto(rules: Seq<FlatRuleDef>, g: LrGraph, s: int, j: int, e: int) -> Seq<
    LrAction,
>
    decreases e,
{
    if e <= 0 {
        Seq::empty()
    } else {
        shifts_upto(rules, g, s, j, e - 1) + (if g.states@[s].edges@[e - 1].0.spec_name()
            == g.terminals@[j]@ && !defines(rules, g.terminals@[j]@) {
            seq![LrAction::Shift(g.states@[s].edges@[e - 1].1)]
        } else {
            Seq::empty()
        })
    }
}

/// The reduce and accept actions contributed by the first `a` items of
/// state `s` to the cell of terminal column `j`, in item order.
pub open spec fn reduces_upto(
    rules: Seq<FlatRuleDef>,
    g: LrGraph,
    slr: bool,
    follow: TermSet,
    s: int,
    j: int,
    a: int,
) -> Seq<LrAction>
    decreases a,
{
    if a <= 0 {
        Seq::empty()
    } else {
        reduces_upto(rules, g, slr, follow, s, j, a - 1) + (if item_completed(
            rules,
            g.states@[s].prods@[a - 1],
        ) {
            if g.states@[s].prods@[a - 1].rule_index == 0 {
                if g.terminals@[j]@ == hash_name() {
                    seq![LrAction::Accept]
                } else {
                    Seq::empty()
                }
            } else {
                if !slr || follow.has(
                    rules[g.states@[s].prods@[a - 1].rule_index as int].name@,
                    g.terminals@[j]@,
                ) {
                    seq![LrAction::Reduce(g.states@[s].prods@[a - 1].rule_index)]
                } else {
                    Seq::empty()
                }
            }
        } else {
            Seq::empty()
        })
    }
}

/// The exact contents of one action cell: the shifts in edge order, then
/// the reduces and accept in item order.
pub open spec fn cell_list_model(
    rules: Seq<FlatRuleDef>,
    g: LrGraph,
    slr: bool,
    follow: TermSet,
    s: int,
    j: int,
) -> Seq<LrAction> {
    shifts_upto(rules, g, s, j, g.states@[s].edges@.len() as int) + reduces_upto(
        rules,
        g,
        slr,
        follow,
        s,
        j,
        g.states@[s].prods@.len() as int,
    )
}

/// The whole table is exact: a cell carries an action if and only if the
/// action fits there — and the cell's list is exactly the shifts in edge
/// order followed by the reduces and accept in item order — and a goto
/// column is filled if and only if an edge labelled with that nonterminal
/// leaves the state.
pub open spec fn table_exact(
    rules: Seq<FlatRuleDef>,
    g: LrGraph,
    slr: bool,
    follow: TermSet,
    t: LrTable,
) -> bool {
    &&& t.rows@.len() == g.states@.len()
    &&& t.terminals@.len() == g.terminals@.len()
    &&& t.non_terminals@.len() == g.non_terminals@.len()
    &&& forall|j: int|
        0 <= j < t.terminals@.len() ==> (#[trigger] t.terminals@[j])@ == g.terminals@[j]@
    &&& forall|m: int|
        0 <= m < t.non_terminals@.len() ==> (#[trigger] t.non_terminals@[m])@
            == g.non_terminals@[m]@
    &&& forall|s: int|
        0 <= s < t.rows@.len() ==> (#[trigger] t.rows@[s]).actions@.len() == g.terminals@.len()
            && t.rows@[s].goto_row@.len() == g.non_terminals@.len()
    &&& forall|s: int, j: int, act: LrAction|
        #![trigger t.rows@[s].actions@[j]@.contains(act)]
        0 <= s < t.rows@.len() && 0 <= j < g.terminals@.len() ==> (t.rows@[s].actions@[j]@.contains(
            act,
        ) <==> action_fits(rules, g, slr, follow, s, j, act))
    &&& forall|s: int, j: int|
        #![trigger t.rows@[s].actions@[j]]
        0 <= s < t.rows@.len() && 0 <= j < g.terminals@.len() ==> t.rows@[s].actions@[j]@
            == cell_list_model(rules, g, slr, follow, s, j)
    &&& forall|s: int, j: int, k1: int, k2: int|
        #![trigger t.rows@[s].actions@[j]@[k1], t.rows@[s].actions@[j]@[k2]]
        0 <= s < t.rows@.len() && 0 <= j < g.terminals@.len() && 0 <= k1 < k2
            < t.rows@[s].actions@[j]@.len() && !(t.rows@[s].actions@[j]@[k1]
            matches LrAction::Shift(_)) ==> !(t.rows@[s].actions@[j]@[k2]
            matches LrAction::Shift(_))
    &&& forall|s: int, m: int|
        #![trigger t.rows@[s].goto_row@[m]]
        0 <= s < t.rows@.len() && 0 <= m < g.non_terminals@.len() ==> match t.rows@[s].goto_row@[m] {
            Some(tgt) => exists|e: int|
                0 <= e < g.states@[s].edges@.len() && (#[trigger] g.states@[s].edges@[e]).0.spec_name()
                    == g.non_terminals@[m]@ && g.states@[s].edges@[e].1 == tgt,
            None => forall|e: int|
                0 <= e < g.states@[s].edges@.len() ==> (#[trigger] g.states@[s].edges@[e]).0.spec_name()
                    != g.non_terminals@[m]@,
        }
}

/// Decide `defines(rules, x)`.
fn name_defined(rules: &Vec<FlatRuleDef>, x: &Vec<u8>) -> (res: bool)
    ensures
        res == defines(rules@, x@),
{
    let mut r: usize = 0;
    while r < rules.len()
        invariant
            r <= rules@.len(),
            forall|q: int| 0 <= q < r ==> (#[trigger] rules@[q]).name@ != x@,
        decreases rules@.len() - r,
    {
        if crate::bytes::bytes_eq(&rules[r].name, x) {
            return true;
        }
        r = r + 1;
    }
    false
}

/// Build one action cell.
fn build_cell(
    rules: &Vec<FlatRuleDef>,
    g: &LrGraph,
    slr: bool,
    follow: &TermSet,
    s: usize,
    j: usize,
) -> (cell: Vec<LrAction>)
    requires
        s < g.states@.len(),
        j < g.terminals@.len(),
        items_in_bounds(rules@, g.states@[s as int].prods@),
        follow.wf(),
    ensures
        forall|act: LrAction|
            cell@.contains(act) <==> action_fits(rules@, *g, slr, *follow, s as int, j as int, act),
        forall|k1: int, k2: int|
            #![trigger cell@[k1], cell@[k2]]
            0 <= k1 < k2 < cell@.len() && !(cell@[k1] matches LrAction::Shift(_)) ==> !(cell@[k2]
                matches LrAction::Shift(_)),
        cell@ == cell_list_model(rules@, *g, slr, *follow, s as int, j as int),
{
    let mut cell: Vec<LrAction> = Vec::new();
    let col = &g.terminals[j];
    let col_defined = name_defined(rules, col);
    let mut e: usize = 0;
    while e < g.states[s].edges.len()
        invariant
            s < g.states@.len(),
            j < g.terminals@.len(),
            col == &g.terminals[j as int],
            col_defined == defines(rules@, g.terminals@[j as int]@),
            e <= g.states@[s as int].edges@.len(),
            forall|act: LrAction|
                cell@.contains(act) <==> (act matches LrAction::Shift(tgt) && exists|q: int|
                    0 <= q < e && (#[trigger] g.states@[s as int].edges@[q]).0.spec_name()
                        == g.terminals@[j as int]@ && !defines(rules@, g.terminals@[j as int]@)
                        && g.states@[s as int].edges@[q].1 == tgt),
            forall|k: int| 0 <= k < cell@.len() ==> (#[trigger] cell@[k]) matches LrAction::Shift(_),
            cell@ == shifts_upto(rules@, *g, s as int, j as int, e as int),
        decreases g.states@[s as int].edges@.len() - e,
    {
        let ghost pre = cell@;
        let name = g.states[s].edges[e].0.name();
        if !col_defined && crate::bytes::bytes_eq(&name, col) {
            cell.push(LrAction::Shift(g.states[s].edges[e].1));
            proof {
                assert(forall|k: int| 0 <= k < pre.len() ==> #[trigger] cell@[k] == pre[k]);
                assert(cell@.last() == LrAction::Shift(g.states@[s as int].edges@[e as int].1));
            }
        }
        proof {
            assert(cell@ =~= shifts_upto(rules@, *g, s as int, j as int, e + 1));
        }
        proof {
            assert forall|act: LrAction|
                cell@.contains(act) <==> (act matches LrAction::Shift(tgt) && exists|q: int|
                    0 <= q < e + 1 && (#[trigger] g.states@[s as int].edges@[q]).0.spec_name()
                        == g.terminals@[j as int]@ && !defines(rules@, g.terminals@[j as int]@)
                        && g.states@[s as int].edges@[q].1 == tgt) by {
                if cell@.contains(act) {
                    let k = choose|k: int| 0 <= k < cell@.len() && cell@[k] == act;
                    if k < pre.len() {
                        assert(pre.contains(act)) by {
                            assert(pre[k] == act);
                        }
                    }
                }
                match act {
                    LrAction::Shift(tgt) => {
                        if exists|q: int|
                            0 <= q < e + 1 && (
                            #[trigger] g.states@[s as int].edges@[q]).0.spec_name()
                                == g.terminals@[j as int]@ && !defines(
                                rules@,
                                g.terminals@[j as int]@,
                            ) && g.states@[s as int].edges@[q].1 == tgt {
                            let q = choose|q: int|
                                0 <= q < e + 1 && (
                                #[trigger] g.states@[s as int].edges@[q]).0.spec_name()
                                    == g.terminals@[j as int]@ && !defines(
                                    rules@,
                                    g.terminals@[j as int]@,
                                ) && g.states@[s as int].edges@[q].1 == tgt;
                            if q < e {
                                assert(pre.contains(act));
                                let k = choose|k: int| 0 <= k < pre.len() && pre[k] == act;
                                assert(cell@[k] == act);
                            } else {
                                assert(cell@.last() == act);
                            }
                        }
                    },
                    _ => {},
                }
            }
        }
        e = e + 1;
    }
    let is_hash = col.len() == 1 && col[0] == 35;
    proof {
        if is_hash {
            assert(g.terminals@[j as int]@ =~= hash_name());
        } else {
            assert(g.terminals@[j as int]@ != hash_name());
        }
    }
    let mut a: usize = 0;
    while a < g.states[s].prods.len()
        invariant
            s < g.states@.len(),
            j < g.terminals@.len(),
            follow.wf(),
            items_in_bounds(rules@, g.states@[s as int].prods@),
            is_hash == (g.terminals@[j as int]@ == hash_name()),
            a <= g.states@[s as int].prods@.len(),
            forall|k1: int, k2: int|
                #![trigger cell@[k1], cell@[k2]]
                0 <= k1 < k2 < cell@.len() && !(cell@[k1] matches LrAction::Shift(_)) ==> !(
                cell@[k2] matches LrAction::Shift(_)),
            cell@ == shifts_upto(
                rules@,
                *g,
                s as int,
                j as int,
                g.states@[s as int].edges@.len() as int,
            ) + reduces_upto(rules@, *g, slr, *follow, s as int, j as int, a as int),
            forall|act: LrAction|
                cell@.contains(act) <==> (action_fits(
                    rules@,
                    *g,
                    slr,
                    *follow,
                    s as int,
                    j as int,
                    act,
                ) && (act matches LrAction::Shift(t2) || (act matches LrAction::Reduce(r) && exists|
                    q: int,
                |
                    0 <= q < a && (#[trigger] g.states@[s as int].prods@[q]).rule_index == r
                        && item_completed(rules@, g.states@[s as int].prods@[q]))
                    || (act matches LrAction::Accept && exists|q: int|
                    0 <= q < a && (#[trigger] g.states@[s as int].prods@[q]).rule_index == 0
                        && item_completed(rules@, g.states@[s as int].prods@[q])))),
        decreases g.states@[s as int].prods@.len() - a,
    {
        let it = g.states[s].prods[a];
        let ghost pre = cell@;
        let mut pushed = false;
        let rl = rules[it.rule_index].prod.len();
        let completed = it.position == rl || (rl == 1 && rules[it.rule_index].prod[0].is_eps());
        proof {
            assert(completed == item_completed(rules@, it));
        }
        if completed {
            if it.rule_index == 0 {
                if is_hash {
                    cell.push(LrAction::Accept);
                    pushed = true;
                }
            } else {
                let wanted = if slr {
                    ts_has_exec(follow, &rules[it.rule_index].name, &g.terminals[j])
                } else {
                    true
                };
                if wanted {
                    cell.push(LrAction::Reduce(it.rule_index));
                    pushed = true;
                }
            }
        }
        proof {
            assert(cell@ =~= shifts_upto(
                rules@,
                *g,
                s as int,
                j as int,
                g.states@[s as int].edges@.len() as int,
            ) + reduces_upto(rules@, *g, slr, *follow, s as int, j as int, a + 1));
            if pushed {
                assert(forall|k: int| 0 <= k < pre.len() ==> #[trigger] cell@[k] == pre[k]);
                assert(!(cell@.last() matches LrAction::Shift(_)));
                assert forall|k1: int, k2: int|
                    #![trigger cell@[k1], cell@[k2]]
                    0 <= k1 < k2 < cell@.len() && !(cell@[k1] matches LrAction::Shift(_))
                        implies !(cell@[k2] matches LrAction::Shift(_)) by {
                    if k2 < pre.len() {
                        assert(cell@[k1] == pre[k1] && cell@[k2] == pre[k2]);
                    }
                }
            }
            assert forall|act: LrAction|
                cell@.contains(act) <==> (action_fits(
                    rules@,
                    *g,
                    slr,
                    *follow,
                    s as int,
                    j as int,
                    act,
                ) && (act matches LrAction::Shift(t2) || (act matches LrAction::Reduce(r) && exists|
                    q: int,
                |
                    0 <= q < a + 1 && (#[trigger] g.states@[s as int].prods@[q]).rule_index == r
                        && item_completed(rules@, g.states@[s as int].prods@[q]))
                    || (act matches LrAction::Accept && exists|q: int|
                    0 <= q < a + 1 && (#[trigger] g.states@[s as int].prods@[q]).rule_index == 0
                        && item_completed(rules@, g.states@[s as int].prods@[q])))) by {
                if cell@.contains(act) {
                    let k = choose|k: int| 0 <= k < cell@.len() && cell@[k] == act;
                    if k < pre.len() {
                        assert(pre.contains(act)) by {
                            assert(pre[k] == act);
                        }
                    } else {
                        assert(act == cell@.last());
                        assert(g.states@[s as int].prods@[a as int].rule_index == it.rule_index);
                    }
                }
                if !cell@.contains(act) && pre.contains(act) {
                    let k = choose|k: int| 0 <= k < pre.len() && pre[k] == act;
                    assert(cell@[k] == act);
                    assert(false);
                }
                if action_fits(rules@, *g, slr, *follow, s as int, j as int, act) {
                    match act {
                        LrAction::Reduce(r) => {
                            if exists|q: int|
                                0 <= q < a + 1 && (#[trigger] g.states@[s as int].prods@[q]).rule_index
                                    == r && item_completed(
                                    rules@,
                                    g.states@[s as int].prods@[q],
                                ) {
                                let q = choose|q: int|
                                    0 <= q < a + 1 && (#[trigger] g.states@[s as int].prods@[q]).rule_index
                                        == r && item_completed(
                                        rules@,
                                        g.states@[s as int].prods@[q],
                                    );
                                if q < a {
                                    assert(pre.contains(act));
                                    let k = choose|k: int| 0 <= k < pre.len() && pre[k] == act;
                                    assert(cell@[k] == act);
                                } else {
                                    assert(it == g.states@[s as int].prods@[a as int]);
                                    assert(cell@.last() == act);
                                }
                            }
                        },
                        LrAction::Accept => {
                            if exists|q: int|
                                0 <= q < a + 1 && (#[trigger] g.states@[s as int].prods@[q]).rule_index
                                    == 0 && item_completed(
                                    rules@,
                                    g.states@[s as int].prods@[q],
                                ) {
                                let q = choose|q: int|
                                    0 <= q < a + 1 && (#[trigger] g.states@[s as int].prods@[q]).rule_index
                                        == 0 && item_completed(
                                        rules@,
                                        g.states@[s as int].prods@[q],
                                    );
                                if q < a {
                                    assert(pre.contains(act));
                                    let k = choose|k: int| 0 <= k < pre.len() && pre[k] == act;
                                    assert(cell@[k] == act);
                                } else {
                                    assert(cell@.last() == act);
                                }
                            }
                        },
                        LrAction::Shift(t2) => {},
                    }
                }
            }
        }
        a = a + 1;
    }
    proof {
        assert forall|act: LrAction|
            cell@.contains(act) <==> action_fits(
            rules@,
            *g,
            slr,
            *follow,
            s as int,
            j as int,
            act,
        ) by {
            if action_fits(rules@, *g, slr, *follow, s as int, j as int, act) {
                match act {
                    LrAction::Reduce(r) => {
                        assert(has_completed(rules@, g.states@[s as int].prods@, r as int));
                    },
                    LrAction::Accept => {
                        assert(has_completed(rules@, g.states@[s as int].prods@, 0));
                    },
                    LrAction::Shift(t2) => {},
                }
            }
        }
    }
    cell
}

/// Build one goto row.
fn build_goto(rules: &Vec<FlatRuleDef>, g: &LrGraph, s: usize) -> (row: Vec<Option<usize>>)
    requires
        s < g.states@.len(),
    ensures
        row@.len() == g.non_terminals@.len(),
        forall|m: int|
            0 <= m < g.non_terminals@.len() ==> match #[trigger] row@[m] {
                Some(tgt) => exists|e: int|
                    0 <= e < g.states@[s as int].edges@.len() && (
                    #[trigger] g.states@[s as int].edges@[e]).0.spec_name()
                        == g.non_terminals@[m]@ && g.states@[s as int].edges@[e].1 == tgt,
                None => forall|e: int|
                    0 <= e < g.states@[s as int].edges@.len() ==> (
                    #[trigger] g.states@[s as int].edges@[e]).0.spec_name()
                        != g.non_terminals@[m]@,
            },
{
    let mut row: Vec<Option<usize>> = Vec::new();
    let mut m: usize = 0;
    while m < g.non_terminals.len()
        invariant
            s < g.states@.len(),
            m <= g.non_terminals@.len(),
            row@.len() == m,
            forall|m2: int|
                0 <= m2 < m ==> match #[trigger] row@[m2] {
                    Some(tgt) => exists|e: int|
                        0 <= e < g.states@[s as int].edges@.len() && (
                        #[trigger] g.states@[s as int].edges@[e]).0.spec_name()
                            == g.non_terminals@[m2]@ && g.states@[s as int].edges@[e].1 == tgt,
                    None => forall|e: int|
                        0 <= e < g.states@[s as int].edges@.len() ==> (
                        #[trigger] g.states@[s as int].edges@[e]).0.spec_name()
                            != g.non_terminals@[m2]@,
                },
        decreases g.non_terminals@.len() - m,
    {
        let mut found: Option<usize> = None;
        let mut e: usize = 0;
        while e < g.states[s].edges.len()
            invariant
                s < g.states@.len(),
                m < g.non_terminals@.len(),
                e <= g.states@[s as int].edges@.len(),
                match found {
                    Some(tgt) => exists|q: int|
                        0 <= q < e && (#[trigger] g.states@[s as int].edges@[q]).0.spec_name()
                            == g.non_terminals@[m as int]@ && g.states@[s as int].edges@[q].1
                            == tgt,
                    None => forall|q: int|
                        0 <= q < e ==> (#[trigger] g.states@[s as int].edges@[q]).0.spec_name()
                            != g.non_terminals@[m as int]@,
                },
            decreases g.states@[s as int].edges@.len() - e,
        {
            if found.is_none() {
                let name = g.states[s].edges[e].0.name();
                if crate::bytes::bytes_eq(&name, &g.non_terminals[m]) {
                    found = Some(g.states[s].edges[e].1);
                }
            }
            e = e + 1;
        }
        row.push(found);
        m = m + 1;
    }
    row
}

/// Shared construction of the LR(0) and SLR(1) tables.
fn build_table(rules: &Vec<FlatRuleDef>, g: &LrGraph, slr: bool, follow: &TermSet) -> (t: LrTable)
    requires
        graph_wf(rules@, *g),
        follow.wf(),
    ensures
        table_exact(rules@, *g, slr, *follow, t),
{
    let mut rows: Vec<LrTableEntry> = Vec::new();
    let mut s: usize = 0;
    while s < g.states.len()
        invariant
            graph_wf(rules@, *g),
            follow.wf(),
            s <= g.states@.len(),
            rows@.len() == s,
            forall|s2: int|
                0 <= s2 < s ==> (#[trigger] rows@[s2]).actions@.len() == g.terminals@.len()
                    && rows@[s2].goto_row@.len() == g.non_terminals@.len(),
            forall|s2: int, j: int, act: LrAction|
                #![trigger rows@[s2].actions@[j]@.contains(act)]
                0 <= s2 < s && 0 <= j < g.terminals@.len() ==> (rows@[s2].actions@[j]@.contains(act)
                    <==> action_fits(rules@, *g, slr, *follow, s2, j, act)),
            forall|s2: int, j: int, k1: int, k2: int|
                #![trigger rows@[s2].actions@[j]@[k1], rows@[s2].actions@[j]@[k2]]
                0 <= s2 < s && 0 <= j < g.terminals@.len() && 0 <= k1 < k2
                    < rows@[s2].actions@[j]@.len() && !(rows@[s2].actions@[j]@[k1]
                    matches LrAction::Shift(_)) ==> !(rows@[s2].actions@[j]@[k2]
                    matches LrAction::Shift(_)),
            forall|s2: int, j: int|
                #![trigger rows@[s2].actions@[j]]
                0 <= s2 < s && 0 <= j < g.terminals@.len() ==> rows@[s2].actions@[j]@
                    == cell_list_model(rules@, *g, slr, *follow, s2, j),
            forall|s2: int, m: int|
                #![trigger rows@[s2].goto_row@[m]]
                0 <= s2 < s && 0 <= m < g.non_terminals@.len() ==> match rows@[s2].goto_row@[m] {
                    Some(tgt) => exists|e: int|
                        0 <= e < g.states@[s2].edges@.len() && (
                        #[trigger] g.states@[s2].edges@[e]).0.spec_name() == g.non_terminals@[m]@
                            && g.states@[s2].edges@[e].1 == tgt,
                    None => forall|e: int|
                        0 <= e < g.states@[s2].edges@.len() ==> (
                        #[trigger] g.states@[s2].edges@[e]).0.spec_name()
                            != g.non_terminals@[m]@,
                },
        decreases g.states@.len() - s,
    {
        let mut actions: Vec<Vec<LrAction>> = Vec::new();
        let mut j: usize = 0;
        while j < g.terminals.len()
            invariant
                graph_wf(rules@, *g),
                follow.wf(),
                s < g.states@.len(),
                j <= g.terminals@.len(),
                actions@.len() == j,
                forall|j2: int, act: LrAction|
                    #![trigger actions@[j2]@.contains(act)]
                    0 <= j2 < j ==> (actions@[j2]@.contains(act) <==> action_fits(
                        rules@,
                        *g,
                        slr,
                        *follow,
                        s as int,
                        j2,
                        act,
                    )),
                forall|j2: int, k1: int, k2: int|
                    #![trigger actions@[j2]@[k1], actions@[j2]@[k2]]
                    0 <= j2 < j && 0 <= k1 < k2 < actions@[j2]@.len() && !(actions@[j2]@[k1]
                        matches LrAction::Shift(_)) ==> !(actions@[j2]@[k2]
                        matches LrAction::Shift(_)),
                forall|j2: int|
                    #![trigger actions@[j2]]
                    0 <= j2 < j ==> actions@[j2]@ == cell_list_model(
                        rules@,
                        *g,
                        slr,
                        *follow,
                        s as int,
                        j2,
                    ),
            decreases g.terminals@.len() - j,
        {
            let cell = build_cell(rules, g, slr, follow, s, j);
            actions.push(cell);
            j = j + 1;
        }
        let goto_row = build_goto(rules, g, s);
        rows.push(LrTableEntry { actions, goto_row });
        s = s + 1;
    }
    let terminals = copy_names_lr(&g.terminals);
    let non_terminals = copy_names_lr(&g.non_terminals);
    LrTable { rows, terminals, non_terminals }
}

/// A fresh copy of a name list, name for name.
fn copy_names_lr(v: &Vec<Vec<u8>>) -> (r: Vec<Vec<u8>>)
    ensures
        r@.len() == v@.len(),
        forall|i: int| 0 <= i < v@.len() ==> (#[trigger] r@[i])@ == v@[i]@,
{
    let mut r: Vec<Vec<u8>> = Vec::new();
    let mut i: usize = 0;
    while i < v.len()
        invariant
            i <= v@.len(),
            r@.len() == i,
            forall|k: int| 0 <= k < i ==> (#[trigger] r@[k])@ == v@[k]@,
        decreases v@.len() - i,
    {
        let ghost pre = r@;
        r.push(crate::bytes::copy_bytes(&v[i]));
        proof {
            assert(forall|k: int| 0 <= k < pre.len() ==> #[trigger] r@[k] == pre[k]);
        }
        i = i + 1;
    }
    r
}

/// The LR(0) table: shifts along terminal edges, a reduce of every
/// completed non-start rule on every terminal, accept on `#` where rule 0
/// is complete, and gotos along nonterminal edges.
pub fn lr0_table(rules: &Vec<FlatRuleDef>, graph: &LrGraph) -> (t: LrTable)
    requires
        graph_wf(rules@, *graph),
    ensures
        forall|f: TermSet| #[trigger] table_exact(rules@, *graph, false, f, t),
{
    let empty = TermSet { keys: Vec::new(), terms: Vec::new(), eps: Vec::new(), sets: Vec::new() };
    let t = build_table(rules, graph, false, &empty);
    proof {
        assert forall|f: TermSet| #[trigger] table_exact(rules@, *graph, false, f, t) by {
            lemma_table_follow_irrelevant(rules@, *graph, empty, f, t);
        }
    }
    t
}

/// Without lookahead the reduce contributions ignore the FOLLOW argument.
proof fn lemma_reduces_follow_irrelevant(
    rules: Seq<FlatRuleDef>,
    g: LrGraph,
    f1: TermSet,
    f2: TermSet,
    s: int,
    j: int,
    a: int,
)
    ensures
        reduces_upto(rules, g, false, f1, s, j, a) == reduces_upto(rules, g, false, f2, s, j, a),
    decreases a,
{
    if a > 0 {
        lemma_reduces_follow_irrelevant(rules, g, f1, f2, s, j, a - 1);
    }
}

/// In a table built without lookahead the FOLLOW argument is irrelevant.
proof fn lemma_table_follow_irrelevant(
    rules: Seq<FlatRuleDef>,
    g: LrGraph,
    f1: TermSet,
    f2: TermSet,
    t: LrTable,
)
    requires
        table_exact(rules, g, false, f1, t),
    ensures
        table_exact(rules, g, false, f2, t),
{
    assert forall|s: int, j: int|
        #![trigger t.rows@[s].actions@[j]]
        0 <= s < t.rows@.len() && 0 <= j < g.terminals@.len() implies t.rows@[s].actions@[j]@
        == cell_list_model(rules, g, false, f2, s, j) by {
        lemma_reduces_follow_irrelevant(
            rules,
            g,
            f1,
            f2,
            s,
            j,
            g.states@[s].prods@.len() as int,
        );
    }
    assert forall|s: int, j: int, act: LrAction|
        #![trigger t.rows@[s].actions@[j]@.contains(act)]
        0 <= s < t.rows@.len() && 0 <= j < g.terminals@.len() implies (t.rows@[s].actions@[j]@.contains(
        act,
    ) <==> action_fits(rules, g, false, f2, s, j, act)) by {
        assert(t.rows@[s].actions@[j]@.contains(act) <==> action_fits(rules, g, false, f1, s, j, act));
        assert(action_fits(rules, g, false, f1, s, j, act) == action_fits(
            rules,
            g,
            false,
            f2,
            s,
            j,
            act,
        )) by {
            match act {
                LrAction::Shift(t2) => {},
                LrAction::Reduce(r) => {},
                LrAction::Accept => {},
            }
        }
    }
}

/// The SLR(1) table: as LR(0), but a completed rule reduces only on the
/// terminals in the FOLLOW set of its left-hand side.
pub fn slr1_table(rules: &Vec<FlatRuleDef>, graph: &LrGraph, follow: &TermSet) -> (t: LrTable)
    requires
        graph_wf(rules@, *graph),
        follow.wf(),
    ensures
        table_exact(rules@, *graph, true, *follow, t),
{
    build_table(rules, graph, true, follow)
}

/// Every reduce of the SLR(1) table sits in the same cell of the LR(0)
/// table: SLR(1) only restricts the lookahead, it never adds an action the
/// LR(0) table lacks.
pub proof fn lemma_lr0_covers_slr1(
    rules: Seq<FlatRuleDef>,
    g: LrGraph,
    follow: TermSet,
    f0: TermSet,
    t0: LrTable,
    t1: LrTable,
    s: int,
    j: int,
    r: usize,
)
    requires
        table_exact(rules, g, false, f0, t0),
        table_exact(rules, g, true, follow, t1),
        0 <= s < t1.rows@.len(),
        0 <= j < g.terminals@.len(),
        t1.rows@[s].actions@[j]@.contains(LrAction::Reduce(r)),
    ensures
        t0.rows@[s].actions@[j]@.contains(LrAction::Reduce(r)),
{
    assert(action_fits(rules, g, true, follow, s, j, LrAction::Reduce(r)));
    assert(action_fits(rules, g, false, f0, s, j, LrAction::Reduce(r)));
}

/// Exactly those states with a completed start item accept, and only on
/// the end-of-input column.
pub proof fn lemma_accept_placement(
    rules: Seq<FlatRuleDef>,
    g: LrGraph,
    f0: TermSet,
    t: LrTable,
    s: int,
    j: int,
)
    requires
        table_exact(rules, g, false, f0, t),
        0 <= s < t.rows@.len(),
        0 <= j < g.terminals@.len(),
    ensures
        t.rows@[s].actions@[j]@.contains(LrAction::Accept) <==> (g.terminals@[j]@ == hash_name()
            && has_completed(rules, g.states@[s].prods@, 0)),
{
    assert(t.rows@[s].actions@[j]@.contains(LrAction::Accept) <==> action_fits(
        rules,
        g,
        false,
        f0,
        s,
        j,
        LrAction::Accept,
    ));
}

/// Two strictly sorted item lists with the same members are equal.
proof fn lemma_sorted_items_unique(a: Seq<ProdState>, b: Seq<ProdState>)
    requires
        items_sorted(a),
        items_sorted(b),
        forall|x: ProdState| a.contains(x) <==> b.contains(x),
    ensures
        a == b,
    decreases a.len(),
{
    if a.len() == 0 && b.len() == 0 {
        assert(a =~= b);
    } else if a.len() == 0 {
        assert(b.contains(b[0]));
        assert(a.contains(b[0]));
        let i = choose|i: int| 0 <= i < a.len() && a[i] == b[0];
        assert(false);
    } else if b.len() == 0 {
        assert(a.contains(a[0]));
        assert(b.contains(a[0]));
        let i = choose|i: int| 0 <= i < b.len() && b[i] == a[0];
        assert(false);
    } else {
        assert(a.contains(a[0]) && b.contains(b[0]));
        assert(b.contains(a[0]));
        let j = choose|j: int| 0 <= j < b.len() && b[j] == a[0];
        assert(a.contains(b[0]));
        let i = choose|i: int| 0 <= i < a.len() && a[i] == b[0];
        assert(a[0] == b[0]) by {
            if j >= 1 {
                assert(item_lt(b[0], b[j]));
            }
            if i >= 1 {
                assert(item_lt(a[0], a[i]));
            }
        }
        let at = a.skip(1);
        let bt = b.skip(1);
        assert(forall|k: int| 0 <= k < at.len() ==> #[trigger] at[k] == a[k + 1]);
        assert(forall|k: int| 0 <= k < bt.len() ==> #[trigger] bt[k] == b[k + 1]);
        assert forall|x: ProdState| at.contains(x) <==> bt.contains(x) by {
            if at.contains(x) {
                let k = choose|k: int| 0 <= k < at.len() && at[k] == x;
                assert(a[k + 1] == x);
                assert(item_lt(a[0], x));
                assert(a.contains(x));
                assert(b.contains(x));
                let m = choose|m: int| 0 <= m < b.len() && b[m] == x;
                assert(m >= 1) by {
                    if m == 0 {
                        assert(x == b[0]);
                    }
                }
                assert(bt[m - 1] == x);
                assert(bt.contains(x));
            }
            if bt.contains(x) {
                let k = choose|k: int| 0 <= k < bt.len() && bt[k] == x;
                assert(b[k + 1] == x);
                assert(item_lt(b[0], x));
                assert(b.contains(x));
                assert(a.contains(x));
                let m = choose|m: int| 0 <= m < a.len() && a[m] == x;
                assert(m >= 1) by {
                    if m == 0 {
                        assert(x == a[0]);
                    }
                }
                assert(at[m - 1] == x);
                assert(at.contains(x));
            }
        }
        lemma_sorted_items_unique(at, bt);
        assert(a =~= b) by {
            assert(forall|k: int| 1 <= k < a.len() ==> #[trigger] a[k] == at[k - 1]);
            assert(forall|k: int| 1 <= k < b.len() ==> #[trigger] b[k] == bt[k - 1]);
        }
    }
}

/// The closure of an item set is canonical: any two closures of the same
/// base are the same sequence.
pub proof fn lemma_closure_canonical(
    rules: Seq<FlatRuleDef>,
    base: Seq<ProdState>,
    items1: Seq<ProdState>,
    items2: Seq<ProdState>,
)
    requires
        is_closure(rules, base, items1),
        is_closure(rules, base, items2),
    ensures
        items1 == items2,
{
    lemma_closure_subset(rules, base, items1, items2);
    lemma_closure_subset(rules, base, items2, items1);
    assert forall|x: ProdState| items1.contains(x) <==> items2.contains(x) by {
        if items1.contains(x) {
            let k = choose|k: int| 0 <= k < items1.len() && items1[k] == x;
        }
        if items2.contains(x) {
            let k = choose|k: int| 0 <= k < items2.len() && items2[k] == x;
        }
    }
    lemma_sorted_items_unique(items1, items2);
}

/// One closure lies inside any other closure of the same base.
proof fn lemma_closure_subset(
    rules: Seq<FlatRuleDef>,
    base: Seq<ProdState>,
    items1: Seq<ProdState>,
    items2: Seq<ProdState>,
)
    requires
        is_closure(rules, base, items1),
        is_closure(rules, base, items2),
    ensures
        forall|a: int| 0 <= a < items1.len() ==> items2.contains(#[trigger] items1[a]),
{
    let o = Set::new(|x: ProdState| items2.contains(x));
    assert(expansion_closed(rules, o)) by {
        assert forall|it: ProdState, r2: int|
            #![trigger o.contains(it), expands_to(rules, it, r2)]
            o.contains(it) && expands_to(rules, it, r2) implies o.contains(item0(r2)) by {
            let k = choose|k: int| 0 <= k < items2.len() && items2[k] == it;
            assert(expands_to(rules, items2[k], r2));
            assert(items2.contains(item0(r2)));
        }
    }
    assert(forall|a: int| 0 <= a < base.len() ==> o.contains(#[trigger] base[a]));
    assert(forall|a: int| 0 <= a < items1.len() ==> o.contains(#[trigger] items1[a]));
}

/// Closing a closed canonical set changes nothing.
pub proof fn lemma_closure_idempotent(
    rules: Seq<FlatRuleDef>,
    base: Seq<ProdState>,
    items: Seq<ProdState>,
    again: Seq<ProdState>,
)
    requires
        is_closure(rules, base, items),
        is_closure(rules, items, again),
    ensures
        again == items,
{
    assert(is_closure(rules, items, items)) by {
        assert(forall|a: int| 0 <= a < items.len() ==> items.contains(#[trigger] items[a]));
        assert forall|other: Set<ProdState>|
            #![trigger expansion_closed(rules, other)]
            expansion_closed(rules, other) && (forall|a: int|
                0 <= a < items.len() ==> other.contains(#[trigger] items[a])) implies forall|
            a: int,
        |
            0 <= a < items.len() ==> other.contains(#[trigger] items[a]) by {}
    }
    lemma_closure_canonical(rules, items, again, items);
}

} // verus!
