//! Counting set bits of bitsets, and the monotonicity lemmas that bound
//! the fixed-point iterations.

use vstd::prelude::*;

verus! {

/// The number of set bits.
pub open spec fn count_row(s: Seq<bool>) -> nat
    decreases s.len(),
{
    if s.len() == 0 {
        0
    } else {
        count_row(s.drop_last()) + if s.last() {
            1nat
        } else {
            0nat
        }
    }
}

pub open spec fn count_rows(s: Seq<Vec<bool>>) -> nat
    decreases s.len(),
{
    if s.len() == 0 {
        0
    } else {
        count_rows(s.drop_last()) + count_row(s.last()@)
    }
}

pub proof fn lemma_count_row_le(a: Seq<bool>, b: Seq<bool>)
    requires
        a.len() == b.len(),
        forall|i: int| 0 <= i < a.len() ==> (a[i] ==> b[i]),
    ensures
        count_row(a) <= count_row(b),
        a != b ==> count_row(a) < count_row(b),
        count_row(a) <= a.len(),
    decreases a.len(),
{
    if a.len() == 0 {
        assert(a =~= b);
    } else {
        assert(forall|i: int| 0 <= i < a.len() - 1 ==> #[trigger] a[i] == a.drop_last()[i]);
        assert(forall|i: int| 0 <= i < b.len() - 1 ==> #[trigger] b[i] == b.drop_last()[i]);
        lemma_count_row_le(a.drop_last(), b.drop_last());
        if a != b {
            if a.last() == b.last() {
                if a.drop_last() == b.drop_last() {
                    assert(a =~= b);
                }
            }
        }
    }
}

pub proof fn lemma_count_rows_le(a: Seq<Vec<bool>>, b: Seq<Vec<bool>>)
    requires
        a.len() == b.len(),
        forall|i: int| 0 <= i < a.len() ==> (#[trigger] a[i])@.len() == b[i]@.len(),
        forall|i: int, j: int|
            #![trigger a[i]@[j]]
            0 <= i < a.len() && 0 <= j < a[i]@.len() ==> (a[i]@[j] ==> b[i]@[j]),
    ensures
        count_rows(a) <= count_rows(b),
        (exists|i: int, j: int|
            #![trigger a[i]@[j]]
            0 <= i < a.len() && 0 <= j < a[i]@.len() && !a[i]@[j] && b[i]@[j]) ==> count_rows(a)
            < count_rows(b),
    decreases a.len(),
{
    if a.len() > 0 {
        lemma_count_rows_le(a.drop_last(), b.drop_last());
        lemma_count_row_le(a.last()@, b.last()@);
        if exists|i: int, j: int|
            #![trigger a[i]@[j]]
            0 <= i < a.len() && 0 <= j < a[i]@.len() && !a[i]@[j] && b[i]@[j] {
            let (i, j) = choose|i: int, j: int|
                #![trigger a[i]@[j]]
                0 <= i < a.len() && 0 <= j < a[i]@.len() && !a[i]@[j] && b[i]@[j];
            if i == a.len() - 1 {
                assert(a.last()@[j] != b.last()@[j]);
                assert(a.last()@ != b.last()@);
            } else {
                assert(a.drop_last()[i]@[j] == a[i]@[j]);
                assert(b.drop_last()[i]@[j] == b[i]@[j]);
                assert(exists|i2: int, j2: int|
                    #![trigger a.drop_last()[i2]@[j2]]
                    0 <= i2 < a.drop_last().len() && 0 <= j2 < a.drop_last()[i2]@.len()
                        && !a.drop_last()[i2]@[j2] && b.drop_last()[i2]@[j2]);
            }
        }
    }
}

pub proof fn lemma_count_rows_bound(s: Seq<Vec<bool>>, w: nat)
    requires
        forall|i: int| 0 <= i < s.len() ==> (#[trigger] s[i])@.len() <= w,
    ensures
        count_rows(s) <= s.len() * w,
    decreases s.len(),
{
    if s.len() > 0 {
        lemma_count_rows_bound(s.drop_last(), w);
        lemma_count_row_le(s.last()@, s.last()@);
        assert(count_row(s.last()@) <= s.last()@.len());
        assert((s.len() - 1) * w + w == s.len() * w) by (nonlinear_arith);
    }
}

} // verus!
