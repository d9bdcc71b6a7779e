//! Helpers over byte strings.  Symbol names and terminal literals are kept
//! as `Vec<u8>`, so equality, lexicographic order, and copying are all
//! verified here once and shared by every stage.

use vstd::prelude::*;

verus! {

/// Lexicographic strict order on byte sequences.
pub open spec fn lex_lt(a: Seq<u8>, b: Seq<u8>) -> bool
    decreases a.len(),
{
    if b.len() == 0 {
        false
    } else if a.len() == 0 {
        true
    } else if a[0] < b[0] {
        true
    } else if a[0] > b[0] {
        false
    } else {
        lex_lt(a.skip(1), b.skip(1))
    }
}

pub open spec fn lex_le(a: Seq<u8>, b: Seq<u8>) -> bool {
    lex_lt(a, b) || a == b
}

/// `lex_lt` is a strict total order: exactly one of `a < b`, `a == b`,
/// `b < a` holds.
pub proof fn lemma_lex_trichotomy(a: Seq<u8>, b: Seq<u8>)
    ensures
        lex_lt(a, b) || a == b || lex_lt(b, a),
        lex_lt(a, b) ==> !lex_lt(b, a) && a != b,
        a == b ==> !lex_lt(a, b),
    decreases a.len(),
{
    if a.len() == 0 && b.len() == 0 {
        assert(a =~= b);
    } else if a.len() != 0 && b.len() != 0 && a[0] == b[0] {
        lemma_lex_trichotomy(a.skip(1), b.skip(1));
        assert(forall|i: int| 0 <= i < a.len() - 1 ==> #[trigger] a.skip(1)[i] == a[i + 1]);
        assert(forall|i: int| 0 <= i < b.len() - 1 ==> #[trigger] b.skip(1)[i] == b[i + 1]);
        if a.skip(1) == b.skip(1) {
            assert(a.len() == b.len());
            assert(forall|i: int| 1 <= i < a.len() ==> #[trigger] a[i] == a.skip(1)[i - 1]);
            assert(forall|i: int| 1 <= i < b.len() ==> #[trigger] b[i] == b.skip(1)[i - 1]);
            assert(a =~= b);
        }
        if a == b {
            assert(a.skip(1) =~= b.skip(1));
        }
    } else {
        if a == b {
            assert(a.len() == b.len());
        }
    }
}

pub proof fn lemma_lex_transitive(a: Seq<u8>, b: Seq<u8>, c: Seq<u8>)
    requires
        lex_lt(a, b),
        lex_lt(b, c),
    ensures
        lex_lt(a, c),
    decreases a.len(),
{
    if a.len() != 0 && b.len() != 0 && c.len() != 0 && a[0] == b[0] && b[0] == c[0] {
        lemma_lex_transitive(a.skip(1), b.skip(1), c.skip(1));
    }
}

/// Decide `a@ == b@`.
pub fn bytes_eq(a: &Vec<u8>, b: &Vec<u8>) -> (r: bool)
    ensures
        r == (a@ == b@),
{
    if a.len() != b.len() {
        assert(a@ != b@);
        return false;
    }
    let mut i: usize = 0;
    while i < a.len()
        invariant
            i <= a.len(),
            a.len() == b.len(),
            forall|j: int| 0 <= j < i ==> a@[j] == b@[j],
        decreases a.len() - i,
    {
        if a[i] != b[i] {
            return false;
        }
        i = i + 1;
    }
    assert(a@ =~= b@);
    true
}

/// Decide `lex_lt(a@, b@)`.
pub fn bytes_lt(a: &Vec<u8>, b: &Vec<u8>) -> (r: bool)
    ensures
        r == lex_lt(a@, b@),
{
    let mut i: usize = 0;
    assert(a@.skip(0) =~= a@ && b@.skip(0) =~= b@);
    loop
        invariant
            i <= a.len(),
            i <= b.len(),
            forall|j: int| 0 <= j < i ==> a@[j] == b@[j],
            lex_lt(a@, b@) == lex_lt(a@.skip(i as int), b@.skip(i as int)),
        decreases a.len() - i,
    {
        if i >= b.len() {
            assert(b@.skip(i as int).len() == 0);
            return false;
        }
        if i >= a.len() {
            assert(a@.skip(i as int).len() == 0);
            assert(b@.skip(i as int).len() != 0);
            return true;
        }
        let x = a[i];
        let y = b[i];
        assert(a@.skip(i as int)[0] == x && b@.skip(i as int)[0] == y);
        if x < y {
            return true;
        }
        if x > y {
            return false;
        }
        assert(a@.skip(i as int).skip(1) =~= a@.skip(i + 1));
        assert(b@.skip(i as int).skip(1) =~= b@.skip(i + 1));
        i = i + 1;
    }
}

/// A fresh copy of a byte string with the same contents.
pub fn copy_bytes(v: &Vec<u8>) -> (r: Vec<u8>)
    ensures
        r@ == v@,
{
    let mut r: Vec<u8> = Vec::new();
    let mut i: usize = 0;
    while i < v.len()
        invariant
            i <= v.len(),
            r@ =~= v@.take(i as int),
        decreases v.len() - i,
    {
        r.push(v[i]);
        i = i + 1;
    }
    assert(r@ =~= v@);
    r
}

/// Append `src` to `dst`.
pub fn push_bytes(dst: &mut Vec<u8>, src: &Vec<u8>)
    ensures
        final(dst)@ == old(dst)@ + src@,
{
    let mut i: usize = 0;
    while i < src.len()
        invariant
            i <= src.len(),
            dst@ =~= old(dst)@ + src@.take(i as int),
        decreases src.len() - i,
    {
        dst.push(src[i]);
        i = i + 1;
    }
    assert(dst@ =~= old(dst)@ + src@);
}

/// Decimal digits of `n`, most significant first.
pub open spec fn dec_digits(n: nat) -> Seq<u8>
    decreases n,
{
    if n < 10 {
        seq![(48 + n) as u8]
    } else {
        dec_digits(n / 10) + seq![(48 + n % 10) as u8]
    }
}

/// Render `n` in decimal.
pub fn render_usize(n: usize) -> (r: Vec<u8>)
    ensures
        r@ == dec_digits(n as nat),
{
    let mut rev: Vec<u8> = Vec::new();
    let mut m: usize = n;
    loop
        invariant_except_break
            m == 0 ==> n == 0 && rev@.len() == 0,
            m != 0 ==> dec_digits(n as nat) == dec_digits(m as nat) + rev@.reverse(),
        ensures
            dec_digits(n as nat) == rev@.reverse(),
        decreases m,
    {
        let ghost prev = m as nat;
        let ghost orev = rev@;
        let d: u8 = (m % 10) as u8;
        rev.push(48 + d);
        proof {
            assert(rev@.reverse() =~= seq![(48 + prev % 10) as u8] + orev.reverse());
            if prev >= 10 {
                assert(dec_digits(prev) + orev.reverse() =~= dec_digits(prev / 10) + (seq![
                    (48 + prev % 10) as u8,
                ] + orev.reverse()));
            } else {
                assert(dec_digits(prev) =~= seq![(48 + prev % 10) as u8]);
            }
        }
        m = m / 10;
        if m == 0 {
            proof {
                if prev == 0 {
                    assert(rev@.reverse() =~= seq![48u8]);
                    assert(dec_digits(0nat) =~= seq![48u8]);
                } else {
                    assert(dec_digits(prev) =~= seq![(48 + prev % 10) as u8]);
                    assert(dec_digits(n as nat) =~= rev@.reverse());
                }
            }
            break;
        }
    }
    let mut r: Vec<u8> = Vec::new();
    let mut i: usize = rev.len();
    while i > 0
        invariant
            i <= rev.len(),
            r@.len() == rev.len() - i,
            forall|k: int| 0 <= k < r@.len() ==> r@[k] == rev@.reverse()[k],
        decreases i,
    {
        i = i - 1;
        r.push(rev[i]);
    }
    assert(r@ =~= rev@.reverse());
    r
}


/// The name `n` occurs in the list.
pub open spec fn mem_name(v: Seq<Vec<u8>>, n: Seq<u8>) -> bool {
    exists|i: int| 0 <= i < v.len() && v[i]@ == n
}

/// Strictly sorted in lexicographic order; in particular all entries are
/// distinct.
pub open spec fn strictly_sorted_names(v: Seq<Vec<u8>>) -> bool {
    forall|a: int, b: int| 0 <= a < b < v.len() ==> lex_lt(v[a]@, v[b]@)
}

/// In a strictly sorted list an entry equal to `n` sits at exactly one
/// index.
pub proof fn lemma_sorted_unique(v: Seq<Vec<u8>>, a: int, b: int)
    requires
        strictly_sorted_names(v),
        0 <= a < v.len(),
        0 <= b < v.len(),
        v[a]@ == v[b]@,
    ensures
        a == b,
{
    if a < b {
        lemma_lex_trichotomy(v[a]@, v[b]@);
    }
    if b < a {
        lemma_lex_trichotomy(v[b]@, v[a]@);
    }
}

/// Insert `x` into a strictly sorted name list unless it is already there.
pub fn sorted_insert(v: &mut Vec<Vec<u8>>, x: &Vec<u8>)
    requires
        strictly_sorted_names(old(v)@),
    ensures
        strictly_sorted_names(final(v)@),
        forall|n: Seq<u8>| mem_name(final(v)@, n) <==> (mem_name(old(v)@, n) || n == x@),
{
    let mut i: usize = 0;
    loop
        invariant
            strictly_sorted_names(v@),
            v@ == old(v)@,
            i <= v@.len(),
            forall|k: int| 0 <= k < i ==> lex_lt(#[trigger] v@[k]@, x@),
        ensures
            strictly_sorted_names(final(v)@),
            forall|n: Seq<u8>| mem_name(final(v)@, n) <==> (mem_name(old(v)@, n) || n == x@),
        decreases v@.len() - i,
    {
        if i == v.len() {
            let ghost pre = v@;
            v.push(copy_bytes(x));
            proof {
                assert(forall|k: int| 0 <= k < pre.len() ==> #[trigger] v@[k] == pre[k]);
                assert(v@[pre.len() as int]@ == x@);
                assert forall|n: Seq<u8>|
                    mem_name(v@, n) <==> (mem_name(pre, n) || n == x@) by {
                    if mem_name(v@, n) {
                        let q = choose|q: int| 0 <= q < v@.len() && v@[q]@ == n;
                        if q < pre.len() {
                            assert(pre[q]@ == n);
                        }
                    }
                    if mem_name(pre, n) {
                        let q = choose|q: int| 0 <= q < pre.len() && pre[q]@ == n;
                        assert(v@[q]@ == n);
                    }
                }
            }
            return ;
        }
        if bytes_eq(&v[i], x) {
            assert(mem_name(v@, x@));
            return ;
        }
        let xl = bytes_lt(x, &v[i]);
        if xl {
            let ghost pre = v@;
            v.insert(i, copy_bytes(x));
            proof {
                assert(v@ == pre.insert(i as int, v@[i as int]));
                assert(v@[i as int]@ == x@);
                assert(forall|k: int| 0 <= k < i ==> #[trigger] v@[k] == pre[k]);
                assert(forall|k: int|
                    i < k < v@.len() ==> #[trigger] v@[k] == pre[k - 1]);
                assert forall|a: int, b: int| 0 <= a < b < v@.len() implies lex_lt(
                    v@[a]@,
                    v@[b]@,
                ) by {
                    if a < i && b == i {
                    } else if a == i && b > i {
                        if i < pre.len() {
                            if lex_lt(x@, pre[b - 1]@) {
                            } else {
                                assert(lex_lt(x@, pre[i as int]@));
                                if b - 1 > i {
                                    assert(lex_lt(pre[i as int]@, pre[b - 1]@));
                                    lemma_lex_transitive(x@, pre[i as int]@, pre[b - 1]@);
                                }
                            }
                        }
                    } else if a < i && b > i {
                    } else {
                    }
                }
                assert forall|n: Seq<u8>|
                    mem_name(v@, n) <==> (mem_name(pre, n) || n == x@) by {
                    if mem_name(v@, n) {
                        let q = choose|q: int| 0 <= q < v@.len() && v@[q]@ == n;
                        if q < i {
                            assert(pre[q]@ == n);
                        } else if q > i {
                            assert(pre[q - 1]@ == n);
                        }
                    }
                    if mem_name(pre, n) {
                        let q = choose|q: int| 0 <= q < pre.len() && pre[q]@ == n;
                        if q < i {
                            assert(v@[q]@ == n);
                        } else {
                            assert(v@[q + 1]@ == n);
                        }
                    }
                }
            }
            return ;
        }
        proof {
            lemma_lex_trichotomy(x@, v@[i as int]@);
        }
        i = i + 1;
    }
}

/// Find `x` in a name list.
pub fn find_name(v: &Vec<Vec<u8>>, x: &Vec<u8>) -> (r: Option<usize>)
    ensures
        match r {
            Some(i) => i < v@.len() && v@[i as int]@ == x@,
            None => !mem_name(v@, x@),
        },
{
    let mut i: usize = 0;
    while i < v.len()
        invariant
            i <= v@.len(),
            forall|k: int| 0 <= k < i ==> (#[trigger] v@[k])@ != x@,
        decreases v@.len() - i,
    {
        if bytes_eq(&v[i], x) {
            return Some(i);
        }
        i = i + 1;
    }
    None
}

} // verus!
