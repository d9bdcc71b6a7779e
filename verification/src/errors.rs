//! Reader errors: unrecognized characters and syntax errors, each with a
//! source location.  Errors are accumulated in order of discovery and can be
//! sorted by location (line, then column) before display.

use vstd::prelude::*;

verus! {

/// A source location: line and column, both 1-based.
pub struct Loc(pub usize, pub usize);

/// `a` is at or before `b` in reading order.
pub open spec fn loc_le(a: Loc, b: Loc) -> bool {
    a.0 < b.0 || (a.0 == b.0 && a.1 <= b.1)
}

pub enum ErrorKind {
    UnrecognizedChar(char),
    SyntaxError,
}

/// One reader error at one location.
pub struct Error(pub Loc, pub ErrorKind);

/// The ordered collection of reader errors.
pub struct Errors(pub Vec<Error>);

pub open spec fn sorted_by_loc(s: Seq<Error>) -> bool {
    forall|a: int, b: int| 0 <= a < b < s.len() ==> loc_le(#[trigger] s[a].0, #[trigger] s[b].0)
}

impl Default for Errors {
    fn default() -> (r: Self)
        ensures
            r.0@.len() == 0,
    {
        Errors(Vec::new())
    }
}

impl Errors {
    /// Record one more error.
    pub fn issue(&mut self, loc: Loc, e: ErrorKind)
        ensures
            final(self).0@ == old(self).0@.push(Error(loc, e)),
    {
        self.0.push(Error(loc, e));
    }

    /// The same errors, ordered by location.
    pub fn sorted(self) -> (r: Self)
        ensures
            sorted_by_loc(r.0@),
            r.0@.to_multiset() == self.0@.to_multiset(),
    {
        broadcast use vstd::seq_lib::group_to_multiset_ensures;

        let Errors(mut v) = self;
        let ghost orig = v@;
        let mut out: Vec<Error> = Vec::new();
        while v.len() > 0
            invariant
                sorted_by_loc(out@),
                forall|a: int, b: int|
                    0 <= a < out@.len() && 0 <= b < v@.len() ==> loc_le(
                        #[trigger] out@[a].0,
                        #[trigger] v@[b].0,
                    ),
                out@.to_multiset().add(v@.to_multiset()) == orig.to_multiset(),
            decreases v@.len(),
        {
            let mut m: usize = 0;
            let mut b: usize = 1;
            while b < v.len()
                invariant
                    m < v@.len(),
                    b <= v@.len(),
                    forall|k: int| 0 <= k < b ==> loc_le(v@[m as int].0, (#[trigger] v@[k]).0),
                decreases v@.len() - b,
            {
                let better = if v[b].0 .0 < v[m].0 .0 {
                    true
                } else if v[b].0 .0 == v[m].0 .0 && v[b].0 .1 < v[m].0 .1 {
                    true
                } else {
                    false
                };
                if better {
                    m = b;
                }
                b = b + 1;
            }
            let ghost vpre = v@;
            let ghost opre = out@;
            let x = v.remove(m);
            out.push(x);
            proof {
                assert(out@ == opre.push(vpre[m as int]));
                assert(v@ == vpre.remove(m as int));
                vstd::seq_lib::to_multiset_build::<Error>(opre, vpre[m as int]);
                vstd::seq_lib::to_multiset_remove::<Error>(vpre, m as int);
                assert(vpre.contains(vpre[m as int]));
                vstd::seq_lib::to_multiset_contains::<Error>(vpre, vpre[m as int]);
                assert(out@.to_multiset().add(v@.to_multiset()) =~= opre.to_multiset().add(
                    vpre.to_multiset(),
                ));
                assert(forall|k: int|
                    0 <= k < v@.len() ==> #[trigger] v@[k] == if k < m {
                        vpre[k]
                    } else {
                        vpre[k + 1]
                    });
            }
        }
        proof {
            assert(out@.to_multiset().add(v@.to_multiset()) =~= out@.to_multiset());
        }
        Errors(out)
    }
}

} // verus!
