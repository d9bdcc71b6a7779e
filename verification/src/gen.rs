//! The randomized sentence generator: walk the grammar from the start
//! rule, choosing alternatives at random, emitting terminal payloads
//! (quotes stripped) separated by spaces, descending into `Optional` and
//! `Star` with probability 0.6 while the recursion budget lasts.  The
//! budget bounds every descent, so generation always returns.  A name no
//! rule defines is fatal to generation: callers check with
//! [`undefined_reference`] first and the generator requires a closed
//! grammar.

use crate::ast::{File, Prod};
use crate::bytes::{bytes_eq, push_bytes};
use crate::flatten::{file_has_nt, prod_has_nt};
use vstd::prelude::*;

verus! {

/// Relies on rand::random: a fresh sample of a value whose distribution
/// the Standard distribution defines.  Nothing can be promised of a
/// random value, so this has no ensures.
pub assume_specification<T>[ rand::random::<T> ]() -> (r: T)
    where
        rand::distributions::Standard: rand::distributions::Distribution<T>,
;

/// The name `n` is the left-hand side of some rule of the file.
pub open spec fn file_defines(f: File, n: Seq<u8>) -> bool {
    exists|i: int| 0 <= i < f.rules@.len() && (#[trigger] f.rules@[i]).name@ == n
}

/// Every name referenced anywhere in the file is defined by one of its
/// rules.
pub open spec fn file_closed(f: File) -> bool {
    forall|n: Seq<u8>| #![trigger file_has_nt(f, n)] file_has_nt(f, n) ==> file_defines(f, n)
}

/// Every name referenced in the production is defined by the file.
pub open spec fn prod_closed(f: File, p: Prod) -> bool {
    forall|n: Seq<u8>| #![trigger prod_has_nt(p, n)] prod_has_nt(p, n) ==> file_defines(f, n)
}

/// Decide `file_defines(f, x@)`.
fn file_defines_exec(f: &File, x: &Vec<u8>) -> (r: bool)
    ensures
        r == file_defines(*f, x@),
{
    let mut i: usize = 0;
    while i < f.rules.len()
        invariant
            i <= f.rules@.len(),
            forall|q: int| 0 <= q < i ==> (#[trigger] f.rules@[q]).name@ != x@,
        decreases f.rules@.len() - i,
    {
        if bytes_eq(&f.rules[i].name, x) {
            return true;
        }
        i = i + 1;
    }
    false
}

/// Find a referenced but undefined name inside one production.
fn find_undef_prod(f: &File, p: &Prod) -> (r: Option<Vec<u8>>)
    ensures
        match r {
            Some(m) => prod_has_nt(*p, m@) && !file_defines(*f, m@),
            None => prod_closed(*f, *p),
        },
    decreases *p,
{
    match p {
        Prod::NonTerminal(m) => {
            if file_defines_exec(f, m) {
                None
            } else {
                Some(crate::bytes::copy_bytes(m))
            }
        },
        Prod::Concat(l, pr) => {
            match find_undef_prod(f, l) {
                Some(m) => {
                    proof {
                        assert(prod_has_nt(*p, m@));
                    }
                    Some(m)
                },
                None => {
                    match find_undef_prod(f, pr) {
                        Some(m) => {
                            proof {
                                assert(prod_has_nt(*p, m@));
                            }
                            Some(m)
                        },
                        None => {
                            proof {
                                assert forall|n: Seq<u8>| #![trigger prod_has_nt(*p, n)]
                                    prod_has_nt(*p, n) implies file_defines(*f, n) by {
                                    assert(prod_has_nt(**l, n) || prod_has_nt(**pr, n));
                                }
                            }
                            None
                        },
                    }
                },
            }
        },
        Prod::Optional(o) => {
            let r = find_undef_prod(f, o);
            proof {
                match &r {
                    Some(m) => {
                        assert(prod_has_nt(*p, m@));
                    },
                    None => {
                        assert forall|n: Seq<u8>| #![trigger prod_has_nt(*p, n)]
                            prod_has_nt(*p, n) implies file_defines(*f, n) by {
                            assert(prod_has_nt(**o, n));
                        }
                    },
                }
            }
            r
        },
        Prod::Star(o) => {
            let r = find_undef_prod(f, o);
            proof {
                match &r {
                    Some(m) => {
                        assert(prod_has_nt(*p, m@));
                    },
                    None => {
                        assert forall|n: Seq<u8>| #![trigger prod_has_nt(*p, n)]
                            prod_has_nt(*p, n) implies file_defines(*f, n) by {
                            assert(prod_has_nt(**o, n));
                        }
                    },
                }
            }
            r
        },
        Prod::Plus(o) => {
            let r = find_undef_prod(f, o);
            proof {
                match &r {
                    Some(m) => {
                        assert(prod_has_nt(*p, m@));
                    },
                    None => {
                        assert forall|n: Seq<u8>| #![trigger prod_has_nt(*p, n)]
                            prod_has_nt(*p, n) implies file_defines(*f, n) by {
                            assert(prod_has_nt(**o, n));
                        }
                    },
                }
            }
            r
        },
        _ => None,
    }
}

/// Find a referenced but undefined name anywhere in the file: the fatal
/// condition of generation.  `None` means the file is closed.
pub fn undefined_reference(f: &File) -> (r: Option<Vec<u8>>)
    ensures
        match r {
            Some(m) => file_has_nt(*f, m@) && !file_defines(*f, m@),
            None => file_closed(*f),
        },
{
    let mut i: usize = 0;
    while i < f.rules.len()
        invariant
            i <= f.rules@.len(),
            forall|q: int, j: int|
                0 <= q < i && 0 <= j < f.rules@[q].prod@.len() ==> prod_closed(
                    *f,
                    #[trigger] f.rules@[q].prod@[j],
                ),
        decreases f.rules@.len() - i,
    {
        let mut j: usize = 0;
        while j < f.rules[i].prod.len()
            invariant
                i < f.rules@.len(),
                j <= f.rules@[i as int].prod@.len(),
                forall|q: int, j2: int|
                    0 <= q < i && 0 <= j2 < f.rules@[q].prod@.len() ==> prod_closed(
                        *f,
                        #[trigger] f.rules@[q].prod@[j2],
                    ),
                forall|j2: int|
                    0 <= j2 < j ==> prod_closed(*f, #[trigger] f.rules@[i as int].prod@[j2]),
            decreases f.rules@[i as int].prod@.len() - j,
        {
            match find_undef_prod(f, &f.rules[i].prod[j]) {
                Some(m) => {
                    proof {
                        assert(file_has_nt(*f, m@));
                    }
                    return Some(m);
                },
                None => {},
            }
            j = j + 1;
        }
        i = i + 1;
    }
    proof {
        assert forall|n: Seq<u8>| #![trigger file_has_nt(*f, n)] file_has_nt(*f, n)
            implies file_defines(*f, n) by {
            let (q, j) = choose|q: int, j: int|
                0 <= q < f.rules@.len() && 0 <= j < f.rules@[q].prod@.len() && prod_has_nt(
                    f.rules@[q].prod@[j],
                    n,
                );
            assert(prod_closed(*f, f.rules@[q].prod@[j]));
        }
    }
    None
}

/// A coin that comes up true with probability about 0.6.
fn coin() -> bool {
    let x: u32 = rand::random::<u32>();
    x % 5 < 3
}

/// A uniformly random index below `n`.
fn random_index(n: usize) -> (r: usize)
    requires
        n >= 1,
    ensures
        r < n,
{
    let x: u32 = rand::random::<u32>();
    (x as usize) % n
}

/// The terminal payload: the text without its surrounding quotes.
fn strip_quotes(t: &Vec<u8>) -> (r: Vec<u8>)
    ensures
        t@.len() >= 2 ==> r@ == t@.subrange(1, t@.len() - 1),
        t@.len() < 2 ==> r@.len() == 0,
{
    let mut r: Vec<u8> = Vec::new();
    if t.len() < 2 {
        return r;
    }
    let mut i: usize = 1;
    while i < t.len() - 1
        invariant
            t@.len() >= 2,
            1 <= i <= t@.len() - 1,
            r@ =~= t@.subrange(1, i as int),
        decreases t@.len() - i,
    {
        r.push(t[i]);
        i = i + 1;
    }
    assert(r@ =~= t@.subrange(1, t@.len() - 1));
    r
}

/// One random derivation step of a production, within `fuel` descents.
/// The derivation is random, so only the deterministic arms and the shape
/// of every outcome can be promised: epsilon yields nothing, a terminal
/// yields its unquoted payload, a concatenation yields its two parts
/// joined by one space, and an exhausted budget yields nothing for a
/// name, an option or a star.
pub fn gen_prod(file: &File, p: &Prod, fuel: usize) -> (out: Vec<u8>)
    requires
        file_closed(*file),
        prod_closed(*file, *p),
    ensures
        p matches Prod::Eps ==> out@.len() == 0,
        p matches Prod::Terminal(t) ==> ((t@.len() >= 2 ==> out@ == t@.subrange(
            1,
            t@.len() - 1,
        )) && (t@.len() < 2 ==> out@.len() == 0)),
        p matches Prod::Concat(l2, r2) ==> exists|u: Seq<u8>, v: Seq<u8>|
            out@ == #[trigger] (u + seq![32u8] + v),
        fuel == 0 && ((p matches Prod::NonTerminal(nn)) || (p matches Prod::Optional(oo)) || (
        p matches Prod::Star(so))) ==> out@.len() == 0,
    decreases fuel, *p,
{
    match p {
        Prod::Eps => Vec::new(),
        Prod::Terminal(t) => strip_quotes(t),
        Prod::NonTerminal(n) => {
            if fuel == 0 {
                return Vec::new();
            }
            let mut ri: usize = 0;
            let mut found: Option<usize> = None;
            while ri < file.rules.len()
                invariant
                    ri <= file.rules@.len(),
                    found matches Some(k) ==> k < file.rules@.len(),
                decreases file.rules@.len() - ri,
            {
                if found.is_none() && bytes_eq(&file.rules[ri].name, n) {
                    found = Some(ri);
                }
                ri = ri + 1;
            }
            match found {
                Some(k) => {
                    if file.rules[k].prod.len() == 0 {
                        return Vec::new();
                    }
                    let alt = random_index(file.rules[k].prod.len());
                    proof {
                        lemma_rule_alt_closed(*file, k as int, alt as int);
                    }
                    gen_prod(file, &file.rules[k].prod[alt], fuel - 1)
                },
                None => crate::bytes::copy_bytes(n),
            }
        },
        Prod::Concat(l, r) => {
            proof {
                lemma_sub_closed(*file, *p, **l);
                lemma_sub_closed(*file, *p, **r);
            }
            let mut out = gen_prod(file, l, fuel);
            let ghost gl = out@;
            let rr = gen_prod(file, r, fuel);
            out.push(32);
            push_bytes(&mut out, &rr);
            proof {
                assert(out@ == gl + seq![32u8] + rr@) by {
                    assert(out@ =~= (gl.push(32u8)) + rr@);
                    assert(gl + seq![32u8] + rr@ =~= (gl.push(32u8)) + rr@);
                }
            }
            out
        },
        Prod::Optional(o) => {
            proof {
                lemma_sub_closed(*file, *p, **o);
            }
            if fuel > 0 && coin() {
                gen_prod(file, o, fuel - 1)
            } else {
                Vec::new()
            }
        },
        Prod::Star(o) => {
            proof {
                lemma_sub_closed(*file, *p, **o);
            }
            let mut out: Vec<u8> = Vec::new();
            if fuel == 0 {
                return out;
            }
            let mut i: usize = 0;
            while i < fuel
                invariant
                    fuel >= 1,
                    file_closed(*file),
                    prod_closed(*file, **o),
                    *p matches Prod::Star(_),
                decreases fuel - i,
            {
                if !coin() {
                    return out;
                }
                let part = gen_prod(file, o, fuel - 1);
                push_bytes(&mut out, &part);
                i = i + 1;
            }
            out
        },
        Prod::Plus(o) => {
            proof {
                lemma_sub_closed(*file, *p, **o);
            }
            let mut out = gen_prod(file, o, fuel);
            if fuel == 0 {
                return out;
            }
            let mut i: usize = 0;
            while i < fuel
                invariant
                    fuel >= 1,
                    file_closed(*file),
                    prod_closed(*file, **o),
                    *p matches Prod::Plus(_),
                decreases fuel - i,
            {
                if !coin() {
                    return out;
                }
                let part = gen_prod(file, o, fuel - 1);
                out.push(32);
                push_bytes(&mut out, &part);
                i = i + 1;
            }
            out
        },
    }
}

/// Closedness passes to any direct subproduction.
proof fn lemma_sub_closed(f: File, p: Prod, sub: Prod)
    requires
        prod_closed(f, p),
        forall|n: Seq<u8>| #![trigger prod_has_nt(sub, n)] prod_has_nt(sub, n) ==> prod_has_nt(p, n),
    ensures
        prod_closed(f, sub),
{
}

/// Closedness of the file passes to each alternative of each rule.
proof fn lemma_rule_alt_closed(f: File, k: int, alt: int)
    requires
        file_closed(f),
        0 <= k < f.rules@.len(),
        0 <= alt < f.rules@[k].prod@.len(),
    ensures
        prod_closed(f, f.rules@[k].prod@[alt]),
{
    assert forall|n: Seq<u8>| #![trigger prod_has_nt(f.rules@[k].prod@[alt], n)]
        prod_has_nt(f.rules@[k].prod@[alt], n) implies file_defines(f, n) by {
        assert(file_has_nt(f, n));
    }
}

/// Random sentence generation with a recursion budget, for a grammar whose
/// references all resolve: an undefined reference is fatal and is checked
/// with [`undefined_reference`] before generation.
pub trait Generate {
    /// What the generator needs of its grammar.
    spec fn gen_wf(&self, file: &File) -> bool;

    fn generate(&self, file: &File, max_level: usize) -> (out: Vec<u8>)
        requires
            self.gen_wf(file),
    ;
}

impl Generate for File {
    /// The file generates from its own start rule.
    open spec fn gen_wf(&self, file: &File) -> bool {
        file_closed(*file) && self.rules@ == file.rules@
    }

    /// Derive from the start rule, or nothing when the file has no rules
    /// or the start rule no alternative.
    fn generate(&self, file: &File, max_level: usize) -> (out: Vec<u8>)
        ensures
            self.rules@.len() == 0 ==> out@.len() == 0,
            self.rules@.len() >= 1 && self.rules@[0].prod@.len() == 0 ==> out@.len() == 0,
    {
        if self.rules.len() == 0 {
            return Vec::new();
        }
        if self.rules[0].prod.len() == 0 {
            return Vec::new();
        }
        let alt = random_index(self.rules[0].prod.len());
        proof {
            lemma_rule_alt_closed(*file, 0, alt as int);
        }
        gen_prod(file, &self.rules[0].prod[alt], max_level)
    }
}

impl Generate for Prod {
    /// A production generates against a grammar that defines what it
    /// references.
    open spec fn gen_wf(&self, file: &File) -> bool {
        file_closed(*file) && prod_closed(*file, *self)
    }

    /// The same promises as [`gen_prod`], whose one derivation step this
    /// is.
    fn generate(&self, file: &File, max_level: usize) -> (out: Vec<u8>)
        ensures
            self matches Prod::Eps ==> out@.len() == 0,
            self matches Prod::Terminal(t) ==> ((t@.len() >= 2 ==> out@ == t@.subrange(
                1,
                t@.len() - 1,
            )) && (t@.len() < 2 ==> out@.len() == 0)),
            self matches Prod::Concat(l2, r2) ==> exists|u: Seq<u8>, v: Seq<u8>|
                out@ == #[trigger] (u + seq![32u8] + v),
            max_level == 0 && ((self matches Prod::NonTerminal(nn)) || (self
                matches Prod::Optional(oo)) || (self matches Prod::Star(so))) ==> out@.len()
                == 0,
    {
        gen_prod(file, self, max_level)
    }
}

} // verus!
