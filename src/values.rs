//! Finite sets of values held as duplicate-free vectors.
use vstd::prelude::*;

verus! {

/// The set of values that a vector holds.
pub open spec fn set_of(s: Seq<u64>) -> Set<u64> {
    Set::new(|x: u64| s.contains(x))
}

/// Appending `e` adds exactly `e` to what a sequence contains.
pub proof fn lemma_push_contains(s: Seq<u64>, e: u64)
    ensures
        forall|x: u64| #[trigger] s.push(e).contains(x) <==> (s.contains(x) || x == e),
        set_of(s.push(e)) == set_of(s).insert(e),
        s.no_duplicates() && !s.contains(e) ==> s.push(e).no_duplicates(),
{
    assert forall|x: u64| #[trigger] s.push(e).contains(x) <==> (s.contains(x) || x == e) by {
        if s.contains(x) {
            let j = choose|j: int| 0 <= j < s.len() && s[j] == x;
            assert(s.push(e)[j] == x);
        }
        if x == e {
            assert(s.push(e)[s.len() as int] == e);
        }
        if s.push(e).contains(x) {
            let j = choose|j: int| 0 <= j < s.push(e).len() && s.push(e)[j] == x;
            if j < s.len() {
                assert(s[j] == x);
            }
        }
    }
    assert(set_of(s.push(e)) =~= set_of(s).insert(e));
    if s.no_duplicates() && !s.contains(e) {
        assert forall|i: int, j: int|
            0 <= i < s.push(e).len() && 0 <= j < s.push(e).len() && i != j implies s.push(e)[i]
            != s.push(e)[j] by {
            if i < s.len() && j < s.len() {
                assert(s[i] != s[j]);
            } else if i < s.len() {
                assert(s.contains(s[i]));
            } else if j < s.len() {
                assert(s.contains(s[j]));
            }
        }
    }
}

/// Whether `x` occurs in `v`.
pub fn contains(v: &Vec<u64>, x: u64) -> (r: bool)
    ensures
        r == v@.contains(x),
{
    let mut i: usize = 0;
    while i < v.len()
        invariant
            0 <= i <= v@.len(),
            forall|j: int| 0 <= j < i ==> v@[j] != x,
        decreases v@.len() - i,
    {
        if v[i] == x {
            return true;
        }
        i = i + 1;
    }
    false
}

/// Adds `x` to `v` unless it is already there.
pub fn insert(v: &mut Vec<u64>, x: u64)
    requires
        old(v)@.no_duplicates(),
    ensures
        final(v)@.no_duplicates(),
        set_of(final(v)@) == set_of(old(v)@).insert(x),
        old(v)@.contains(x) ==> final(v)@ == old(v)@,
        !old(v)@.contains(x) ==> final(v)@ == old(v)@.push(x),
{
    if !contains(v, x) {
        proof {
            lemma_push_contains(v@, x);
        }
        v.push(x);
    } else {
        assert(set_of(old(v)@) =~= set_of(old(v)@).insert(x));
    }
}

/// Adds to `v` every value of `xs` that it does not hold yet.
pub fn extend(v: &mut Vec<u64>, xs: &Vec<u64>)
    requires
        old(v)@.no_duplicates(),
    ensures
        final(v)@.no_duplicates(),
        set_of(final(v)@) == set_of(old(v)@).union(set_of(xs@)),
{
    let mut i: usize = 0;
    while i < xs.len()
        invariant
            0 <= i <= xs@.len(),
            v@.no_duplicates(),
            set_of(v@) == set_of(old(v)@).union(set_of(xs@.subrange(0, i as int))),
        decreases xs@.len() - i,
    {
        insert(v, xs[i]);
        assert(xs@.subrange(0, i + 1) =~= xs@.subrange(0, i as int).push(xs@[i as int]));
        proof {
            lemma_push_contains(xs@.subrange(0, i as int), xs@[i as int]);
        }
        assert(set_of(v@) =~= set_of(old(v)@).union(set_of(xs@.subrange(0, i + 1))));
        i = i + 1;
    }
    assert(xs@.subrange(0, xs@.len() as int) =~= xs@);
}

/// The values of `a` that `b` does not hold (when `keep_common` is false), or
/// those that it does hold (when it is true), in the order of `a`.
fn split_by(a: &Vec<u64>, b: &Vec<u64>, keep_common: bool) -> (r: Vec<u64>)
    requires
        a@.no_duplicates(),
    ensures
        r@.no_duplicates(),
        set_of(r@) == (if keep_common {
            set_of(a@).intersect(set_of(b@))
        } else {
            set_of(a@).difference(set_of(b@))
        }),
{
    let mut r: Vec<u64> = Vec::new();
    let mut i: usize = 0;
    while i < a.len()
        invariant
            0 <= i <= a@.len(),
            a@.no_duplicates(),
            r@.no_duplicates(),
            forall|x: u64| r@.contains(x) <==> (exists|j: int|
                0 <= j < i && a@[j] == x && b@.contains(x) == keep_common),
        decreases a@.len() - i,
    {
        let x = a[i];
        let ghost r0 = r@;
        if contains(b, x) == keep_common {
            proof {
                assert forall|j: int| 0 <= j < i implies a@[j] != x by {
                    assert(a@[j] != a@[i as int]);
                }
                lemma_push_contains(r@, x);
            }
            r.push(x);
        }
        proof {
            assert forall|y: u64| r@.contains(y) <==> (exists|j: int|
                0 <= j < i + 1 && a@[j] == y && b@.contains(y) == keep_common) by {
                if y == x && b@.contains(y) == keep_common {
                    assert(a@[i as int] == y);
                }
                if exists|j: int| 0 <= j < i + 1 && a@[j] == y && b@.contains(y) == keep_common {
                    let j = choose|j: int| 0 <= j < i + 1 && a@[j] == y && b@.contains(y) == keep_common;
                    if j < i {
                        assert(r0.contains(y));
                    }
                }
            }
        }
        i = i + 1;
    }
    let ghost want = if keep_common {
        set_of(a@).intersect(set_of(b@))
    } else {
        set_of(a@).difference(set_of(b@))
    };
    assert(set_of(r@) =~= want);
    r
}

/// The values of `a` that `b` does not hold.
pub fn difference(a: &Vec<u64>, b: &Vec<u64>) -> (r: Vec<u64>)
    requires
        a@.no_duplicates(),
    ensures
        r@.no_duplicates(),
        set_of(r@) == set_of(a@).difference(set_of(b@)),
{
    split_by(a, b, false)
}

/// The values of `a` that `b` holds too.
pub fn intersection(a: &Vec<u64>, b: &Vec<u64>) -> (r: Vec<u64>)
    requires
        a@.no_duplicates(),
    ensures
        r@.no_duplicates(),
        set_of(r@) == set_of(a@).intersect(set_of(b@)),
{
    split_by(a, b, true)
}

/// A copy of `v`.
pub fn copy_of(v: &Vec<u64>) -> (r: Vec<u64>)
    ensures
        r@ == v@,
{
    let mut r: Vec<u64> = Vec::new();
    let mut i: usize = 0;
    while i < v.len()
        invariant
            0 <= i <= v@.len(),
            r@ == v@.subrange(0, i as int),
        decreases v@.len() - i,
    {
        r.push(v[i]);
        assert(r@ =~= v@.subrange(0, i + 1));
        i = i + 1;
    }
    assert(r@ =~= v@);
    r
}

/// The values `a[i]` whose flag `keep[i]` is set.
pub open spec fn picked(a: Seq<u64>, keep: Seq<bool>) -> Set<u64> {
    Set::new(|x: u64| exists|i: int| 0 <= i < a.len() && i < keep.len() && keep[i] && a[i] == x)
}

/// The values `a[i]` whose flag `keep[i]` is set and that `b` holds, in the
/// order of `a`.
pub fn pick(a: &Vec<u64>, keep: &Vec<bool>, b: &Vec<u64>) -> (r: Vec<u64>)
    requires
        a@.no_duplicates(),
    ensures
        r@.no_duplicates(),
        set_of(r@) == picked(a@, keep@).intersect(set_of(b@)),
{
    let mut r: Vec<u64> = Vec::new();
    let mut i: usize = 0;
    while i < a.len()
        invariant
            0 <= i <= a@.len(),
            a@.no_duplicates(),
            r@.no_duplicates(),
            forall|x: u64| r@.contains(x) <==> (exists|j: int|
                0 <= j < i && j < keep@.len() && keep@[j] && a@[j] == x && b@.contains(x)),
        decreases a@.len() - i,
    {
        let x = a[i];
        let ghost r0 = r@;
        let wanted = i < keep.len() && keep[i] && contains(b, x);
        if wanted {
            proof {
                assert forall|j: int| 0 <= j < i implies a@[j] != x by {
                    assert(a@[j] != a@[i as int]);
                }
                lemma_push_contains(r@, x);
            }
            r.push(x);
        }
        proof {
            assert forall|y: u64| r@.contains(y) <==> (exists|j: int|
                0 <= j < i + 1 && j < keep@.len() && keep@[j] && a@[j] == y && b@.contains(y)) by {
                if y == x && wanted {
                    assert(a@[i as int] == y);
                }
                if exists|j: int| 0 <= j < i + 1 && j < keep@.len() && keep@[j] && a@[j] == y && b@.contains(y) {
                    let j = choose|j: int|
                        0 <= j < i + 1 && j < keep@.len() && keep@[j] && a@[j] == y && b@.contains(y);
                    if j < i {
                        assert(r0.contains(y));
                    }
                }
            }
        }
        i = i + 1;
    }
    assert(set_of(r@) =~= picked(a@, keep@).intersect(set_of(b@)));
    r
}

/// A vector holds finitely many values.
pub proof fn lemma_set_of_finite(s: Seq<u64>)
    ensures
        set_of(s).finite(),
{
    assert(set_of(s) =~= s.to_set());
    vstd::seq_lib::seq_to_set_is_finite(s);
}

/// A duplicate-free vector holds as many values as its length.
pub proof fn lemma_set_of_len(s: Seq<u64>)
    requires
        s.no_duplicates(),
    ensures
        set_of(s).len() == s.len(),
        set_of(s).finite(),
{
    s.unique_seq_to_set();
    assert(set_of(s) =~= s.to_set());
}

} // verus!
