//! Putting things in order.

use vstd::prelude::*;

verus! {

/// Things that can be put in order.
pub trait Ranked: Sized {
    /// Whether `self` may stand in front of `other`.
    spec fn ranks(&self, other: &Self) -> bool;

    /// Of any two, one may stand in front of the other.
    proof fn ranks_total(a: &Self, b: &Self)
        ensures
            a.ranks(b) || b.ranks(a),
    ;

    /// What may stand in front of something may stand in front of all behind
    /// it.
    proof fn ranks_transitive(a: &Self, b: &Self, c: &Self)
        requires
            a.ranks(b),
            b.ranks(c),
        ensures
            a.ranks(c),
    ;

    /// Whether `self` may stand in front of `other`.
    fn goes_first(&self, other: &Self) -> (r: bool)
        ensures
            r == self.ranks(other),
    ;
}

/// Whether everything stands in order.
pub open spec fn ordered<T: Ranked>(s: Seq<T>) -> bool {
    forall|i: int, j: int|
        #![trigger s[i], s[j]] 0 <= i < j < s.len() ==> s[i].ranks(&s[j])
}

/// Whether everything stands in order, the last first.
spec fn ordered_back<T: Ranked>(s: Seq<T>) -> bool {
    forall|i: int, j: int|
        #![trigger s[j], s[i]] 0 <= i < j < s.len() ==> s[j].ranks(&s[i])
}

/// One more at the end is one more.
proof fn lemma_push_counted<T>(s: Seq<T>, x: T)
    ensures
        s.push(x).to_multiset() == s.to_multiset().insert(x),
{
    broadcast use vstd::seq_lib::group_to_multiset_ensures;

}

/// The other way round.
fn reversed<T: Ranked>(v: Vec<T>) -> (r: Vec<T>)
    requires
        ordered(v@),
    ensures
        ordered_back(r@),
        r@.to_multiset() == v@.to_multiset(),
        r@.len() == v@.len(),
{
    broadcast use vstd::seq_lib::group_to_multiset_ensures;

    let mut v = v;
    let mut r: Vec<T> = Vec::new();
    let ghost all = v@.to_multiset();
    let ghost n = v@.len();
    assert(v@.to_multiset().add(r@.to_multiset()) =~= all);
    while v.len() > 0
        invariant
            ordered(v@),
            ordered_back(r@),
            v@.to_multiset().add(r@.to_multiset()) == all,
            v@.len() + r@.len() == n,
            forall|i: int, j: int|
        #![trigger v@[i], r@[j]]
                0 <= i < v@.len() && 0 <= j < r@.len() ==> v@[i].ranks(&r@[j]),
        decreases v@.len(),
    {
        let ghost before = v@;
        let ghost had = r@;
        match v.pop() {
            Some(x) => {
                proof {
                    assert(before =~= v@.push(x));
                    assert forall|i: int| 0 <= i < v@.len() implies (#[trigger] v@[i]).ranks(&x) by {
                        assert(before[i].ranks(&before[before.len() - 1]));
                    }
                    assert forall|j: int| #![trigger had[j]] 0 <= j < had.len() implies x.ranks(&had[j]) by {
                        assert(before[before.len() - 1].ranks(&had[j]));
                    }
                    assert forall|i: int, j: int|
        #![trigger v@[i], v@[j]] 0 <= i < j < v@.len() implies v@[i].ranks(&v@[j]) by {
                        assert(before[i].ranks(&before[j]));
                    }
                }
                r.push(x);
                proof {
                    assert(r@ =~= had.push(x));
                    assert forall|i: int, j: int|
        #![trigger r@[j], r@[i]] 0 <= i < j < r@.len() implies r@[j].ranks(&r@[i]) by {
                        if j < had.len() {
                            assert(had[j].ranks(&had[i]));
                        } else {
                            assert(x.ranks(&had[i]));
                        }
                    }
                    assert forall|i: int, j: int|
        #![trigger v@[i], r@[j]] 0 <= i < v@.len() && 0 <= j < r@.len() implies v@[i].ranks(&r@[j]) by {
                        if j < had.len() {
                            assert(before[i].ranks(&had[j]));
                        } else {
                            assert(v@[i].ranks(&x));
                        }
                    }
                    lemma_push_counted(v@, x);
                    lemma_push_counted(had, x);
                    assert(v@.to_multiset().add(r@.to_multiset()) =~= before.to_multiset().add(
                        had.to_multiset(),
                    ));
                }
            },
            None => {},
        }
    }
    assert(v@ =~= Seq::empty());
    assert(r@.to_multiset() =~= all);
    r
}

/// Two runs in order, put together in order. Both come in backwards.
fn merged<T: Ranked>(a: Vec<T>, b: Vec<T>) -> (out: Vec<T>)
    requires
        ordered_back(a@),
        ordered_back(b@),
    ensures
        ordered(out@),
        out@.to_multiset() == a@.to_multiset().add(b@.to_multiset()),
        out@.len() == a@.len() + b@.len(),
{
    broadcast use vstd::seq_lib::group_to_multiset_ensures;

    let mut a = a;
    let mut b = b;
    let mut out: Vec<T> = Vec::new();
    let ghost all = a@.to_multiset().add(b@.to_multiset());
    let ghost n = a@.len() + b@.len();
    assert(out@.to_multiset().add(a@.to_multiset()).add(b@.to_multiset()) =~= all);
    while a.len() > 0 || b.len() > 0
        invariant
            ordered_back(a@),
            ordered_back(b@),
            ordered(out@),
            out@.to_multiset().add(a@.to_multiset()).add(b@.to_multiset()) == all,
            out@.len() + a@.len() + b@.len() == n,
            forall|i: int, j: int|
        #![trigger out@[i], a@[j]]
                0 <= i < out@.len() && 0 <= j < a@.len() ==> out@[i].ranks(&a@[j]),
            forall|i: int, j: int|
        #![trigger out@[i], b@[j]]
                0 <= i < out@.len() && 0 <= j < b@.len() ==> out@[i].ranks(&b@[j]),
        decreases a@.len() + b@.len(),
    {
        let from_a: bool = if a.len() == 0 {
            false
        } else if b.len() == 0 {
            true
        } else {
            a[a.len() - 1].goes_first(&b[b.len() - 1])
        };
        let ghost a0 = a@;
        let ghost b0 = b@;
        let ghost had = out@;
        if from_a {
            match a.pop() {
                Some(x) => {
                    proof {
                        assert(a0 =~= a@.push(x));
                        lemma_taken(a0, b0, had, x, a@);
                        lemma_push_counted(a@, x);
                        lemma_push_counted(had, x);
                    }
                    out.push(x);
                    assert(out@.to_multiset().add(a@.to_multiset()).add(b@.to_multiset())
                        =~= had.to_multiset().add(a0.to_multiset()).add(b0.to_multiset()));
                },
                None => {},
            }
        } else {
            match b.pop() {
                Some(x) => {
                    proof {
                        assert(b0 =~= b@.push(x));
                        if a0.len() > 0 {
                            T::ranks_total(&a0.last(), &b0.last());
                        }
                        lemma_taken(b0, a0, had, x, b@);
                        lemma_push_counted(b@, x);
                        lemma_push_counted(had, x);
                    }
                    out.push(x);
                    assert(out@.to_multiset().add(a@.to_multiset()).add(b@.to_multiset())
                        =~= had.to_multiset().add(a0.to_multiset()).add(b0.to_multiset()));
                },
                None => {},
            }
        }
    }
    assert(a@ =~= Seq::empty());
    assert(b@ =~= Seq::empty());
    assert(out@.to_multiset() =~= all);
    out
}

/// Taking the smaller of two last ones keeps everything in order.
proof fn lemma_taken<T: Ranked>(from: Seq<T>, other: Seq<T>, out: Seq<T>, x: T, left: Seq<T>)
    requires
        from == left.push(x),
        ordered_back(from),
        ordered_back(other),
        ordered(out),
        forall|i: int, j: int|
        #![trigger out[i], from[j]]
            0 <= i < out.len() && 0 <= j < from.len() ==> out[i].ranks(&from[j]),
        forall|i: int, j: int|
        #![trigger out[i], other[j]]
            0 <= i < out.len() && 0 <= j < other.len() ==> out[i].ranks(&other[j]),
        other.len() > 0 ==> x.ranks(&other.last()),
    ensures
        ordered_back(left),
        ordered(out.push(x)),
        forall|i: int, j: int|
        #![trigger out.push(x)[i], left[j]]
            0 <= i < out.push(x).len() && 0 <= j < left.len() ==> out.push(x)[i].ranks(&left[j]),
        forall|i: int, j: int|
        #![trigger out.push(x)[i], other[j]]
            0 <= i < out.push(x).len() && 0 <= j < other.len() ==> out.push(x)[i].ranks(&other[j]),
{
    let k = from.len() - 1;
    assert(from[k] == x);
    assert forall|i: int, j: int|
        #![trigger left[j], left[i]] 0 <= i < j < left.len() implies left[j].ranks(&left[i]) by {
        assert(from[j].ranks(&from[i]));
    }
    assert forall|i: int, j: int|
        #![trigger out.push(x)[i], out.push(x)[j]] 0 <= i < j < out.push(x).len() implies out.push(x)[i].ranks(&out.push(x)[j]) by {
        if j < out.len() {
            assert(out[i].ranks(&out[j]));
        } else {
            assert(out[i].ranks(&from[k]));
        }
    }
    assert forall|i: int, j: int|
        #![trigger out.push(x)[i], left[j]] 0 <= i < out.push(x).len() && 0 <= j < left.len() implies out.push(x)[i].ranks(&left[j]) by {
        assert(left[j] == from[j]);
        if i < out.len() {
            assert(out[i].ranks(&from[j]));
        } else {
            assert(from[k].ranks(&from[j]));
        }
    }
    assert forall|i: int, j: int|
        #![trigger out.push(x)[i], other[j]] 0 <= i < out.push(x).len() && 0 <= j < other.len() implies out.push(x)[i].ranks(&other[j]) by {
        if i < out.len() {
            assert(out[i].ranks(&other[j]));
        } else if j < other.len() - 1 {
            assert(other[other.len() - 1].ranks(&other[j]));
            T::ranks_transitive(&x, &other.last(), &other[j]);
        }
    }
}

/// Put everything in order, by halves.
pub fn sorted<T: Ranked>(v: Vec<T>) -> (out: Vec<T>)
    ensures
        ordered(out@),
        out@.to_multiset() == v@.to_multiset(),
        out@.len() == v@.len(),
    decreases v@.len(),
{
    if v.len() <= 1 {
        return v;
    }
    let mut a = v;
    let ghost all = a@;
    let half: usize = a.len() / 2;
    let b: Vec<T> = a.split_off(half);
    proof {
        assert(all =~= a@ + b@);
        vstd::seq_lib::lemma_multiset_commutative(a@, b@);
    }
    let a: Vec<T> = sorted(a);
    let b: Vec<T> = sorted(b);
    merged(reversed(a), reversed(b))
}

} // verus!
