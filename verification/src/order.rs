//! Sorting by a strict order.

use vstd::prelude::*;

verus! {

/// Values with a strict weak order.
pub trait Ordered: Sized {
    spec fn before(&self, other: &Self) -> bool;

    /// Nothing comes before itself, and both "before" and "not before" are
    /// transitive.
    proof fn order_laws(a: &Self, b: &Self, c: &Self)
        ensures
            !a.before(a),
            a.before(b) && b.before(c) ==> a.before(c),
            !a.before(b) && !b.before(c) ==> !a.before(c),
    ;

    fn comes_before(&self, other: &Self) -> (r: bool)
        ensures
            r == self.before(other),
    ;
}

/// Nothing stands behind something that it comes before.
pub open spec fn is_sorted<T: Ordered>(s: Seq<T>) -> bool {
    forall|i: int, j: int| #![trigger s[j], s[i]] 0 <= i < j < s.len() ==> !s[j].before(&s[i])
}

/// `s` from its end to its start.
fn reversed<T>(v: Vec<T>) -> (r: Vec<T>)
    ensures
        r@ == v@.reverse(),
{
    let mut v = v;
    let ghost all = v@;
    let mut out: Vec<T> = Vec::new();
    while v.len() > 0
        invariant
            v@.len() + out@.len() == all.len(),
            v@ == all.take(v@.len() as int),
            forall|i: int| 0 <= i < out@.len() ==> out@[i] == all[all.len() - 1 - i],
        decreases v@.len(),
    {
        match v.pop() {
            Some(x) => {
                out.push(x);
            },
            None => {},
        }
    }
    assert(out@ =~= all.reverse());
    out
}

/// Sorted from its end.
spec fn is_sorted_back<T: Ordered>(s: Seq<T>) -> bool {
    forall|i: int, j: int| #![trigger s[i], s[j]] 0 <= i < j < s.len() ==> !s[i].before(&s[j])
}

proof fn lemma_reverse_multiset<T>(s: Seq<T>)
    ensures
        s.reverse().to_multiset() == s.to_multiset(),
    decreases s.len(),
{
    broadcast use vstd::seq_lib::group_to_multiset_ensures;

    if s.len() > 0 {
        let t = s.drop_last();
        lemma_reverse_multiset(t);
        assert(s == t.push(s.last()));
        assert(s.reverse() =~= t.reverse().insert(0, s.last()));
    } else {
        assert(s.reverse() =~= s);
    }
}

proof fn lemma_take_multiset<T>(s: Seq<T>, n: int)
    requires
        0 < n <= s.len(),
    ensures
        s.take(n).to_multiset() == s.take(n - 1).to_multiset().insert(s[n - 1]),
{
    broadcast use vstd::seq_lib::group_to_multiset_ensures;

    assert(s.take(n) =~= s.take(n - 1).push(s[n - 1]));
}

/// Merges two sorted vectors.
fn merge<T: Ordered>(a: Vec<T>, b: Vec<T>) -> (r: Vec<T>)
    requires
        is_sorted(a@),
        is_sorted(b@),
    ensures
        is_sorted(r@),
        r@.to_multiset() == a@.to_multiset().add(b@.to_multiset()),
{
    let mut a = a;
    let mut b = b;
    let ghost (x, y) = (a@, b@);
    let mut out: Vec<T> = Vec::new();
    let ghost total = x.to_multiset().add(y.to_multiset());
    proof {
        assert(x.take(x.len() as int) == x);
        assert(y.take(y.len() as int) == y);
        broadcast use vstd::seq_lib::group_to_multiset_ensures;

        assert(out@.to_multiset() =~= vstd::multiset::Multiset::empty());
        assert(a@.to_multiset().add(b@.to_multiset()).add(out@.to_multiset()) =~= total);
    }
    while a.len() > 0 || b.len() > 0
        invariant
            a@.len() <= x.len(),
            b@.len() <= y.len(),
            a@ == x.take(a@.len() as int),
            b@ == y.take(b@.len() as int),
            is_sorted(x),
            is_sorted(y),
            is_sorted_back(out@),
            forall|i: int, j: int| #![trigger out@[j], a@[i]]
                0 <= i < a@.len() && 0 <= j < out@.len() ==> !out@[j].before(&a@[i]),
            forall|i: int, j: int| #![trigger out@[j], b@[i]]
                0 <= i < b@.len() && 0 <= j < out@.len() ==> !out@[j].before(&b@[i]),
            a@.to_multiset().add(b@.to_multiset()).add(out@.to_multiset()) == total,
        decreases a@.len() + b@.len(),
    {
        let from_a: bool = if a.len() == 0 {
            false
        } else if b.len() == 0 {
            true
        } else {
            b[b.len() - 1].comes_before(&a[a.len() - 1])
        };
        let ghost (a0, b0, out0) = (a@, b@, out@);
        proof {
            broadcast use vstd::seq_lib::group_to_multiset_ensures;

            if a0.len() > 0 {
                lemma_take_multiset(x, a0.len() as int);
            }
            if b0.len() > 0 {
                lemma_take_multiset(y, b0.len() as int);
            }
        }
        if from_a {
            match a.pop() {
                Some(v) => {
                    proof {
                        broadcast use vstd::seq_lib::group_to_multiset_ensures;

                        let n = a0.len() - 1;
                        assert(v == x[n]);
                        assert(a@ =~= x.take(n));
                        assert(out0.push(v).to_multiset() =~= out0.to_multiset().insert(v));
                        assert(a@.to_multiset().add(b@.to_multiset()).add(
                            out0.push(v).to_multiset(),
                        ) =~= total);
                        assert forall|i: int| #![trigger b0[i]] 0 <= i < b0.len() implies !v.before(&b0[i]) by {
                            let l = b0.len() - 1;
                            T::order_laws(&v, &b0[l], &b0[i]);
                            T::order_laws(&b0[l], &v, &b0[l]);
                            assert(b0[l] == y[l] && b0[i] == y[i]);
                        }
                        assert forall|i: int| #![trigger a@[i]] 0 <= i < a@.len() implies !v.before(&a@[i]) by {
                            assert(a@[i] == x[i]);
                        }
                        assert forall|i: int, j: int| #![trigger out0[j], a@[i]]
                            0 <= i < a@.len() && 0 <= j < out0.len() implies !out0[j].before(&a@[i]) by {
                            assert(a@[i] == a0[i]);
                        }
                        assert forall|j: int| 0 <= j < out0.len() implies !(
                        #[trigger] out0[j]).before(&v) by {
                            assert(a0[n] == v);
                        }
                    }
                    out.push(v);
                },
                None => {},
            }
        } else {
            match b.pop() {
                Some(v) => {
                    proof {
                        broadcast use vstd::seq_lib::group_to_multiset_ensures;

                        let n = b0.len() - 1;
                        assert(v == y[n]);
                        assert(b@ =~= y.take(n));
                        assert(out0.push(v).to_multiset() =~= out0.to_multiset().insert(v));
                        assert(a@.to_multiset().add(b@.to_multiset()).add(
                            out0.push(v).to_multiset(),
                        ) =~= total);
                        assert forall|i: int| #![trigger a0[i]] 0 <= i < a0.len() implies !v.before(&a0[i]) by {
                            let l = a0.len() - 1;
                            T::order_laws(&v, &a0[l], &a0[i]);
                            assert(a0[l] == x[l] && a0[i] == x[i]);
                        }
                        assert forall|i: int| #![trigger b@[i]] 0 <= i < b@.len() implies !v.before(&b@[i]) by {
                            assert(b@[i] == y[i]);
                        }
                        assert forall|i: int, j: int| #![trigger out0[j], b@[i]]
                            0 <= i < b@.len() && 0 <= j < out0.len() implies !out0[j].before(&b@[i]) by {
                            assert(b@[i] == b0[i]);
                        }
                        assert forall|j: int| 0 <= j < out0.len() implies !(
                        #[trigger] out0[j]).before(&v) by {
                            assert(b0[n] == v);
                        }
                    }
                    out.push(v);
                },
                None => {},
            }
        }
    }
    proof {
        broadcast use vstd::seq_lib::group_to_multiset_ensures;

        assert(a@.to_multiset() =~= vstd::multiset::Multiset::empty());
        assert(b@.to_multiset() =~= vstd::multiset::Multiset::empty());
        assert(out@.to_multiset() =~= total);
        lemma_reverse_multiset(out@);
    }
    let ghost back = out@;
    let r = reversed(out);
    assert forall|i: int, j: int| #![trigger r@[j], r@[i]] 0 <= i < j < r@.len() implies !r@[j].before(&r@[i]) by {
        assert(r@[i] == back[back.len() - 1 - i]);
        assert(r@[j] == back[back.len() - 1 - j]);
    }
    r
}

/// The same values, sorted.
pub fn sort<T: Ordered>(v: Vec<T>) -> (r: Vec<T>)
    ensures
        is_sorted(r@),
        r@.to_multiset() == v@.to_multiset(),
        r@.len() == v@.len(),
    decreases v@.len(),
{
    if v.len() <= 1 {
        return v;
    }
    let mut v = v;
    let ghost all = v@;
    let half: usize = v.len() / 2;
    let w = v.split_off(half);
    proof {
        broadcast use vstd::seq_lib::group_to_multiset_ensures;

        assert(all =~= v@ + w@);
        vstd::seq_lib::lemma_multiset_commutative(v@, w@);
    }
    let a = sort(v);
    let b = sort(w);
    let r = merge(a, b);
    proof {
        broadcast use vstd::seq_lib::group_to_multiset_ensures;

        assert(r@.to_multiset().len() == all.to_multiset().len());
    }
    r
}

/// Sorting neither adds nor loses a value.
pub proof fn lemma_same_members<T>(a: Seq<T>, b: Seq<T>)
    requires
        a.to_multiset() == b.to_multiset(),
    ensures
        a.len() == b.len(),
        forall|x: T| #[trigger] a.contains(x) <==> b.contains(x),
        a.no_duplicates() ==> b.no_duplicates(),
{
    broadcast use vstd::seq_lib::group_to_multiset_ensures;

    vstd::seq_lib::to_multiset_len(a);
    vstd::seq_lib::to_multiset_len(b);
    assert forall|x: T| #[trigger] a.contains(x) <==> b.contains(x) by {
        assert(a.contains(x) <==> a.to_multiset().contains(x));
        assert(b.contains(x) <==> b.to_multiset().contains(x));
    }
    if a.no_duplicates() {
        a.lemma_multiset_has_no_duplicates();
        b.lemma_multiset_has_no_duplicates_conv();
    }
}

} // verus!
