//! A merge sort over any type with a total preorder.

use vstd::prelude::*;
use std::collections::VecDeque;

verus! {

/// A total preorder, decided by `precedes`.
pub trait TotalPreorder: Sized {
    /// `self` may come before `other`.
    spec fn before(self, other: Self) -> bool;

    proof fn lemma_total(a: Self, b: Self)
        ensures
            a.before(b) || b.before(a),
    ;

    proof fn lemma_trans(a: Self, b: Self, c: Self)
        requires
            a.before(b),
            b.before(c),
        ensures
            a.before(c),
    ;

    fn precedes(&self, other: &Self) -> (r: bool)
        ensures
            r == self.before(*other),
    ;
}

/// Every element may come before every later one.
pub open spec fn sorted_seq<T: TotalPreorder>(s: Seq<T>) -> bool {
    forall|i: int, j: int| 0 <= i < j < s.len() ==> (#[trigger] s[i]).before(#[trigger] s[j])
}

fn merge<T: TotalPreorder>(a: VecDeque<T>, b: VecDeque<T>) -> (out: VecDeque<T>)
    requires
        sorted_seq(a@),
        sorted_seq(b@),
    ensures
        sorted_seq(out@),
        out@.to_multiset() == a@.to_multiset().add(b@.to_multiset()),
{
    broadcast use vstd::seq_lib::group_to_multiset_ensures, vstd::multiset::group_multiset_axioms;
    let ghost a0 = a@;
    let ghost b0 = b@;
    let mut ra = a;
    let mut rb = b;
    let mut out: VecDeque<T> = VecDeque::new();
    let ghost mut i: int = 0;
    let ghost mut j: int = 0;
    assert(a0.subrange(0, 0) =~= Seq::<T>::empty());
    assert(b0.subrange(0, 0) =~= Seq::<T>::empty());
    assert(a0.subrange(0, a0.len() as int) =~= a0);
    assert(b0.subrange(0, b0.len() as int) =~= b0);
    while ra.len() > 0 || rb.len() > 0
        invariant
            sorted_seq(a0),
            sorted_seq(b0),
            0 <= i <= a0.len(),
            0 <= j <= b0.len(),
            ra@ == a0.subrange(i, a0.len() as int),
            rb@ == b0.subrange(j, b0.len() as int),
            sorted_seq(out@),
            out@.to_multiset() == a0.subrange(0, i).to_multiset().add(b0.subrange(0, j).to_multiset()),
            out@.len() > 0 && i < a0.len() ==> out@.last().before(a0[i]),
            out@.len() > 0 && j < b0.len() ==> out@.last().before(b0[j]),
        decreases ra@.len() + rb@.len(),
    {
        let take_a = if ra.len() == 0 {
            false
        } else if rb.len() == 0 {
            true
        } else {
            ra[0].precedes(&rb[0])
        };
        let ghost old_out = out@;
        if take_a {
            let x = ra.pop_front().unwrap();
            proof {
                assert(x == a0[i]);
                if j < b0.len() && rb@.len() > 0 {
                    assert(x.before(b0[j]));
                }
                assert forall|k: int| 0 <= k < old_out.len() implies (#[trigger] old_out[k]).before(x) by {
                    if k < old_out.len() - 1 {
                        T::lemma_trans(old_out[k], old_out.last(), x);
                    }
                }
                assert(a0.subrange(0, i + 1) =~= a0.subrange(0, i).push(x));
                a0.subrange(0, i).to_multiset_ensures();
                old_out.to_multiset_ensures();
                assert(a0.subrange(0, i).push(x).to_multiset() == a0.subrange(0, i).to_multiset().insert(x));
                assert(old_out.push(x).to_multiset() == old_out.to_multiset().insert(x));
                if i + 1 < a0.len() {
                    assert(x.before(a0[i + 1]));
                }
                i = i + 1;
            }
            out.push_back(x);
            proof {
                assert(out@ =~= old_out.push(x));
                assert(out@.to_multiset() =~= a0.subrange(0, i).to_multiset().add(b0.subrange(0, j).to_multiset()));
            }
        } else {
            let y = rb.pop_front().unwrap();
            proof {
                assert(y == b0[j]);
                if i < a0.len() {
                    assert(ra@.len() > 0);
                    T::lemma_total(a0[i], y);
                    assert(y.before(a0[i]));
                }
                assert forall|k: int| 0 <= k < old_out.len() implies (#[trigger] old_out[k]).before(y) by {
                    if k < old_out.len() - 1 {
                        T::lemma_trans(old_out[k], old_out.last(), y);
                    }
                }
                assert(b0.subrange(0, j + 1) =~= b0.subrange(0, j).push(y));
                b0.subrange(0, j).to_multiset_ensures();
                old_out.to_multiset_ensures();
                assert(b0.subrange(0, j).push(y).to_multiset() == b0.subrange(0, j).to_multiset().insert(y));
                assert(old_out.push(y).to_multiset() == old_out.to_multiset().insert(y));
                if j + 1 < b0.len() {
                    assert(y.before(b0[j + 1]));
                }
                j = j + 1;
            }
            out.push_back(y);
            proof {
                assert(out@ =~= old_out.push(y));
                assert(out@.to_multiset() =~= a0.subrange(0, i).to_multiset().add(b0.subrange(0, j).to_multiset()));
            }
        }
        proof {
            assert forall|p: int, q: int| 0 <= p < q < out@.len() implies (#[trigger] out@[p]).before(#[trigger] out@[q]) by {
                if q < out@.len() - 1 {
                    assert(out@[p] == old_out[p] && out@[q] == old_out[q]);
                } else {
                    assert(out@[p] == old_out[p]);
                }
            }
        }
    }
    out
}

/// Sorts `v` by `before`: the result is ordered and holds the same elements.
pub fn merge_sort<T: TotalPreorder>(v: VecDeque<T>) -> (r: VecDeque<T>)
    ensures
        sorted_seq(r@),
        r@.to_multiset() == v@.to_multiset(),
    decreases v@.len(),
{
    let n = v.len();
    if n <= 1 {
        return v;
    }
    let mid = n / 2;
    let mut left = v;
    let ghost whole = left@;
    let right = left.split_off(mid);
    proof {
        assert(whole =~= left@ + right@);
        vstd::seq_lib::lemma_multiset_commutative(left@, right@);
    }
    let sl = merge_sort(left);
    let sr = merge_sort(right);
    merge(sl, sr)
}

/// Mapping the elements of two sequences with the same elements gives two
/// sequences with the same elements.
pub proof fn lemma_multiset_map<A, B>(s1: Seq<A>, s2: Seq<A>, f: spec_fn(A) -> B)
    requires
        s1.to_multiset() == s2.to_multiset(),
    ensures
        s1.map_values(f).to_multiset() == s2.map_values(f).to_multiset(),
    decreases s1.len(),
{
    broadcast use vstd::seq_lib::group_to_multiset_ensures, vstd::multiset::group_multiset_axioms;
    s1.to_multiset_ensures();
    s2.to_multiset_ensures();
    if s1.len() == 0 {
        assert(s2.len() == 0);
        assert(s1.map_values(f) =~= s2.map_values(f));
    } else {
        let x = s1.last();
        let t1 = s1.drop_last();
        assert(s1 =~= t1.push(x));
        t1.to_multiset_ensures();
        assert(s1.to_multiset() == t1.to_multiset().insert(x));
        assert(s1.contains(x)) by {
            assert(s1[s1.len() - 1] == x);
        }
        assert(s2.to_multiset().count(x) > 0);
        assert(s2.contains(x));
        let j = choose|j: int| 0 <= j < s2.len() && s2[j] == x;
        let t2 = s2.remove(j);
        assert(t2.to_multiset() == s2.to_multiset().remove(x));
        assert(t1.to_multiset() =~= t2.to_multiset());
        lemma_multiset_map(t1, t2, f);
        let m1 = s1.map_values(f);
        let m2 = s2.map_values(f);
        assert(m1 =~= t1.map_values(f).push(f(x)));
        t1.map_values(f).to_multiset_ensures();
        m2.to_multiset_ensures();
        assert(m2[j] == f(x));
        assert(m2.remove(j) =~= t2.map_values(f));
        assert(m2.remove(j).to_multiset() == m2.to_multiset().remove(f(x)));
        assert(m2.to_multiset().count(f(x)) > 0) by {
            assert(m2.contains(f(x)));
        }
        assert(m1.to_multiset() =~= m2.to_multiset());
    }
}

} // verus!
