//! A sorted index of path keys: finds the first and the last position of
//! a key in logarithmic time.

use vstd::prelude::*;
use std::collections::VecDeque;
use crate::compare::{first_with, last_with};
use crate::paths::{
    components_compare, components_order, lemma_components_order_props,
    lemma_components_order_trans,
};
use crate::sort::{merge_sort, sorted_seq, TotalPreorder};

verus! {

/// A key with the position it has in the indexed sequence.
pub struct KeyedPos {
    pub key: Vec<Vec<char>>,
    pub pos: usize,
}

impl TotalPreorder for KeyedPos {
    /// By key, then by position.
    open spec fn before(self, other: Self) -> bool {
        let c = components_order(self.key.deep_view(), other.key.deep_view());
        c < 0 || (c == 0 && self.pos <= other.pos)
    }

    proof fn lemma_total(a: Self, b: Self) {
        lemma_components_order_props(a.key.deep_view(), b.key.deep_view());
    }

    proof fn lemma_trans(a: Self, b: Self, c: Self) {
        let (ka, kb, kc) = (a.key.deep_view(), b.key.deep_view(), c.key.deep_view());
        lemma_components_order_props(ka, kb);
        lemma_components_order_props(kb, kc);
        lemma_components_order_props(ka, kc);
        lemma_components_order_trans(ka, kb, kc);
        if components_order(ka, kc) == 0 {
            lemma_components_order_props(kb, ka);
        }
    }

    fn precedes(&self, other: &Self) -> (r: bool) {
        let c = components_compare(&self.key, &other.key);
        c < 0 || (c == 0 && self.pos <= other.pos)
    }
}

/// Position `j` is listed in `sorted`.
pub open spec fn lists(sorted: Seq<KeyedPos>, j: int) -> bool {
    exists|p: int| 0 <= p < sorted.len() && (#[trigger] sorted[p]).pos == j
}

/// Every element of `s` carries a position of `keys` and the key there,
/// and every position of `keys` is listed.
pub open spec fn describes(s: Seq<KeyedPos>, keys: Seq<Seq<Seq<char>>>) -> bool {
    &&& forall|p: int| 0 <= p < s.len() ==> (#[trigger] s[p]).pos < keys.len() && s[p].key.deep_view() == keys[s[p].pos as int]
    &&& forall|j: int| 0 <= j < keys.len() ==> #[trigger] lists(s, j)
}

/// The last position holding `k`, if any: its key is `k` and no later key is.
pub proof fn lemma_last_with_char(keys: Seq<Seq<Seq<char>>>, k: Seq<Seq<char>>)
    ensures
        match last_with(keys, k) {
            Some(j) => 0 <= j < keys.len() && keys[j] == k && forall|i: int| j < i < keys.len() ==> keys[i] != k,
            None => forall|i: int| 0 <= i < keys.len() ==> keys[i] != k,
        },
    decreases keys.len(),
{
    if keys.len() > 0 && keys.last() != k {
        let init = keys.drop_last();
        lemma_last_with_char(init, k);
        match last_with(init, k) {
            Some(j) => {
                assert forall|i: int| j < i < keys.len() implies keys[i] != k by {
                    if i < init.len() {
                        assert(init[i] == keys[i]);
                    }
                }
                assert(init[j] == keys[j]);
            },
            None => {
                assert forall|i: int| 0 <= i < keys.len() implies keys[i] != k by {
                    if i < init.len() {
                        assert(init[i] == keys[i]);
                    }
                }
            },
        }
    }
}

/// The first position holding `k`, if any: its key is `k` and no earlier key is.
pub proof fn lemma_first_with_char(keys: Seq<Seq<Seq<char>>>, k: Seq<Seq<char>>)
    ensures
        match first_with(keys, k) {
            Some(j) => 0 <= j < keys.len() && keys[j] == k && forall|i: int| 0 <= i < j ==> keys[i] != k,
            None => forall|i: int| 0 <= i < keys.len() ==> keys[i] != k,
        },
    decreases keys.len(),
{
    if keys.len() > 0 {
        let init = keys.drop_last();
        lemma_first_with_char(init, k);
        match first_with(init, k) {
            Some(j) => {
                assert forall|i: int| 0 <= i < j implies keys[i] != k by {
                    assert(init[i] == keys[i]);
                }
                assert(init[j] == keys[j]);
            },
            None => {
                assert forall|i: int| 0 <= i < init.len() implies keys[i] != k by {
                    assert(init[i] == keys[i]);
                }
            },
        }
    }
}

proof fn lemma_describes_permutation(out: Seq<KeyedPos>, inp: Seq<KeyedPos>, keys: Seq<Seq<Seq<char>>>)
    requires
        out.to_multiset() == inp.to_multiset(),
        describes(inp, keys),
    ensures
        describes(out, keys),
{
    broadcast use vstd::seq_lib::group_to_multiset_ensures;
    inp.to_multiset_ensures();
    out.to_multiset_ensures();
    assert forall|p: int| 0 <= p < out.len() implies (#[trigger] out[p]).pos < keys.len() && out[p].key.deep_view() == keys[out[p].pos as int] by {
        assert(out.contains(out[p]));
        assert(out.to_multiset().count(out[p]) > 0);
        assert(inp.to_multiset().count(out[p]) > 0);
        assert(inp.contains(out[p]));
        let i = choose|i: int| 0 <= i < inp.len() && inp[i] == out[p];
        assert(inp[i] == out[p]);
    }
    assert forall|j: int| 0 <= j < keys.len() implies #[trigger] lists(out, j) by {
        assert(lists(inp, j));
        let i = choose|i: int| 0 <= i < inp.len() && (#[trigger] inp[i]).pos == j;
        assert(inp.contains(inp[i]));
        inp.to_multiset_ensures();
        out.to_multiset_ensures();
        assert(inp.to_multiset().count(inp[i]) > 0);
        assert(out.to_multiset().count(inp[i]) > 0);
        assert(out.contains(inp[i]));
        let p = choose|p: int| 0 <= p < out.len() && out[p] == inp[i];
        assert(out[p].pos == j);
    }
}

/// Positions of a sequence of keys, sorted by key.
pub struct KeyIndex {
    sorted: Vec<KeyedPos>,
    keys: Ghost<Seq<Seq<Seq<char>>>>,
}

impl KeyIndex {
    /// The indexed keys, in their order.
    pub closed spec fn keys(&self) -> Seq<Seq<Seq<char>>> {
        self.keys@
    }

    pub closed spec fn wf(&self) -> bool {
        sorted_seq(self.sorted@) && describes(self.sorted@, self.keys@)
    }

    /// The index of `keys`.
    pub fn new(keys: Vec<Vec<Vec<char>>>) -> (idx: Self)
        ensures
            idx.wf(),
            idx.keys() == keys.deep_view(),
    {
        let ghost all = keys.deep_view();
        let mut rest = keys;
        let mut items: VecDeque<KeyedPos> = VecDeque::new();
        while rest.len() > 0
            invariant
                rest.deep_view() == all.subrange(0, rest@.len() as int),
                rest@.len() <= all.len(),
                forall|p: int| 0 <= p < items@.len() ==> rest@.len() <= (#[trigger] items@[p]).pos < all.len() && items@[p].key.deep_view() == all[items@[p].pos as int],
                forall|j: int| rest@.len() <= j < all.len() ==> #[trigger] lists(items@, j),
            decreases rest@.len(),
        {
            let ghost before = items@;
            let ghost n = rest@.len();
            let ghost old_rest = rest@;
            proof {
                assert(rest.deep_view()[n - 1] == old_rest[n - 1].deep_view());
                assert(all.subrange(0, n as int)[n - 1] == all[n - 1]);
            }
            let k = rest.pop().unwrap();
            proof {
                assert(k == old_rest[n - 1]);
                assert(rest.deep_view() =~= all.subrange(0, n - 1));
                assert(k.deep_view() == all[n - 1]);
            }
            items.push_back(KeyedPos { key: k, pos: rest.len() });
            proof {
                assert(items@ =~= before.push(items@.last()));
                assert forall|j: int| rest@.len() <= j < all.len() implies #[trigger] lists(items@, j) by {
                    if j == rest@.len() {
                        assert(items@[before.len() as int].pos == j);
                    } else {
                        assert(lists(before, j));
                        let p = choose|p: int| 0 <= p < before.len() && (#[trigger] before[p]).pos == j;
                        assert(items@[p].pos == j);
                    }
                }
            }
        }
        proof {
            assert(describes(items@, all));
        }
        let ghost inp = items@;
        let sorted = merge_sort(items);
        proof {
            lemma_describes_permutation(sorted@, inp, all);
        }
        let mut out: Vec<KeyedPos> = Vec::new();
        let mut q = sorted;
        let ghost s0 = q@;
        while q.len() > 0
            invariant
                out@ + q@ == s0,
            decreases q@.len(),
        {
            let x = q.pop_front().unwrap();
            out.push(x);
            assert(out@ + q@ =~= s0);
        }
        assert(out@ =~= s0);
        KeyIndex { sorted: out, keys: Ghost(all) }
    }

    /// The number of elements whose key comes at or before `k`.
    fn upper_bound(&self, k: &Vec<Vec<char>>) -> (lo: usize)
        requires
            self.wf(),
        ensures
            lo <= self.sorted@.len(),
            forall|p: int| 0 <= p < lo ==> components_order((#[trigger] self.sorted@[p]).key.deep_view(), k.deep_view()) <= 0,
            forall|p: int| lo <= p < self.sorted@.len() ==> components_order((#[trigger] self.sorted@[p]).key.deep_view(), k.deep_view()) > 0,
    {
        let s = &self.sorted;
        let ghost kk = k.deep_view();
        let mut lo: usize = 0;
        let mut hi: usize = s.len();
        while lo < hi
            invariant
                sorted_seq(s@),
                kk == k.deep_view(),
                0 <= lo <= hi <= s@.len(),
                forall|p: int| 0 <= p < lo ==> components_order((#[trigger] s@[p]).key.deep_view(), kk) <= 0,
                forall|p: int| hi <= p < s@.len() ==> components_order((#[trigger] s@[p]).key.deep_view(), kk) > 0,
            decreases hi - lo,
        {
            let mid = lo + (hi - lo) / 2;
            let c = components_compare(&s[mid].key, k);
            let ghost km = s@[mid as int].key.deep_view();
            if c <= 0 {
                proof {
                    assert forall|p: int| 0 <= p < mid + 1 implies components_order((#[trigger] s@[p]).key.deep_view(), kk) <= 0 by {
                        if p < mid {
                            assert(s@[p].before(s@[mid as int]));
                            lemma_components_order_trans(s@[p].key.deep_view(), km, kk);
                        }
                    }
                }
                lo = mid + 1;
            } else {
                proof {
                    assert forall|p: int| mid <= p < s@.len() implies components_order((#[trigger] s@[p]).key.deep_view(), kk) > 0 by {
                        if mid < p && components_order(s@[p].key.deep_view(), kk) <= 0 {
                            assert(s@[mid as int].before(s@[p]));
                            lemma_components_order_trans(km, s@[p].key.deep_view(), kk);
                        }
                    }
                }
                hi = mid;
            }
        }
        lo
    }

    /// The number of elements whose key comes before `k`.
    fn lower_bound(&self, k: &Vec<Vec<char>>) -> (lo: usize)
        requires
            self.wf(),
        ensures
            lo <= self.sorted@.len(),
            forall|p: int| 0 <= p < lo ==> components_order((#[trigger] self.sorted@[p]).key.deep_view(), k.deep_view()) < 0,
            forall|p: int| lo <= p < self.sorted@.len() ==> components_order((#[trigger] self.sorted@[p]).key.deep_view(), k.deep_view()) >= 0,
    {
        let s = &self.sorted;
        let ghost kk = k.deep_view();
        let mut lo: usize = 0;
        let mut hi: usize = s.len();
        while lo < hi
            invariant
                sorted_seq(s@),
                kk == k.deep_view(),
                0 <= lo <= hi <= s@.len(),
                forall|p: int| 0 <= p < lo ==> components_order((#[trigger] s@[p]).key.deep_view(), kk) < 0,
                forall|p: int| hi <= p < s@.len() ==> components_order((#[trigger] s@[p]).key.deep_view(), kk) >= 0,
            decreases hi - lo,
        {
            let mid = lo + (hi - lo) / 2;
            let c = components_compare(&s[mid].key, k);
            let ghost km = s@[mid as int].key.deep_view();
            if c < 0 {
                proof {
                    assert forall|p: int| 0 <= p < mid + 1 implies components_order((#[trigger] s@[p]).key.deep_view(), kk) < 0 by {
                        if p < mid {
                            let kp = s@[p].key.deep_view();
                            assert(s@[p].before(s@[mid as int]));
                            lemma_components_order_trans(kp, km, kk);
                            lemma_components_order_props(kp, kk);
                            lemma_components_order_props(km, kk);
                            lemma_components_order_props(kp, km);
                        }
                    }
                }
                lo = mid + 1;
            } else {
                proof {
                    assert forall|p: int| mid <= p < s@.len() implies components_order((#[trigger] s@[p]).key.deep_view(), kk) >= 0 by {
                        if mid < p && components_order(s@[p].key.deep_view(), kk) < 0 {
                            let kp = s@[p].key.deep_view();
                            assert(s@[mid as int].before(s@[p]));
                            lemma_components_order_trans(km, kp, kk);
                            lemma_components_order_props(km, kk);
                            lemma_components_order_props(kp, kk);
                            lemma_components_order_props(km, kp);
                        }
                    }
                }
                hi = mid;
            }
        }
        lo
    }

    /// The last position whose key is `k`.
    pub fn last_pos(&self, k: &Vec<Vec<char>>) -> (r: Option<usize>)
        requires
            self.wf(),
        ensures
            match last_with(self.keys(), k.deep_view()) {
                Some(j) => r == Some(j as usize),
                None => r is None,
            },
    {
        let ghost keys = self.keys@;
        let ghost kk = k.deep_view();
        let s = &self.sorted;
        let hi = self.upper_bound(k);
        proof {
            lemma_last_with_char(keys, kk);
        }
        if hi == 0 || components_compare(&s[hi - 1].key, k) != 0 {
            proof {
                assert forall|i: int| 0 <= i < keys.len() implies keys[i] != kk by {
                    assert(lists(s@, i));
                    let p = choose|p: int| 0 <= p < s@.len() && (#[trigger] s@[p]).pos == i;
                    if keys[i] == kk {
                        lemma_components_order_props(kk, kk);
                        assert(p < hi);
                        if p < hi - 1 {
                            assert(s@[p].before(s@[hi - 1]));
                            lemma_components_order_trans(s@[hi - 1].key.deep_view(), kk, kk);
                            lemma_components_order_props(kk, s@[hi - 1].key.deep_view());
                            lemma_components_order_props(s@[hi - 1].key.deep_view(), kk);
                        }
                        lemma_components_order_props(s@[hi - 1].key.deep_view(), kk);
                    }
                }
            }
            return None;
        }
        let j = s[hi - 1].pos;
        proof {
            let kl = s@[hi - 1].key.deep_view();
            lemma_components_order_props(kl, kk);
            assert(keys[j as int] == kk);
            assert forall|i: int| j < i < keys.len() implies keys[i] != kk by {
                if keys[i] == kk {
                    assert(lists(s@, i));
                    let p = choose|p: int| 0 <= p < s@.len() && (#[trigger] s@[p]).pos == i;
                    lemma_components_order_props(kk, kk);
                    assert(p < hi);
                    if p < hi - 1 {
                        assert(s@[p].before(s@[hi - 1]));
                    }
                }
            }
        }
        Some(j)
    }

    /// The first position whose key is `k`.
    pub fn first_pos(&self, k: &Vec<Vec<char>>) -> (r: Option<usize>)
        requires
            self.wf(),
        ensures
            match first_with(self.keys(), k.deep_view()) {
                Some(j) => r == Some(j as usize),
                None => r is None,
            },
    {
        let ghost keys = self.keys@;
        let ghost kk = k.deep_view();
        let s = &self.sorted;
        let lo = self.lower_bound(k);
        proof {
            lemma_first_with_char(keys, kk);
        }
        if lo == s.len() || components_compare(&s[lo].key, k) != 0 {
            proof {
                assert forall|i: int| 0 <= i < keys.len() implies keys[i] != kk by {
                    assert(lists(s@, i));
                    let p = choose|p: int| 0 <= p < s@.len() && (#[trigger] s@[p]).pos == i;
                    if keys[i] == kk {
                        lemma_components_order_props(kk, kk);
                        assert(p >= lo);
                        if p > lo {
                            assert(s@[lo as int].before(s@[p]));
                            lemma_components_order_props(s@[lo as int].key.deep_view(), kk);
                            lemma_components_order_props(kk, s@[lo as int].key.deep_view());
                        }
                    }
                }
            }
            return None;
        }
        let j = s[lo].pos;
        proof {
            let kl = s@[lo as int].key.deep_view();
            lemma_components_order_props(kl, kk);
            assert(keys[j as int] == kk);
            assert forall|i: int| 0 <= i < j implies keys[i] != kk by {
                if keys[i] == kk {
                    assert(lists(s@, i));
                    let p = choose|p: int| 0 <= p < s@.len() && (#[trigger] s@[p]).pos == i;
                    lemma_components_order_props(kk, kk);
                    assert(p >= lo);
                    if p > lo {
                        assert(s@[lo as int].before(s@[p]));
                    }
                }
            }
        }
        Some(j)
    }
}

} // verus!
