//! A min-priority queue of `(distance, node)` entries, kept as a binary heap.
use vstd::prelude::*;
use vstd::multiset::Multiset;
use vstd::seq_lib::group_to_multiset_ensures;

verus! {

broadcast use group_to_multiset_ensures;

/// Index of the parent of heap slot `i`.
pub open spec fn parent(i: int) -> int {
    (i - 1) / 2
}

/// Every entry's distance is at least its parent's.
pub open spec fn heap_ordered(s: Seq<(u128, usize)>) -> bool {
    forall|i: int| 0 < i < s.len() ==> s[parent(i)].0 <= (#[trigger] s[i]).0
}

/// Heap order, save for the edges from slot `k` down; the parent of `k` is still no
/// larger than the children of `k`.
pub open spec fn ordered_below_except(s: Seq<(u128, usize)>, k: int) -> bool {
    &&& forall|i: int| 0 < i < s.len() && parent(i) != k ==> s[parent(i)].0 <= (#[trigger] s[i]).0
    &&& forall|i: int|
        0 < i < s.len() && parent(i) == k && k > 0 ==> s[parent(k)].0 <= (#[trigger] s[i]).0
}

/// Heap order, save for the edge from slot `k` up; the parent of `k` is still no
/// larger than the children of `k`.
pub open spec fn ordered_above_except(s: Seq<(u128, usize)>, k: int) -> bool {
    &&& forall|i: int| 0 < i < s.len() && i != k ==> s[parent(i)].0 <= (#[trigger] s[i]).0
    &&& forall|i: int|
        0 < i < s.len() && parent(i) == k && k > 0 ==> s[parent(k)].0 <= (#[trigger] s[i]).0
}

proof fn lemma_root_least(s: Seq<(u128, usize)>, i: int)
    requires
        heap_ordered(s),
        0 <= i < s.len(),
    ensures
        s[0].0 <= s[i].0,
    decreases i,
{
    if i > 0 {
        lemma_root_least(s, parent(i));
    }
}

proof fn lemma_no_children(s: Seq<(u128, usize)>, k: int)
    requires
        ordered_below_except(s, k),
        0 <= k,
        k >= s.len() / 2,
    ensures
        heap_ordered(s),
{
    assert forall|i: int| 0 < i < s.len() implies s[parent(i)].0 <= (#[trigger] s[i]).0 by {
        if parent(i) == k {
            assert(i >= 2 * k + 1);
        }
    }
}

proof fn lemma_swap_multiset(s: Seq<(u128, usize)>, i: int, j: int)
    requires
        0 <= i < s.len(),
        0 <= j < s.len(),
        i != j,
    ensures
        s.update(i, s[j]).update(j, s[i]).to_multiset() =~= s.to_multiset(),
{
    let s1 = s.update(i, s[j]);
    assert(s1[j] == s[j]);
    assert(s1.to_multiset() == s.to_multiset().insert(s[j]).remove(s[i]));
    assert(s1.update(j, s[i]).to_multiset() == s1.to_multiset().insert(s[i]).remove(s[j]));
}

/// Entries are kept in a binary heap ordered by distance. Duplicate entries for one
/// node are kept: consumers discard stale ones.
pub struct MinQueue {
    items: Vec<(u128, usize)>,
}

impl View for MinQueue {
    type V = Multiset<(u128, usize)>;

    closed spec fn view(&self) -> Multiset<(u128, usize)> {
        self.items@.to_multiset()
    }
}

impl MinQueue {
    /// The heap order holds.
    pub closed spec fn wf(&self) -> bool {
        heap_ordered(self.items@)
    }

    pub fn new() -> (r: MinQueue)
        ensures
            r.wf(),
            r@ == Multiset::<(u128, usize)>::empty(),
    {
        let r = MinQueue { items: Vec::new() };
        assert(r.items@ =~= Seq::<(u128, usize)>::empty());
        r
    }

    pub fn is_empty(&self) -> (r: bool)
        ensures
            r == (self@.len() == 0),
    {
        self.items.len() == 0
    }

    pub fn push(&mut self, dist: u128, node: usize)
        requires
            old(self).wf(),
        ensures
            final(self).wf(),
            final(self)@ == old(self)@.insert((dist, node)),
    {
        let ghost target = old(self)@.insert((dist, node));
        self.items.push((dist, node));
        let mut k: usize = self.items.len() - 1;
        while k > 0 && self.items[k].0 < self.items[(k - 1) / 2].0
            invariant
                k < self.items@.len(),
                ordered_above_except(self.items@, k as int),
                self.items@.to_multiset() == target,
            decreases k,
        {
            let p = (k - 1) / 2;
            let ghost s = self.items@;
            let a = self.items[k];
            let b = self.items[p];
            self.items.set(p, a);
            self.items.set(k, b);
            proof {
                lemma_swap_multiset(s, p as int, k as int);
                assert(self.items@ == s.update(p as int, s[k as int]).update(k as int, s[p as int]));
                let t = self.items@;
                assert forall|i: int| 0 < i < t.len() && i != p implies t[parent(i)].0 <= (#[trigger] t[i]).0 by {
                    if parent(i) == k as int {
                        assert(s[parent(k as int)].0 <= s[i].0);
                    } else if parent(i) == p as int && i != k {
                        assert(s[p as int].0 <= s[i].0);
                    }
                }
                assert forall|i: int|
                    0 < i < t.len() && parent(i) == p && p > 0 implies t[parent(p as int)].0 <= (#[trigger] t[i]).0 by {
                    assert(s[parent(p as int)].0 <= s[p as int].0);
                    if i != k {
                        assert(s[p as int].0 <= s[i].0);
                    }
                }
            }
            k = p;
        }
        proof {
            assert(heap_ordered(self.items@));
        }
    }

    /// Removes and returns an entry of least distance; ties go to any of them.
    pub fn pop_min(&mut self) -> (r: Option<(u128, usize)>)
        requires
            old(self).wf(),
        ensures
            final(self).wf(),
            old(self)@.len() == 0 ==> r is None && final(self)@ == old(self)@,
            old(self)@.len() > 0 ==> r is Some && old(self)@.contains(r->0) && final(self)@
                == old(self)@.remove(r->0),
            r is Some ==> forall|x: (u128, usize)| #[trigger]
                old(self)@.contains(x) ==> (r->0).0 <= x.0,
    {
        let len = self.items.len();
        if len == 0 {
            return None;
        }
        let ghost s0 = self.items@;
        let top = self.items[0];
        proof {
            assert forall|x: (u128, usize)| #[trigger] s0.to_multiset().contains(x) implies top.0 <= x.0 by {
                let i = choose|i: int| 0 <= i < s0.len() && s0[i] == x;
                lemma_root_least(s0, i);
            }
            assert(s0.contains(top));
            assert(s0.drop_last().push(s0.last()) =~= s0);
        }
        let last = self.items.pop().unwrap();
        if len == 1 {
            proof {
                assert(self.items@.to_multiset() =~= s0.to_multiset().remove(top));
            }
            return Some(top);
        }
        let ghost s1 = self.items@;
        self.items.set(0, last);
        proof {
            assert(self.items@.to_multiset() == s1.to_multiset().insert(last).remove(s1[0]));
            assert(s1[0] == top);
            assert(self.items@.to_multiset() =~= s0.to_multiset().remove(top));
        }
        let n = self.items.len();
        let mut k: usize = 0;
        loop
            invariant
                n == self.items@.len(),
                k < n,
                ordered_below_except(self.items@, k as int),
                self.items@.to_multiset() == s0.to_multiset().remove(top),
            ensures
                heap_ordered(self.items@),
                self.items@.to_multiset() == s0.to_multiset().remove(top),
            decreases n - k,
        {
            if k >= n / 2 {
                proof {
                    lemma_no_children(self.items@, k as int);
                }
                break;
            }
            let l = 2 * k + 1;
            let r = 2 * k + 2;
            let m = if r < n && self.items[r].0 < self.items[l].0 { r } else { l };
            if self.items[m].0 >= self.items[k].0 {
                proof {
                    let t = self.items@;
                    assert forall|i: int| 0 < i < t.len() implies t[parent(i)].0 <= (#[trigger] t[i]).0 by {
                        if parent(i) == k as int {
                            assert(i == l || i == r);
                        }
                    }
                }
                break;
            }
            let ghost s = self.items@;
            let a = self.items[k];
            let b = self.items[m];
            self.items.set(k, b);
            self.items.set(m, a);
            proof {
                lemma_swap_multiset(s, k as int, m as int);
                assert(self.items@ == s.update(k as int, s[m as int]).update(m as int, s[k as int]));
                let t = self.items@;
                assert(parent(l as int) == k && parent(r as int) == k);
                assert forall|i: int| 0 < i < t.len() && parent(i) != m implies t[parent(i)].0 <= (#[trigger] t[i]).0 by {
                    if i == k as int {
                        assert(s[parent(k as int)].0 <= s[m as int].0);
                    } else if parent(i) == k as int && i != m {
                        assert(i == l || i == r);
                    }
                }
                assert forall|i: int|
                    0 < i < t.len() && parent(i) == m && m > 0 implies t[parent(m as int)].0 <= (#[trigger] t[i]).0 by {
                    assert(s[m as int].0 <= s[i].0);
                }
            }
            k = m;
        }
        Some(top)
    }
}

} // verus!
