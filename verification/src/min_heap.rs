//! A priority frontier: a binary min-heap of items with explicit priorities.

use vstd::multiset::*;
use vstd::prelude::*;
use vstd::seq_lib::*;

verus! {

/// A min-priority container. Items with the same priority, and the same item
/// at several priorities, may be held side by side.
pub struct MinHeap<T> {
    data: Vec<(T, u32)>,
}

/// Entry `i` is no smaller than its parent.
pub open spec fn ordered_at<T>(s: Seq<(T, u32)>, i: int) -> bool {
    1 <= i < s.len() ==> s[(i - 1) / 2].1 <= s[i].1
}

/// Every entry is no smaller than its parent.
pub open spec fn heap_ordered<T>(s: Seq<(T, u32)>) -> bool {
    forall|i: int| #[trigger] ordered_at(s, i)
}

/// While an entry rises from `k`: every other entry is no smaller than its
/// parent, and the children of `k` are no smaller than the parent of `k`.
spec fn rising_at<T>(s: Seq<(T, u32)>, k: int, i: int) -> bool {
    &&& 1 <= i < s.len() && i != k ==> s[(i - 1) / 2].1 <= s[i].1
    &&& 1 <= i < s.len() && (i - 1) / 2 == k && k > 0 ==> s[(k - 1) / 2].1 <= s[i].1
}

/// While an entry sinks from `k`: every entry whose parent is not `k` is no
/// smaller than its parent, and the children of `k` are no smaller than the
/// parent of `k`.
spec fn sinking_at<T>(s: Seq<(T, u32)>, k: int, i: int) -> bool {
    &&& 1 <= i < s.len() && (i - 1) / 2 != k ==> s[(i - 1) / 2].1 <= s[i].1
    &&& 1 <= i < s.len() && (i - 1) / 2 == k && k > 0 ==> s[(k - 1) / 2].1 <= s[i].1
}

/// In an ordered heap the first entry is no larger than any other.
proof fn lemma_root_least<T>(s: Seq<(T, u32)>, i: int)
    requires
        heap_ordered(s),
        0 <= i < s.len(),
    ensures
        s[0].1 <= s[i].1,
    decreases i,
{
    if i > 0 {
        assert(ordered_at(s, i));
        lemma_root_least(s, (i - 1) / 2);
    }
}

/// Two entries changing places leaves the bag of entries as it was.
proof fn lemma_swap_keeps_bag<A>(s: Seq<A>, i: int, j: int)
    requires
        0 <= i < s.len(),
        0 <= j < s.len(),
    ensures
        s.update(i, s[j]).update(j, s[i]).to_multiset() == s.to_multiset(),
{
    broadcast use group_multiset_axioms;

    let s1 = s.update(i, s[j]);
    let s2 = s1.update(j, s[i]);
    assert(s1.len() == s.len() && s1[j] == s[j]);
    s.to_multiset_ensures();
    assert(s.contains(s[i]) && s.contains(s[j]));
    to_multiset_update(s, i, s[j]);
    to_multiset_update(s1, j, s[i]);
    assert(s1.to_multiset() == s.to_multiset().insert(s[j]).remove(s[i]));
    assert(s2.to_multiset() == s1.to_multiset().insert(s[i]).remove(s[j]));
    assert(s2.to_multiset() =~= s.to_multiset());
}

fn swap_entries<T: Copy>(data: &mut Vec<(T, u32)>, i: usize, j: usize)
    requires
        i < old(data).len(),
        j < old(data).len(),
    ensures
        final(data)@ == old(data)@.update(i as int, old(data)@[j as int]).update(
            j as int,
            old(data)@[i as int],
        ),
        final(data)@.to_multiset() == old(data)@.to_multiset(),
{
    let a = data[i];
    let b = data[j];
    data[i] = b;
    data[j] = a;
    proof {
        lemma_swap_keeps_bag(old(data)@, i as int, j as int);
    }
}

impl<T: Copy> MinHeap<T> {
    /// The entries held, each as often as it was inserted and not yet taken
    /// out.
    pub closed spec fn view(&self) -> Multiset<(T, u32)> {
        self.data@.to_multiset()
    }

    /// The heap order holds.
    pub closed spec fn wf(&self) -> bool {
        heap_ordered(self.data@)
    }

    /// An empty frontier.
    pub fn new() -> (h: Self)
        ensures
            h.wf(),
            h@ == Multiset::<(T, u32)>::empty(),
    {
        let h = MinHeap { data: Vec::new() };
        proof {
            broadcast use group_multiset_axioms;

            h.data@.to_multiset_ensures();
            assert(h@ =~= Multiset::<(T, u32)>::empty());
        }
        h
    }

    /// The number of entries held.
    pub fn len(&self) -> (n: usize)
        ensures
            n == self@.len(),
    {
        proof {
            self.data@.to_multiset_ensures();
        }
        self.data.len()
    }

    /// Whether no entry is held.
    pub fn is_empty(&self) -> (r: bool)
        ensures
            r == (self@.len() == 0),
    {
        proof {
            self.data@.to_multiset_ensures();
        }
        self.data.len() == 0
    }

    /// Adds an entry. An item already held is added again.
    pub fn insert(&mut self, item: T, priority: u32)
        requires
            old(self).wf(),
        ensures
            final(self).wf(),
            final(self)@ == old(self)@.insert((item, priority)),
            final(self)@.len() == old(self)@.len() + 1,
    {
        self.data.push((item, priority));
        proof {
            old(self).data@.to_multiset_ensures();
            self.data@.to_multiset_ensures();
            let s = self.data@;
            assert forall|i: int| #[trigger] rising_at(s, s.len() - 1, i) by {
                assert(ordered_at(old(self).data@, i));
            }
        }
        let mut k: usize = self.data.len() - 1;
        while k > 0 && self.data[(k - 1) / 2].1 > self.data[k].1
            invariant
                k < self.data.len(),
                self.data@.to_multiset() == old(self)@.insert((item, priority)),
                forall|i: int| #[trigger] rising_at(self.data@, k as int, i),
            decreases k,
        {
            let parent: usize = (k - 1) / 2;
            let ghost s = self.data@;
            swap_entries(&mut self.data, k, parent);
            proof {
                let t = self.data@;
                assert(rising_at(s, k as int, parent as int));
                assert forall|i: int| #[trigger] rising_at(t, parent as int, i) by {
                    assert(rising_at(s, k as int, i));
                }
            }
            k = parent;
        }
        proof {
            let s = self.data@;
            assert forall|i: int| #[trigger] ordered_at(s, i) by {
                assert(rising_at(s, k as int, i));
            }
        }
    }

    /// Takes out an entry of least priority, or returns `None` if none is
    /// held.
    pub fn pop(&mut self) -> (r: Option<(T, u32)>)
        requires
            old(self).wf(),
        ensures
            final(self).wf(),
            match r {
                None => old(self)@.len() == 0 && final(self)@ == old(self)@,
                Some(e) => {
                    &&& old(self)@.count(e) > 0
                    &&& final(self)@ == old(self)@.remove(e)
                    &&& final(self)@.len() == old(self)@.len() - 1
                    &&& forall|x: (T, u32)| old(self)@.count(x) > 0 ==> e.1 <= x.1
                },
            },
    {
        let n: usize = self.data.len();
        let ghost s0 = self.data@;
        proof {
            broadcast use group_multiset_axioms;

            s0.to_multiset_ensures();
            assert forall|x: (T, u32)| s0.to_multiset().count(x) > 0 implies s0[0].1 <= x.1 by {
                assert(s0.contains(x));
                let i = choose|i: int| 0 <= i < s0.len() && s0[i] == x;
                lemma_root_least(s0, i);
            }
        }
        if n == 0 {
            return None;
        }
        let last = self.data.pop().unwrap();
        let ghost s1 = self.data@;
        proof {
            broadcast use group_multiset_axioms;

            assert(s0 =~= s1.push(last));
            s1.to_multiset_ensures();
            assert(s0.to_multiset() =~= s1.to_multiset().insert(last));
            assert forall|i: int| #[trigger] ordered_at(s1, i) by {
                assert(ordered_at(s0, i));
            }
        }
        if n == 1 {
            proof {
                broadcast use group_multiset_axioms;

                assert(s1.to_multiset() =~= s0.to_multiset().remove(last));
            }
            return Some(last);
        }
        let root = self.data[0];
        self.data[0] = last;
        let m: usize = n - 1;
        proof {
            broadcast use group_multiset_axioms;

            let s2 = self.data@;
            to_multiset_update(s1, 0, last);
            assert(s2.to_multiset() =~= s0.to_multiset().remove(root));
            assert forall|i: int| #[trigger] sinking_at(s2, 0, i) by {
                assert(ordered_at(s1, i));
            }
        }
        let mut k: usize = 0;
        let mut settled: bool = false;
        while !settled
            invariant
                m == self.data.len(),
                k < m,
                self.data@.to_multiset() == s0.to_multiset().remove(root),
                forall|i: int| #[trigger] sinking_at(self.data@, k as int, i),
                settled ==> heap_ordered(self.data@),
            decreases
                    (if settled {
                        0int
                    } else {
                        m - k + 1
                    }),
        {
            let ghost s = self.data@;
            if k >= m / 2 {
                settled = true;
                proof {
                    assert forall|i: int| #[trigger] ordered_at(s, i) by {
                        assert(sinking_at(s, k as int, i));
                    }
                }
            } else {
                let left: usize = 2 * k + 1;
                let right: usize = left + 1;
                let child: usize = if right < m && self.data[right].1 < self.data[left].1 {
                    right
                } else {
                    left
                };
                if self.data[k].1 <= self.data[child].1 {
                    settled = true;
                    proof {
                        assert forall|i: int| #[trigger] ordered_at(s, i) by {
                            assert(sinking_at(s, k as int, i));
                        }
                    }
                } else {
                    swap_entries(&mut self.data, k, child);
                    proof {
                        let t = self.data@;
                        assert(sinking_at(s, k as int, child as int));
                        assert(sinking_at(s, k as int, left as int));
                        assert(sinking_at(s, k as int, right as int));
                        assert forall|i: int| #[trigger] sinking_at(t, child as int, i) by {
                            assert(sinking_at(s, k as int, i));
                        }
                    }
                    k = child;
                }
            }
        }
        proof {
            self.data@.to_multiset_ensures();
        }
        Some(root)
    }
}

} // verus!
