use vstd::prelude::*;
use vstd::multiset::Multiset;

verus! {

broadcast use vstd::seq_lib::group_to_multiset_ensures;

/// Whether `a` may stand above `b` in a heap ordered largest first
/// (`max_first`) or smallest first.
pub open spec fn before(max_first: bool, a: i64, b: i64) -> bool {
    if max_first {
        a >= b
    } else {
        a <= b
    }
}

fn ranks_before(max_first: bool, a: i64, b: i64) -> (r: bool)
    ensures
        r == before(max_first, a, b),
{
    if max_first {
        a >= b
    } else {
        a <= b
    }
}

pub open spec fn parent(i: int) -> int {
    (i - 1) / 2
}

/// The heap order on an array: no sample sits above its parent.
pub open spec fn heap_ordered(max_first: bool, s: Seq<i64>) -> bool {
    forall|i: int| 0 < i < s.len() ==> before(max_first, #[trigger] s[parent(i)], s[i])
}

/// A binary heap in an array: a priority collection whose top is its largest
/// sample, or its smallest, as chosen when it is made.
pub struct Heap {
    items: Vec<i64>,
    max_first: bool,
}

impl View for Heap {
    type V = Multiset<i64>;

    /// The samples held.
    closed spec fn view(&self) -> Multiset<i64> {
        self.items@.to_multiset()
    }
}

proof fn lemma_root_first(mf: bool, s: Seq<i64>, i: int)
    requires
        heap_ordered(mf, s),
        0 <= i < s.len(),
    ensures
        before(mf, s[0], s[i]),
    decreases i,
{
    if i > 0 {
        lemma_root_first(mf, s, parent(i));
        assert(before(mf, s[parent(i)], s[i]));
    }
}

impl Heap {
    pub closed spec fn wf(&self) -> bool {
        heap_ordered(self.max_first, self.items@)
    }

    pub closed spec fn is_max_first(&self) -> bool {
        self.max_first
    }

    /// An empty heap.
    pub fn new(max_first: bool) -> (r: Heap)
        ensures
            r.wf(),
            r@ == Multiset::<i64>::empty(),
            r.is_max_first() == max_first,
    {
        let r = Heap { items: Vec::new(), max_first };
        proof {
            assert(r.items@.to_multiset() =~= Multiset::<i64>::empty());
        }
        r
    }

    /// Number of samples held.
    pub fn len(&self) -> (r: usize)
        ensures
            r == self@.len(),
    {
        self.items.len()
    }

    /// The top: a held sample that may stand above every held sample.
    pub fn peek(&self) -> (r: i64)
        requires
            self.wf(),
            self@.len() > 0,
        ensures
            self@.contains(r),
            forall|x: i64| self@.contains(x) ==> before(self.is_max_first(), r, x),
    {
        proof {
            self.lemma_top();
        }
        self.items[0]
    }

    /// The samples held, as some sequence.
    pub proof fn samples(&self) -> (s: Seq<i64>)
        ensures
            s.to_multiset() == self@,
    {
        self.items@
    }

    proof fn lemma_top(&self)
        requires
            self.wf(),
            self@.len() > 0,
        ensures
            self@.contains(self.items@[0]),
            forall|x: i64| self@.contains(x) ==> before(self.max_first, self.items@[0], x),
    {
        let s = self.items@;
        assert(s.contains(s[0]));
        assert forall|x: i64| self@.contains(x) implies before(self.max_first, s[0], x) by {
            assert(s.contains(x));
            let i = choose|i: int| 0 <= i < s.len() && s[i] == x;
            lemma_root_first(self.max_first, s, i);
        }
    }

    /// Adds a sample, moving it up past each parent that may not stand above it.
    pub fn push(&mut self, x: i64)
        requires
            old(self).wf(),
        ensures
            final(self).wf(),
            final(self)@ == old(self)@.insert(x),
            final(self).is_max_first() == old(self).is_max_first(),
    {
        let mf = self.max_first;
        self.items.push(x);
        let mut k: usize = self.items.len() - 1;
        while k > 0 && !ranks_before(mf, self.items[(k - 1) / 2], self.items[k])
            invariant
                mf == self.max_first,
                k < self.items@.len(),
                self.items@.to_multiset() == old(self)@.insert(x),
                forall|i: int|
                    0 < i < self.items@.len() && i != k ==> before(mf, #[trigger] self.items@[parent(i)], self.items@[i]),
                k > 0 ==> forall|c: int|
                    0 < c < self.items@.len() && parent(c) == k ==> before(mf, self.items@[parent(k as int)], #[trigger] self.items@[c]),
            decreases k,
        {
            let p = (k - 1) / 2;
            let a = self.items[p];
            let b = self.items[k];
            let ghost s0 = self.items@;
            self.items[p] = b;
            self.items[k] = a;
            proof {
                assert(self.items@ == s0.update(p as int, b).update(k as int, a));
                assert(s0.update(p as int, b).to_multiset() == s0.to_multiset().insert(b).remove(a));
                assert(s0.update(p as int, b)[k as int] == b);
                let s = self.items@;
                assert forall|i: int| 0 < i < s.len() && i != p implies before(mf, #[trigger] s[parent(i)], s[i]) by {
                    if i == k as int {
                    } else if parent(i) == k as int {
                        assert(before(mf, s0[parent(k as int)], s0[i]));
                    } else if parent(i) == p as int {
                        assert(before(mf, s0[p as int], s0[i]));
                    } else {
                        assert(s0[parent(i)] == s[parent(i)]);
                        if parent(i) != k as int && parent(i) != p as int {
                            assert(before(mf, s0[parent(i)], s0[i]));
                        }
                    }
                }
                if p > 0 {
                    assert(before(mf, s0[parent(p as int)], s0[p as int]));
                    assert forall|c: int| 0 < c < s.len() && parent(c) == p implies before(mf, s[parent(p as int)], #[trigger] s[c]) by {
                        if c != k as int {
                            assert(before(mf, s0[p as int], s0[c]));
                        }
                    }
                }
            }
            k = p;
        }
    }

    /// Removes and returns the top.
    pub fn pop(&mut self) -> (r: i64)
        requires
            old(self).wf(),
            old(self)@.len() > 0,
        ensures
            final(self).wf(),
            old(self)@.contains(r),
            forall|x: i64| old(self)@.contains(x) ==> before(old(self).is_max_first(), r, x),
            final(self)@ == old(self)@.remove(r),
            final(self).is_max_first() == old(self).is_max_first(),
    {
        proof {
            self.lemma_top();
        }
        let top = self.items[0];
        let ghost s0 = self.items@;
        let last = self.items.pop().unwrap();
        proof {
            assert(s0 =~= self.items@.push(last));
        }
        if self.items.len() > 0 {
            let ghost s1 = self.items@;
            self.items[0] = last;
            proof {
                assert(self.items@ == s1.update(0, last));
                assert(s1[0] == top);
                assert(self.items@.to_multiset() =~= s0.to_multiset().remove(top));
                assert forall|i: int|
                    0 < i < self.items@.len() && parent(i) != 0 implies before(
                    self.max_first,
                    #[trigger] self.items@[parent(i)],
                    self.items@[i],
                ) by {
                    assert(before(self.max_first, s0[parent(i)], s0[i]));
                }
            }
            self.sift_down();
        } else {
            proof {
                assert(self.items@.to_multiset() =~= s0.to_multiset().remove(top));
            }
        }
        top
    }

    /// Moves the root down past each child that should stand above it.
    fn sift_down(&mut self)
        requires
            old(self).items@.len() > 0,
            forall|i: int|
                0 < i < old(self).items@.len() && parent(i) != 0 ==> before(
                    old(self).max_first,
                    #[trigger] old(self).items@[parent(i)],
                    old(self).items@[i],
                ),
        ensures
            final(self).wf(),
            final(self)@ == old(self)@,
            final(self).max_first == old(self).max_first,
    {
        let mf = self.max_first;
        let n = self.items.len();
        let mut k: usize = 0;
        loop
            invariant
                mf == self.max_first,
                n == self.items@.len(),
                k < n,
                self.items@.to_multiset() == old(self)@,
                forall|i: int|
                    0 < i < n && parent(i) != k ==> before(mf, #[trigger] self.items@[parent(i)], self.items@[i]),
                k > 0 ==> forall|c: int|
                    0 < c < n && parent(c) == k ==> before(mf, self.items@[parent(k as int)], #[trigger] self.items@[c]),
            ensures
                heap_ordered(mf, self.items@),
                self.items@.to_multiset() == old(self)@,
            decreases n - k,
        {
            if n - 1 - k <= k {
                proof {
                    assert forall|i: int| 0 < i < n implies before(mf, #[trigger] self.items@[parent(i)], self.items@[i]) by {
                        assert(parent(i) != k);
                    }
                }
                break;
            }
            let l = 2 * k + 1;
            let mut m = l;
            if l + 1 < n && ranks_before(mf, self.items[l + 1], self.items[l]) {
                m = l + 1;
            }
            if ranks_before(mf, self.items[k], self.items[m]) {
                proof {
                    let s = self.items@;
                    assert forall|i: int| 0 < i < n implies before(mf, #[trigger] s[parent(i)], s[i]) by {
                        if parent(i) == k {
                            assert(i == l || i == l + 1);
                        }
                    }
                }
                break;
            }
            let a = self.items[k];
            let b = self.items[m];
            let ghost s0 = self.items@;
            self.items[k] = b;
            self.items[m] = a;
            proof {
                assert(self.items@ == s0.update(k as int, b).update(m as int, a));
                assert(s0.update(k as int, b).to_multiset() == s0.to_multiset().insert(b).remove(a));
                assert(s0.update(k as int, b)[m as int] == b);
                let s = self.items@;
                assert(parent(m as int) == k);
                assert forall|i: int| 0 < i < n && parent(i) != m implies before(mf, #[trigger] s[parent(i)], s[i]) by {
                    if i == m as int {
                    } else if parent(i) == k as int {
                        assert(i == l || i == l + 1);
                    } else if i == k as int {
                        assert(before(mf, s0[parent(k as int)], s0[m as int]));
                    } else {
                        assert(before(mf, s0[parent(i)], s0[i]));
                    }
                }
                assert forall|c: int| 0 < c < n && parent(c) == m implies before(mf, s[parent(m as int)], #[trigger] s[c]) by {
                    assert(before(mf, s0[m as int], s0[c]));
                }
            }
            k = m;
        }
    }
}

} // verus!