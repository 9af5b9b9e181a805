use vstd::prelude::*;
use vstd::multiset::Multiset;
use crate::order::{Middle, median_of, twice, ascending, sorted_of, lemma_sorted_is_sorted_of, lemma_least_is_first, lemma_greatest_is_last};
use crate::heap::Heap;

verus! {

broadcast use vstd::seq_lib::group_to_multiset_ensures;

/// The sizes of the two halves after one more sample `x` arrives, given their
/// sizes `sp` and the median `m` before it. The first sample goes to the lower
/// half; after that a sample above the median goes to the upper half, one below
/// it to the lower half, and one equal to it to the smaller half (the lower one
/// when they are of one size). Then one sample moves across if the halves
/// differ in size by two.
pub open spec fn next_split(sp: (int, int), m: Middle, x: i64) -> (int, int) {
    let lo = sp.0;
    let up = sp.1;
    let to_lower = lo + up == 0 || 2 * x < twice(m) || (2 * x == twice(m) && lo <= up);
    if to_lower {
        balanced(lo + 1, up)
    } else {
        balanced(lo, up + 1)
    }
}

/// Sizes after one sample moves across when the halves differ by two.
pub open spec fn balanced(l: int, u: int) -> (int, int) {
    if l == u + 2 {
        (l - 1, u + 1)
    } else if u == l + 2 {
        (l + 1, u - 1)
    } else {
        (l, u)
    }
}

/// No sample of the lower half `l` lies above a sample of the upper half `u`.
pub open spec fn halves_ordered(l: Multiset<i64>, u: Multiset<i64>) -> bool {
    forall|a: i64, b: i64| #[trigger] l.contains(a) && #[trigger] u.contains(b) ==> a <= b
}

/// The sizes of the lower and upper halves after the stream `s` has been fed.
pub open spec fn split_of(s: Seq<i64>) -> (int, int)
    decreases s.len(),
{
    if s.len() == 0 {
        (0, 0)
    } else {
        let p = s.drop_last();
        next_split(split_of(p), median_of(p), s.last())
    }
}

/// The middle read off the sizes and the tops of two halves.
pub open spec fn middle_of_halves(nl: int, nu: int, lt: i64, ut: i64) -> Middle {
    if nl == 0 && nu == 0 {
        Middle::Empty
    } else if nl > nu {
        Middle::Single(lt)
    } else if nu > nl {
        Middle::Single(ut)
    } else {
        Middle::Pair(lt, ut)
    }
}

/// `t` is the largest sample of `m`, when `m` holds any.
pub open spec fn is_top_max(m: Multiset<i64>, t: i64) -> bool {
    m.len() > 0 ==> m.contains(t) && forall|a: i64| #[trigger] m.contains(a) ==> a <= t
}

/// `t` is the smallest sample of `m`, when `m` holds any.
pub open spec fn is_top_min(m: Multiset<i64>, t: i64) -> bool {
    m.len() > 0 ==> m.contains(t) && forall|a: i64| #[trigger] m.contains(a) ==> t <= a
}

/// Two ordered halves within one of each other in size hold the middle of the
/// stream at their tops.
proof fn lemma_middle(l: Seq<i64>, u: Seq<i64>, s: Seq<i64>, lt: i64, ut: i64)
    requires
        halves_ordered(l.to_multiset(), u.to_multiset()),
        l.to_multiset().add(u.to_multiset()) == s.to_multiset(),
        -1 <= l.len() - u.len() <= 1,
        is_top_max(l.to_multiset(), lt),
        is_top_min(u.to_multiset(), ut),
    ensures
        median_of(s) == middle_of_halves(l.len() as int, u.len() as int, lt, ut),
{
    let tl = sorted_of(l);
    let tu = sorted_of(u);
    crate::order::lemma_sample_le_total();
    l.lemma_sort_by_ensures(crate::order::sample_le());
    u.lemma_sort_by_ensures(crate::order::sample_le());
    assert(tl.to_multiset().len() == tl.len());
    assert(tu.to_multiset().len() == tu.len());
    assert(l.to_multiset().len() == l.len());
    assert(u.to_multiset().len() == u.len());
    let t = tl + tu;
    vstd::seq_lib::lemma_multiset_commutative(tl, tu);
    assert(ascending(t)) by {
        assert forall|i: int, j: int| 0 <= i <= j < t.len() implies t[i] <= t[j] by {
            if j < tl.len() {
                assert(crate::order::sample_le()(tl[i], tl[j]) || i == j);
            } else if i >= tl.len() {
                assert(t[i] == tu[i - tl.len()]);
                assert(t[j] == tu[j - tl.len()]);
                assert(crate::order::sample_le()(tu[i - tl.len()], tu[j - tl.len()]) || i == j);
            } else {
                assert(t[j] == tu[j - tl.len()]);
                assert(tl.to_multiset().count(tl[i]) > 0);
                assert(tu.to_multiset().count(tu[j - tl.len()]) > 0);
                assert(l.to_multiset().contains(t[i]));
                assert(u.to_multiset().contains(t[j]));
            }
        }
    }
    lemma_sorted_is_sorted_of(t, s);
    let n = t.len() as int;
    assert(t.to_multiset().len() == t.len());
    assert(s.to_multiset().len() == s.len());
    if l.len() > 0 {
        assert(l.contains(lt)) by {
            assert(l.to_multiset().count(lt) > 0);
        }
        assert forall|i: int| 0 <= i < l.len() implies l[i] <= lt by {
            assert(l.to_multiset().count(l[i]) > 0);
            assert(l.to_multiset().contains(l[i]));
        }
        lemma_greatest_is_last(l, lt);
        assert(t[tl.len() - 1] == tl.last());
    }
    if u.len() > 0 {
        assert(u.contains(ut)) by {
            assert(u.to_multiset().count(ut) > 0);
        }
        assert forall|i: int| 0 <= i < u.len() implies ut <= u[i] by {
            assert(u.to_multiset().count(u[i]) > 0);
            assert(u.to_multiset().contains(u[i]));
        }
        lemma_least_is_first(u, ut);
        assert(t[tl.len() as int] == tu[0]);
    }
    if l.len() > u.len() {
        assert(n / 2 == l.len() - 1);
    } else if u.len() > l.len() {
        assert(n / 2 == l.len());
    } else if n > 0 {
        assert(n / 2 == l.len());
    }
}

/// A running median over a stream of samples.
///
/// The samples seen so far are split into a lower half, a heap whose top is
/// its largest sample, and an upper half, a heap whose top is its smallest;
/// the median is cached after each update.
pub struct Median {
    lower: Heap,
    upper: Heap,
    med: Middle,
    fed: Ghost<Seq<i64>>,
}

impl View for Median {
    type V = Seq<i64>;

    /// The samples fed so far, in order.
    closed spec fn view(&self) -> Seq<i64> {
        self.fed@
    }
}

impl Median {
    /// Number of samples in the lower half.
    pub closed spec fn lower_size(&self) -> int {
        self.lower@.len() as int
    }

    /// Number of samples in the upper half.
    pub closed spec fn upper_size(&self) -> int {
        self.upper@.len() as int
    }

    pub closed spec fn wf(&self) -> bool {
        &&& self.lower.wf()
        &&& self.upper.wf()
        &&& self.lower.is_max_first()
        &&& !self.upper.is_max_first()
        &&& halves_ordered(self.lower@, self.upper@)
        &&& self.lower@.add(self.upper@) == self.fed@.to_multiset()
        &&& (self.lower@.len() as int, self.upper@.len() as int) == split_of(self.fed@)
        &&& -1 <= self.lower@.len() - self.upper@.len() <= 1
        &&& self.med == median_of(self.fed@)
    }

    /// An empty running median.
    pub fn new() -> (r: Median)
        ensures
            r.wf(),
            r@ == Seq::<i64>::empty(),
            r.lower_size() == 0,
            r.upper_size() == 0,
    {
        let r = Median {
            lower: Heap::new(true),
            upper: Heap::new(false),
            med: Middle::Empty,
            fed: Ghost(Seq::empty()),
        };
        proof {
            assert(r.lower@.add(r.upper@) =~= r.fed@.to_multiset());
        }
        r
    }

    /// The median of the samples fed so far.
    pub fn get(&self) -> (r: Middle)
        requires
            self.wf(),
        ensures
            r == median_of(self@),
    {
        self.med
    }

    /// Number of samples in the lower half.
    pub fn lower_len(&self) -> (r: usize)
        ensures
            r == self.lower_size(),
    {
        self.lower.len()
    }

    /// Number of samples in the upper half.
    pub fn upper_len(&self) -> (r: usize)
        ensures
            r == self.upper_size(),
    {
        self.upper.len()
    }

    /// The sizes of the halves are those that the samples fed so far give.
    pub proof fn lemma_wf_split(&self)
        requires
            self.wf(),
        ensures
            (self.lower_size(), self.upper_size()) == split_of(self@),
            -1 <= self.lower_size() - self.upper_size() <= 1,
    {
    }

    /// The tops of the two halves (0 for an empty half).
    fn tops(&self) -> (r: (i64, i64))
        requires
            self.lower.wf(),
            self.upper.wf(),
            self.lower.is_max_first(),
            !self.upper.is_max_first(),
        ensures
            is_top_max(self.lower@, r.0),
            is_top_min(self.upper@, r.1),
    {
        let lt = if self.lower.len() > 0 { self.lower.peek() } else { 0 };
        let ut = if self.upper.len() > 0 { self.upper.peek() } else { 0 };
        (lt, ut)
    }

    /// Feeds one more sample: routes it to a half by comparison with the
    /// current median, restores the balance of the halves, and refreshes the
    /// cached median.
    pub fn update(&mut self, x: i64)
        requires
            old(self).wf(),
        ensures
            final(self).wf(),
            final(self)@ == old(self)@.push(x),
            (final(self).lower_size(), final(self).upper_size()) == next_split(
                (old(self).lower_size(), old(self).upper_size()),
                median_of(old(self)@),
                x,
            ),
            -1 <= final(self).lower_size() - final(self).upper_size() <= 1,
    {
        let (lt, ut) = self.tops();
        proof {
            let l = self.lower.samples();
            let u = self.upper.samples();
            lemma_middle(l, u, self.fed@, lt, ut);
        }
        let ghost f0 = self.fed@;
        let nl = self.lower.len();
        let nu = self.upper.len();
        let to_lower: bool = if nl == 0 && nu == 0 {
            true
        } else {
            let tw: i128 = match self.med {
                Middle::Empty => 0,
                Middle::Single(v) => 2 * (v as i128),
                Middle::Pair(a, b) => a as i128 + b as i128,
            };
            let x2: i128 = 2 * (x as i128);
            x2 < tw || (x2 == tw && nl <= nu)
        };
        proof {
            let lm = self.lower@;
            let um = self.upper@;
            if to_lower {
                assert forall|b: i64| um.contains(b) implies x <= b by {
                    if lm.len() > 0 {
                        assert(lt <= b);
                    }
                }
            } else {
                assert forall|a: i64| lm.contains(a) implies a <= x by {
                    if um.len() > 0 {
                        assert(a <= ut);
                    }
                }
            }
        }
        self.route(x, to_lower);
        self.fed = Ghost(f0.push(x));
        proof {
            assert(self.lower@.add(self.upper@) =~= self.fed@.to_multiset());
        }
        self.rebalance();
        proof {
            assert(self.fed@.drop_last() =~= f0);
        }
        let (lt2, ut2) = self.tops();
        proof {
            let l = self.lower.samples();
            let u = self.upper.samples();
            lemma_middle(l, u, self.fed@, lt2, ut2);
        }
        self.med = if self.lower.len() > self.upper.len() {
            Middle::Single(lt2)
        } else if self.upper.len() > self.lower.len() {
            Middle::Single(ut2)
        } else {
            Middle::Pair(lt2, ut2)
        };
    }

    /// Puts `x` into the lower half when `to_lower` holds, else into the upper.
    fn route(&mut self, x: i64, to_lower: bool)
        requires
            old(self).lower.wf(),
            old(self).upper.wf(),
            old(self).lower.is_max_first(),
            !old(self).upper.is_max_first(),
            halves_ordered(old(self).lower@, old(self).upper@),
            to_lower ==> forall|b: i64| old(self).upper@.contains(b) ==> x <= b,
            !to_lower ==> forall|a: i64| old(self).lower@.contains(a) ==> a <= x,
        ensures
            final(self).lower.wf(),
            final(self).upper.wf(),
            final(self).lower.is_max_first(),
            !final(self).upper.is_max_first(),
            halves_ordered(final(self).lower@, final(self).upper@),
            final(self).lower@.add(final(self).upper@) =~= old(self).lower@.add(old(self).upper@).insert(x),
            final(self).lower@.len() == old(self).lower@.len() + (if to_lower { 1int } else { 0 }),
            final(self).upper@.len() == old(self).upper@.len() + (if to_lower { 0int } else { 1 }),
            final(self).fed == old(self).fed,
            final(self).med == old(self).med,
    {
        let ghost l0 = self.lower@;
        let ghost u0 = self.upper@;
        if to_lower {
            self.lower.push(x);
        } else {
            self.upper.push(x);
        }
        proof {
            assert forall|a: i64, b: i64| #[trigger] self.lower@.contains(a) && #[trigger] self.upper@.contains(b) implies a <= b by {
                if to_lower {
                    assert(u0.contains(b));
                    if a != x {
                        assert(l0.contains(a));
                    }
                } else {
                    assert(l0.contains(a));
                    if b != x {
                        assert(u0.contains(b));
                    }
                }
            }
        }
    }

    /// Moves one top across when the halves differ in size by two.
    fn rebalance(&mut self)
        requires
            old(self).lower.wf(),
            old(self).upper.wf(),
            old(self).lower.is_max_first(),
            !old(self).upper.is_max_first(),
            halves_ordered(old(self).lower@, old(self).upper@),
            -2 <= old(self).lower@.len() - old(self).upper@.len() <= 2,
        ensures
            final(self).lower.wf(),
            final(self).upper.wf(),
            final(self).lower.is_max_first(),
            !final(self).upper.is_max_first(),
            halves_ordered(final(self).lower@, final(self).upper@),
            final(self).lower@.add(final(self).upper@) == old(self).lower@.add(old(self).upper@),
            (final(self).lower@.len() as int, final(self).upper@.len() as int) == balanced(
                old(self).lower@.len() as int,
                old(self).upper@.len() as int,
            ),
            final(self).fed == old(self).fed,
            final(self).med == old(self).med,
    {
        let ghost l1 = self.lower@;
        let ghost u1 = self.upper@;
        if self.lower.len() > self.upper.len() && self.lower.len() - self.upper.len() == 2 {
            let v = self.lower.pop();
            self.upper.push(v);
            proof {
                assert(self.lower@.add(self.upper@) =~= l1.add(u1));
                assert forall|a: i64, b: i64| #[trigger] self.lower@.contains(a) && #[trigger] self.upper@.contains(b) implies a <= b by {
                    assert(l1.contains(a));
                    assert(v >= a);
                    if b != v {
                        assert(u1.contains(b));
                    }
                }
            }
        } else if self.upper.len() > self.lower.len() && self.upper.len() - self.lower.len() == 2 {
            let v = self.upper.pop();
            self.lower.push(v);
            proof {
                assert(self.lower@.add(self.upper@) =~= l1.add(u1));
                assert forall|a: i64, b: i64| #[trigger] self.lower@.contains(a) && #[trigger] self.upper@.contains(b) implies a <= b by {
                    assert(u1.contains(b));
                    assert(v <= b);
                    if a != v {
                        assert(l1.contains(a));
                    }
                }
            }
        }
    }
}

} // verus!
