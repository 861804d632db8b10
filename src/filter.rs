//! Filters: duplicate-free sets of LED indices, kept in ascending order,
//! that scope bulk color operations.
use vstd::prelude::*;

use crate::layout::MAX_LEDS;

verus! {

#[derive(Clone, Copy, PartialEq, Eq, Structural)]
enum SetOp {
    Union,
    Intersection,
    Difference,
}

/// A set of LED indices below `MAX_LEDS`, stored as one flag per index.
pub struct Filter {
    members: Vec<bool>,
}

impl View for Filter {
    type V = Set<usize>;

    closed spec fn view(&self) -> Set<usize> {
        Set::new(|i: usize| (i as int) < self.members@.len() && self.members@[i as int])
    }
}

impl Filter {
    /// Every index of the filter lies below `MAX_LEDS`.
    pub closed spec fn wf(self) -> bool {
        self.members@.len() <= MAX_LEDS
    }

    proof fn lemma_view(self, i: usize)
        ensures
            self@.contains(i) == ((i as int) < self.members@.len() && self.members@[i as int]),
    {
    }

    /// The empty filter.
    pub fn new() -> (r: Filter)
        ensures
            r.wf(),
            r@ == Set::<usize>::empty(),
    {
        let r = Filter { members: Vec::new() };
        assert(r@ =~= Set::<usize>::empty());
        r
    }

    /// The indices `start..end`.
    pub fn from_range(start: usize, end: usize) -> (r: Filter)
        requires
            end <= MAX_LEDS,
        ensures
            r.wf(),
            forall|i: usize| #[trigger] r@.contains(i) <==> start <= i < end,
    {
        let mut members: Vec<bool> = Vec::new();
        let mut i: usize = 0;
        while i < end
            invariant
                i <= end,
                end <= MAX_LEDS,
                members@.len() == i,
                forall|j: int| 0 <= j < i ==> #[trigger] members@[j] == (start <= j),
            decreases end - i,
        {
            members.push(start <= i);
            i = i + 1;
        }
        let r = Filter { members };
        proof {
            assert forall|i: usize| #[trigger] r@.contains(i) <==> start <= i < end by {
                r.lemma_view(i);
            }
        }
        r
    }

    /// The indices of `v`.
    pub fn from_indices(v: &Vec<usize>) -> (r: Filter)
        requires
            forall|j: int| 0 <= j < v@.len() ==> #[trigger] v@[j] < MAX_LEDS,
        ensures
            r.wf(),
            forall|i: usize| #[trigger] r@.contains(i) <==> v@.contains(i),
    {
        let mut r = Filter::new();
        let mut j: usize = 0;
        while j < v.len()
            invariant
                j <= v@.len(),
                forall|k: int| 0 <= k < v@.len() ==> #[trigger] v@[k] < MAX_LEDS,
                r.wf(),
                forall|i: usize|
                    #[trigger] r@.contains(i) <==> exists|k: int| 0 <= k < j && #[trigger] v@[k] == i,
            decreases v@.len() - j,
        {
            r.insert(v[j]);
            proof {
                assert forall|i: usize| #[trigger] r@.contains(i) <==> exists|k: int|
                    0 <= k < j + 1 && #[trigger] v@[k] == i by {
                    if i == v@[j as int] {
                        assert(v@[j as int] == i);
                    }
                }
            }
            j = j + 1;
        }
        r
    }

    /// Adds index `i`.
    pub fn insert(&mut self, i: usize)
        requires
            old(self).wf(),
            i < MAX_LEDS,
        ensures
            final(self).wf(),
            final(self)@ == old(self)@.insert(i),
    {
        while self.members.len() <= i
            invariant
                self.members@.len() <= MAX_LEDS,
                i < MAX_LEDS,
                self@ == old(self)@,
            decreases i + 1 - self.members@.len(),
        {
            let ghost before = *self;
            self.members.push(false);
            proof {
                assert forall|j: usize| #[trigger] self@.contains(j) == before@.contains(j) by {
                    self.lemma_view(j);
                    before.lemma_view(j);
                    if (j as int) < before.members@.len() {
                        assert(self.members@[j as int] == before.members@[j as int]);
                    }
                }
                assert(self@ =~= before@);
            }
        }
        let ghost before = *self;
        self.members.set(i, true);
        proof {
            assert forall|j: usize| #[trigger] self@.contains(j) == before@.insert(i).contains(j) by {
                self.lemma_view(j);
                before.lemma_view(j);
            }
            assert(self@ =~= old(self)@.insert(i));
        }
    }

    /// Whether index `i` is in the filter.
    pub fn contains(&self, i: usize) -> (r: bool)
        ensures
            r == self@.contains(i),
    {
        proof {
            self.lemma_view(i);
        }
        i < self.members.len() && self.members[i]
    }

    /// The members, in ascending order.
    pub fn indices(&self) -> (r: Vec<usize>)
        ensures
            forall|i: usize| #[trigger] r@.contains(i) <==> self@.contains(i),
            forall|a: int, b: int| 0 <= a < b < r@.len() ==> r@[a] < r@[b],
    {
        let mut r: Vec<usize> = Vec::new();
        let mut i: usize = 0;
        while i < self.members.len()
            invariant
                i <= self.members@.len(),
                forall|j: int| 0 <= j < r@.len() ==> #[trigger] r@[j] < i,
                forall|a: int, b: int| 0 <= a < b < r@.len() ==> r@[a] < r@[b],
                forall|j: usize|
                    #[trigger] r@.contains(j) <==> (j < i && self.members@[j as int]),
            decreases self.members@.len() - i,
        {
            if self.members[i] {
                let ghost before = r@;
                r.push(i);
                proof {
                    assert forall|j: usize| #[trigger] r@.contains(j) <==> (j < i + 1
                        && self.members@[j as int]) by {
                        if r@.contains(j) && j != i {
                            let k = choose|k: int| 0 <= k < r@.len() && r@[k] == j;
                            assert(k != before.len());
                            assert(before[k] == j);
                            assert(before.contains(j));
                        }
                        if j < i && self.members@[j as int] {
                            assert(before.contains(j));
                            let k = choose|k: int| 0 <= k < before.len() && before[k] == j;
                            assert(r@[k] == j);
                        }
                        if j == i {
                            assert(r@[before.len() as int] == j);
                        }
                    }
                }
            } else {
                proof {
                    assert forall|j: usize| #[trigger] r@.contains(j) <==> (j < i + 1
                        && self.members@[j as int]) by {
                        if r@.contains(j) {
                            let k = choose|k: int| 0 <= k < r@.len() && r@[k] == j;
                            assert(r@[k] < i);
                        }
                        if j < i + 1 && self.members@[j as int] {
                            assert(j != i);
                            assert(j < i);
                        }
                    }
                }
            }
            i = i + 1;
        }
        proof {
            assert forall|j: usize| #[trigger] r@.contains(j) <==> self@.contains(j) by {
                self.lemma_view(j);
                if r@.contains(j) {
                    let k = choose|k: int| 0 <= k < r@.len() && r@[k] == j;
                }
            }
        }
        r
    }

    /// Whether the filter has no members.
    pub fn is_empty(&self) -> (r: bool)
        ensures
            r == (self@ == Set::<usize>::empty()),
    {
        let mut i: usize = 0;
        while i < self.members.len()
            invariant
                i <= self.members@.len(),
                forall|j: int| 0 <= j < i ==> !#[trigger] self.members@[j],
            decreases self.members@.len() - i,
        {
            if self.members[i] {
                proof {
                    self.lemma_view(i);
                    assert(self@.contains(i));
                    assert(!Set::<usize>::empty().contains(i));
                }
                return false;
            }
            i = i + 1;
        }
        proof {
            assert forall|j: usize| !#[trigger] self@.contains(j) by {
                self.lemma_view(j);
            }
            assert(self@ =~= Set::<usize>::empty());
        }
        true
    }

    /// The indices in either filter.
    pub fn union(&self, other: &Filter) -> (r: Filter)
        requires
            self.wf(),
            other.wf(),
        ensures
            r.wf(),
            r@ == self@.union(other@),
    {
        self.combine(other, SetOp::Union)
    }

    /// The indices in both filters.
    pub fn intersection(&self, other: &Filter) -> (r: Filter)
        requires
            self.wf(),
            other.wf(),
        ensures
            r.wf(),
            r@ == self@.intersect(other@),
    {
        self.combine(other, SetOp::Intersection)
    }

    /// The indices of `self` that are not in `other`.
    pub fn difference(&self, other: &Filter) -> (r: Filter)
        requires
            self.wf(),
            other.wf(),
        ensures
            r.wf(),
            r@ == self@.difference(other@),
    {
        self.combine(other, SetOp::Difference)
    }

    /// Combines two filters index by index.
    fn combine(&self, other: &Filter, op: SetOp) -> (r: Filter)
        requires
            self.wf(),
            other.wf(),
        ensures
            r.wf(),
            op == SetOp::Union ==> r@ == self@.union(other@),
            op == SetOp::Intersection ==> r@ == self@.intersect(other@),
            op == SetOp::Difference ==> r@ == self@.difference(other@),
    {
        let n = if self.members.len() > other.members.len() {
            self.members.len()
        } else {
            other.members.len()
        };
        let mut members: Vec<bool> = Vec::new();
        let mut i: usize = 0;
        while i < n
            invariant
                i <= n,
                n <= MAX_LEDS,
                members@.len() == i,
                forall|j: int|
                    0 <= j < i ==> #[trigger] members@[j] == ({
                        let a = j < self.members@.len() && self.members@[j];
                        let b = j < other.members@.len() && other.members@[j];
                        if op == SetOp::Union {
                            a || b
                        } else if op == SetOp::Intersection {
                            a && b
                        } else {
                            a && !b
                        }
                    }),
            decreases n - i,
        {
            let a = i < self.members.len() && self.members[i];
            let b = i < other.members.len() && other.members[i];
            let m = if op == SetOp::Union {
                a || b
            } else if op == SetOp::Intersection {
                a && b
            } else {
                a && !b
            };
            members.push(m);
            i = i + 1;
        }
        let r = Filter { members };
        proof {
            assert forall|j: usize| #[trigger] r@.contains(j) == ({
                let a = self@.contains(j);
                let b = other@.contains(j);
                if op == SetOp::Union {
                    a || b
                } else if op == SetOp::Intersection {
                    a && b
                } else {
                    a && !b
                }
            }) by {
                r.lemma_view(j);
                self.lemma_view(j);
                other.lemma_view(j);
            }
            if op == SetOp::Union {
                assert(r@ =~= self@.union(other@));
            } else if op == SetOp::Intersection {
                assert(r@ =~= self@.intersect(other@));
            } else {
                assert(r@ =~= self@.difference(other@));
            }
        }
        r
    }
}

} // verus!
