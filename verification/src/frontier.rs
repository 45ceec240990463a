//! The open set of the search: a priority queue that hands out an entry of
//! least cost first.

use crate::grid::Cell;
use vstd::multiset::Multiset;
use vstd::prelude::*;

verus! {

/// A cell together with the estimated cost of a route through it, in fixed
/// point (see [`crate::pathfinding::SCALE`]).
#[derive(Clone, Copy, PartialEq, Eq, Structural, Debug)]
pub struct CellCost {
    pub cell: Cell,
    pub cost: i128,
}

/// Where the parent of the entry at index `i > 0` stands.
pub open spec fn parent(i: int) -> int {
    (i - 1) / 2
}

/// The entry at `i` costs no less than its parent.
spec fn ordered_at(s: Seq<CellCost>, i: int) -> bool {
    s[parent(i)].cost <= s[i].cost
}

/// The entry at `i` costs no less than its parent's parent.
spec fn ordered_above(s: Seq<CellCost>, i: int) -> bool {
    s[parent(parent(i))].cost <= s[i].cost
}

/// Every entry but the first costs no less than its parent.
spec fn heap_ordered(s: Seq<CellCost>) -> bool {
    forall|i: int| 1 <= i < s.len() ==> #[trigger] ordered_at(s, i)
}

/// The heap order with the entry at `hole` left out of account: its
/// neighbours above and below are in order with each other.
spec fn ordered_but(s: Seq<CellCost>, hole: int) -> bool {
    &&& forall|i: int| 1 <= i < s.len() && i != hole && parent(i) != hole ==> #[trigger] ordered_at(s, i)
    &&& forall|i: int|
        1 <= i < s.len() && parent(i) == hole && hole >= 1 ==> #[trigger] ordered_above(s, i)
}

/// In a heap the first entry costs no more than any other.
proof fn lemma_first_is_least(s: Seq<CellCost>, i: int)
    requires
        heap_ordered(s),
        0 <= i < s.len(),
    ensures
        s[0].cost <= s[i].cost,
    decreases i,
{
    if i > 0 {
        assert(ordered_at(s, i));
        lemma_first_is_least(s, parent(i));
    }
}

/// A min-priority queue of [`CellCost`] entries, kept as a binary heap. Its
/// view is the multiset of the entries it holds; which of several entries of
/// equal cost leaves first is not fixed.
pub struct Frontier {
    items: Vec<CellCost>,
}

impl View for Frontier {
    type V = Multiset<CellCost>;

    closed spec fn view(&self) -> Multiset<CellCost> {
        self.items@.to_multiset()
    }
}

impl Frontier {
    /// The entries are in heap order.
    pub closed spec fn wf(&self) -> bool {
        heap_ordered(self.items@)
    }

    /// An empty queue.
    pub fn new() -> (frontier: Frontier)
        ensures
            frontier.wf(),
            frontier@ == Multiset::<CellCost>::empty(),
    {
        let frontier = Frontier { items: Vec::new() };
        proof {
            assert(frontier.items@.to_multiset() =~= Multiset::<CellCost>::empty()) by {
                frontier.items@.to_multiset_ensures();
                assert forall|e: CellCost| frontier.items@.to_multiset().count(e) == 0 by {
                    if frontier.items@.to_multiset().count(e) > 0 {
                        assert(frontier.items@.contains(e));
                    }
                }
            }
        }
        frontier
    }

    /// Whether the queue holds no entry.
    pub fn is_empty(&self) -> (empty: bool)
        ensures
            empty == (self@.len() == 0),
    {
        proof {
            self.items@.to_multiset_ensures();
        }
        self.items.len() == 0
    }

    /// The number of entries.
    pub fn len(&self) -> (n: usize)
        ensures
            n == self@.len(),
    {
        proof {
            self.items@.to_multiset_ensures();
        }
        self.items.len()
    }

    /// Exchanges the entries at `i` and `j`.
    fn swap(&mut self, i: usize, j: usize)
        requires
            i < old(self).items@.len(),
            j < old(self).items@.len(),
        ensures
            final(self).items@ == old(self).items@.update(i as int, old(self).items@[j as int]).update(
                j as int,
                old(self).items@[i as int],
            ),
            final(self)@ == old(self)@,
    {
        let a = self.items[i];
        let b = self.items[j];
        let ghost s0 = self.items@;
        self.items[i] = b;
        self.items[j] = a;
        proof {
            let s1 = s0.update(i as int, b);
            let s2 = s1.update(j as int, a);
            assert(self.items@ == s2);
            vstd::seq_lib::to_multiset_update(s0, i as int, b);
            vstd::seq_lib::to_multiset_update(s1, j as int, a);
            s0.to_multiset_ensures();
            assert(s0.contains(a));
            assert(s0.contains(b));
            assert(s2.to_multiset() =~= s0.to_multiset());
        }
    }

    /// Adds an entry.
    pub fn push(&mut self, item: CellCost)
        requires
            old(self).wf(),
        ensures
            final(self).wf(),
            final(self)@ == old(self)@.insert(item),
    {
        proof {
            vstd::seq_lib::to_multiset_build(self.items@, item);
        }
        self.items.push(item);
        let mut i: usize = self.items.len() - 1;
        proof {
            assert forall|k: int|
                1 <= k < self.items@.len() && k != i && parent(k) != i implies #[trigger] ordered_at(
                self.items@,
                k,
            ) by {
                assert(ordered_at(old(self).items@, k));
            }
        }
        while i > 0
            invariant
                i < self.items@.len(),
                ordered_but(self.items@, i as int),
                forall|k: int|
                    1 <= k < self.items@.len() && parent(k) == i ==> #[trigger] ordered_at(
                        self.items@,
                        k,
                    ),
                self@ == old(self)@.insert(item),
            ensures
                heap_ordered(self.items@),
                self@ == old(self)@.insert(item),
            decreases i,
        {
            let up: usize = (i - 1) / 2;
            let ghost before = self.items@;
            if self.items[i].cost < self.items[up].cost {
                self.swap(i, up);
                proof {
                    let now = self.items@;
                    assert forall|k: int|
                        1 <= k < now.len() && k != up && parent(k) != up implies #[trigger] ordered_at(
                        now,
                        k,
                    ) by {
                        if k == i {
                        } else if parent(k) == i {
                            assert(ordered_above(before, k));
                        } else {
                            assert(ordered_at(before, k));
                        }
                    }
                    assert forall|k: int|
                        1 <= k < now.len() && parent(k) == up && up >= 1 implies #[trigger] ordered_above(
                        now,
                        k,
                    ) by {
                        if k == i {
                            assert(ordered_at(before, up as int));
                        } else {
                            assert(ordered_at(before, k));
                            assert(ordered_at(before, up as int));
                        }
                    }
                    assert forall|k: int|
                        1 <= k < now.len() && parent(k) == up implies #[trigger] ordered_at(now, k) by {
                        if k != i {
                            assert(ordered_at(before, k));
                        }
                    }
                }
                i = up;
            } else {
                proof {
                    assert forall|k: int| 1 <= k < before.len() implies #[trigger] ordered_at(
                        before,
                        k,
                    ) by {
                        if k == i {
                        } else if parent(k) == i {
                        } else {
                        }
                    }
                }
                break ;
            }
        }
    }

    /// Takes out an entry of least cost, if the queue holds any.
    pub fn pop(&mut self) -> (least: Option<CellCost>)
        requires
            old(self).wf(),
        ensures
            final(self).wf(),
            match least {
                Some(entry) => {
                    &&& old(self)@.count(entry) > 0
                    &&& final(self)@ == old(self)@.remove(entry)
                    &&& forall|other: CellCost|
                        old(self)@.count(other) > 0 ==> entry.cost <= other.cost
                },
                None => old(self)@.len() == 0 && final(self)@ == old(self)@,
            },
    {
        proof {
            self.items@.to_multiset_ensures();
        }
        if self.items.len() == 0 {
            return None;
        }
        let ghost s0 = self.items@;
        let least = self.items[0];
        proof {
            assert(s0.contains(least));
            assert forall|other: CellCost| s0.to_multiset().count(other) > 0 implies least.cost
                <= other.cost by {
                assert(s0.contains(other));
                let k = choose|k: int| 0 <= k < s0.len() && s0[k] == other;
                lemma_first_is_least(s0, k);
            }
        }
        let last = self.items.pop().unwrap();
        let n: usize = self.items.len();
        if n == 0 {
            proof {
                assert(s0 =~= seq![least]);
                assert(s0.remove(0) =~= self.items@);
                vstd::seq_lib::to_multiset_remove(s0, 0);
            }
            return Some(least);
        }
        let ghost s1 = self.items@;
        self.items[0] = last;
        proof {
            assert(self.items@ =~= s0.update(0, last).drop_last());
            assert(s0.update(0, last).drop_last() =~= s0.remove(n as int).update(0, last));
            vstd::seq_lib::to_multiset_remove(s0, n as int);
            vstd::seq_lib::to_multiset_update(s1, 0, last);
            s1.to_multiset_ensures();
            assert(self@ =~= old(self)@.remove(least));
            assert forall|k: int|
                1 <= k < self.items@.len() && k != 0 && parent(k) != 0 implies #[trigger] ordered_at(
                self.items@,
                k,
            ) by {
                assert(ordered_at(s0, k));
            }
        }
        let mut i: usize = 0;
        while i < n / 2
            invariant
                n == self.items@.len(),
                i < n,
                ordered_but(self.items@, i as int),
                i >= 1 ==> ordered_at(self.items@, i as int),
                self@ == old(self)@.remove(least),
            ensures
                heap_ordered(self.items@),
                self@ == old(self)@.remove(least),
            decreases n - i,
        {
            let left: usize = 2 * i + 1;
            let right: usize = left + 1;
            let mut down: usize = left;
            if right < n && self.items[right].cost < self.items[left].cost {
                down = right;
            }
            let ghost before = self.items@;
            if self.items[down].cost < self.items[i].cost {
                self.swap(i, down);
                proof {
                    let now = self.items@;
                    assert forall|k: int|
                        1 <= k < now.len() && k != down && parent(k) != down implies #[trigger] ordered_at(
                        now,
                        k,
                    ) by {
                        if k == i {
                            assert(ordered_above(before, down as int));
                        } else if parent(k) == i {
                        } else {
                            assert(ordered_at(before, k));
                        }
                    }
                    assert forall|k: int|
                        1 <= k < now.len() && parent(k) == down && down >= 1 implies #[trigger] ordered_above(
                        now,
                        k,
                    ) by {
                        assert(ordered_at(before, k));
                    }
                }
                i = down;
            } else {
                proof {
                    assert forall|k: int| 1 <= k < before.len() implies #[trigger] ordered_at(
                        before,
                        k,
                    ) by {
                        if k == i {
                        } else if parent(k) == i {
                        } else {
                        }
                    }
                }
                break ;
            }
        }
        Some(least)
    }
}

} // verus!
