//! A binary min-heap over a dense array, and a heapsort built on it.

use vstd::multiset::Multiset;
use vstd::prelude::*;

verus! {

broadcast use vstd::seq_lib::group_to_multiset_ensures;

/// A binary min-heap: the element at `(i - 1) / 2` is no greater than the
/// element at `i`.
pub struct BinaryHeap {
    array: Vec<i64>,
}

impl View for BinaryHeap {
    type V = Seq<i64>;

    closed spec fn view(&self) -> Seq<i64> {
        self.array@
    }
}

/// The min-heap ordering: every element is at least its parent.
pub open spec fn is_heap(s: Seq<i64>) -> bool {
    forall|i: int| 1 <= i < s.len() ==> s[(i - 1) / 2] <= #[trigger] s[i]
}

/// Nondecreasing order.
pub open spec fn sorted(s: Seq<i64>) -> bool {
    forall|i: int, j: int| 0 <= i < j < s.len() ==> s[i] <= s[j]
}

/// The heap ordering, except that the element at `j` may be smaller than its
/// parent; the parent still bounds `j`'s children.
spec fn heap_except_up(s: Seq<i64>, j: int) -> bool {
    &&& forall|i: int| 1 <= i < s.len() && i != j ==> s[(i - 1) / 2] <= #[trigger] s[i]
    &&& forall|i: int|
        1 <= i < s.len() && 1 <= j && (i - 1) / 2 == j ==> s[(j - 1) / 2] <= #[trigger] s[i]
}

/// The heap ordering, except that the element at `j` may be greater than its
/// children; its parent still bounds them.
spec fn heap_except_down(s: Seq<i64>, j: int) -> bool {
    &&& forall|i: int| 1 <= i < s.len() && (i - 1) / 2 != j ==> s[(i - 1) / 2] <= #[trigger] s[i]
    &&& forall|i: int|
        1 <= i < s.len() && 1 <= j && (i - 1) / 2 == j ==> s[(j - 1) / 2] <= #[trigger] s[i]
}

/// In a heap the root bounds every element.
proof fn lemma_heap_root_min(s: Seq<i64>, i: int)
    requires
        is_heap(s),
        0 <= i < s.len(),
    ensures
        s[0] <= s[i],
    decreases i,
{
    if i > 0 {
        lemma_heap_root_min(s, (i - 1) / 2);
    }
}

/// Swapping two entries leaves the multiset of elements unchanged.
proof fn lemma_swap_multiset(s: Seq<i64>, i: int, j: int)
    requires
        0 <= i < s.len(),
        0 <= j < s.len(),
        i != j,
    ensures
        s.update(i, s[j]).update(j, s[i]).to_multiset() == s.to_multiset(),
{
    broadcast use vstd::multiset::group_multiset_axioms;

    assert(s.update(i, s[j]).update(j, s[i]).to_multiset() =~= s.to_multiset());
}

/// Adding an element to one part of a sum of multisets adds it to the sum.
proof fn lemma_add_insert(a: Multiset<i64>, b: Multiset<i64>, x: i64)
    ensures
        a.add(b.insert(x)) == a.add(b).insert(x),
{
    broadcast use vstd::multiset::group_multiset_axioms;

    assert(a.add(b.insert(x)) =~= a.add(b).insert(x));
}

impl BinaryHeap {
    /// Creates an empty heap.
    pub fn new() -> (h: BinaryHeap)
        ensures
            h@ == Seq::<i64>::empty(),
            is_heap(h@),
    {
        let h = BinaryHeap { array: Vec::new() };
        proof {
            assert(h@ =~= Seq::<i64>::empty());
        }
        h
    }

    /// Whether the heap holds no element.
    pub fn is_empty(&self) -> (r: bool)
        ensures
            r <==> self@.len() == 0,
    {
        self.array.is_empty()
    }

    /// The number of elements held.
    pub fn len(&self) -> (r: usize)
        ensures
            r == self@.len(),
    {
        self.array.len()
    }

    /// The least element.  The heap must be nonempty.
    pub fn get_min(&self) -> (r: i64)
        requires
            self@.len() > 0,
            is_heap(self@),
        ensures
            r == self@[0],
            forall|i: int| 0 <= i < self@.len() ==> r <= #[trigger] self@[i],
    {
        proof {
            assert forall|i: int| 0 <= i < self@.len() implies self@[0] <= #[trigger] self@[i] by {
                lemma_heap_root_min(self@, i);
            }
        }
        self.array[0]
    }

    /// Adds `x`, preserving the heap ordering.
    pub fn insert(&mut self, x: i64)
        requires
            is_heap(old(self)@),
        ensures
            is_heap(final(self)@),
            final(self)@.len() == old(self)@.len() + 1,
            final(self)@.to_multiset() == old(self)@.to_multiset().insert(x),
    {
        self.array.push(x);
        let idx = self.array.len() - 1;
        proof {
            assert forall|i: int|
                1 <= i < self@.len() && i != idx implies self@[(i - 1) / 2] <= #[trigger] self@[i] by {
                assert(self@[i] == old(self)@[i]);
                assert(self@[(i - 1) / 2] == old(self)@[(i - 1) / 2]);
            }
            assert(heap_except_up(self@, idx as int));
        }
        self.bubble_up(idx);
    }

    /// Removes and returns the least element; the rest keep the heap
    /// ordering.  The heap must be nonempty.
    #[verifier::rlimit(50)]
    pub fn remove_min(&mut self) -> (r: i64)
        requires
            old(self)@.len() > 0,
            is_heap(old(self)@),
        ensures
            r == old(self)@[0],
            forall|i: int| 0 <= i < old(self)@.len() ==> r <= #[trigger] old(self)@[i],
            is_heap(final(self)@),
            final(self)@.len() == old(self)@.len() - 1,
            final(self)@.to_multiset() == old(self)@.to_multiset().remove(r),
            forall|i: int| 0 <= i < final(self)@.len() ==> r <= #[trigger] final(self)@[i],
    {
        proof {
            assert forall|i: int| 0 <= i < self@.len() implies self@[0] <= #[trigger] self@[i] by {
                lemma_heap_root_min(self@, i);
            }
        }
        let ghost s = self@;
        let res = self.array.swap_remove(0);
        proof {
            let s1 = self@;
            assert(s1 == s.update(0, s.last()).drop_last());
            // the multiset loses one occurrence of the old root
            broadcast use vstd::multiset::group_multiset_axioms;

            if s.len() == 1 {
                assert(s1.to_multiset() =~= s.to_multiset().remove(s[0])) by {
                    assert(s1 =~= Seq::<i64>::empty());
                    assert(Seq::<i64>::empty().push(s[0]) =~= s.update(0, s.last()));
                    assert(s.update(0, s.last()) =~= s);
                }
            } else {
                let su = s.update(0, s.last());
                assert(su.last() == s.last());
                assert(s1.push(su.last()) =~= su);
                assert(su.to_multiset() == s1.to_multiset().insert(s.last()));
                assert(su.to_multiset() == s.to_multiset().insert(s.last()).remove(s[0]));
                assert(s.to_multiset().count(s[0]) > 0) by {
                    assert(s.contains(s[0]));
                }
                assert forall|y: i64|
                    s1.to_multiset().count(y) == s.to_multiset().remove(s[0]).count(y) by {
                    assert(su.to_multiset().count(y) == s1.to_multiset().insert(s.last()).count(y));
                    assert(su.to_multiset().count(y) == s.to_multiset().insert(s.last()).remove(
                        s[0],
                    ).count(y));
                }
                assert(s1.to_multiset() =~= s.to_multiset().remove(s[0]));
            }
            // the removal disturbs the ordering only at the root
            assert forall|i: int|
                1 <= i < s1.len() && (i - 1) / 2 != 0 implies s1[(i - 1) / 2] <= #[trigger] s1[i] by {
                assert(s1[i] == s[i]);
                assert((i - 1) / 2 >= 1);
                assert(s1[(i - 1) / 2] == s[(i - 1) / 2]);
            }
            assert(heap_except_down(s1, 0));
        }
        self.bubble_down(0);
        proof {
            assert forall|i: int| 0 <= i < final(self)@.len() implies res <= #[trigger] final(self)@[i] by {
                broadcast use vstd::multiset::group_multiset_axioms;

                let e = final(self)@[i];
                assert(final(self)@.contains(e));
                assert(final(self)@.to_multiset().count(e) > 0);
                assert(s.to_multiset().count(e) > 0);
                assert(s.contains(e));
                let j = choose|j: int| 0 <= j < s.len() && s[j] == e;
                assert(s[0] <= s[j]);
            }
        }
        res
    }

    /// Moves the element at `index` up until its parent is no greater.
    fn bubble_up(&mut self, index: usize)
        requires
            index < old(self)@.len(),
            heap_except_up(old(self)@, index as int),
        ensures
            is_heap(final(self)@),
            final(self)@.len() == old(self)@.len(),
            final(self)@.to_multiset() == old(self)@.to_multiset(),
        decreases index,
    {
        if index == 0 {
            return ;
        }
        let parent = BinaryHeap::get_parent(index);
        if self.array[index] < self.array[parent] {
            let ghost s = self@;
            let a = self.array[index];
            let b = self.array[parent];
            self.array[index] = b;
            self.array[parent] = a;
            proof {
                let s2 = self@;
                assert(s2 == s.update(index as int, b).update(parent as int, a));
                lemma_swap_multiset(s, index as int, parent as int);
                let j = parent as int;
                let ii = index as int;
                assert forall|i: int|
                    1 <= i < s2.len() && i != j implies s2[(i - 1) / 2] <= #[trigger] s2[i] by {
                    if i == ii {
                        assert(s2[(i - 1) / 2] == a && s2[i] == b);
                    } else if (i - 1) / 2 == ii {
                        // a child of the moved-down slot: bounded by the old
                        // parent through the grandparent clause
                        assert(s2[i] == s[i]);
                        assert(s[j] <= s[i]) by {
                            assert(s[(ii - 1) / 2] <= s[i]);
                        }
                        assert(s2[(i - 1) / 2] == b);
                        assert(b <= s[i]);
                    } else if (i - 1) / 2 == j {
                        // a sibling of `index`: bounded below by the old
                        // parent, which exceeds the moved-up value
                        assert(s2[i] == s[i]);
                        assert(s2[(i - 1) / 2] == a);
                        if i != ii {
                            assert(s[(i - 1) / 2] <= s[i]);
                            assert(a < b && b == s[j]);
                        }
                    } else {
                        assert(s2[i] == s[i]);
                        assert(s2[(i - 1) / 2] == s[(i - 1) / 2]);
                    }
                }
                assert forall|i: int|
                    1 <= i < s2.len() && 1 <= j && (i - 1) / 2 == j implies s2[(j - 1) / 2]
                    <= #[trigger] s2[i] by {
                    assert(s2[(j - 1) / 2] == s[(j - 1) / 2]);
                    if i == ii {
                        assert(s2[i] == b && b == s[j]);
                        assert(s[(j - 1) / 2] <= s[j]);
                    } else {
                        assert(s2[i] == s[i]);
                        assert(s[(j - 1) / 2] <= s[j]);
                        assert(s[(i - 1) / 2] <= s[i]);
                    }
                }
                assert(heap_except_up(s2, j));
            }
            self.bubble_up(parent);
        } else {
            proof {
                assert(is_heap(self@)) by {
                    assert forall|i: int| 1 <= i < self@.len() implies self@[(i - 1) / 2]
                        <= #[trigger] self@[i] by {
                        if i == index {
                            assert(self@[(i - 1) / 2] <= self@[i]);
                        }
                    }
                }
            }
        }
    }

    /// Moves the element at `index` down until no child is smaller.
    #[verifier::rlimit(50)]
    fn bubble_down(&mut self, index: usize)
        requires
            heap_except_down(old(self)@, index as int),
        ensures
            is_heap(final(self)@),
            final(self)@.len() == old(self)@.len(),
            final(self)@.to_multiset() == old(self)@.to_multiset(),
        decreases old(self)@.len() - index,
    {
        if index >= self.array.len() / 2 {
            proof {
                // no children: the exempted edges do not exist
                assert forall|i: int| 1 <= i < self@.len() implies self@[(i - 1) / 2]
                    <= #[trigger] self@[i] by {
                    assert((i - 1) / 2 < self@.len() / 2);
                }
            }
            return ;
        }
        let fc = BinaryHeap::get_first_child(index);
        assert(fc < self.array.len());
        let min_idx = if fc + 1 >= self.array.len() || self.array[fc] < self.array[fc + 1] {
            fc
        } else {
            fc + 1
        };
        if self.array[index] <= self.array[min_idx] {
            proof {
                assert forall|i: int| 1 <= i < self@.len() implies self@[(i - 1) / 2]
                    <= #[trigger] self@[i] by {
                    if (i - 1) / 2 == index {
                        assert(i == fc || i == fc + 1);
                        assert(self@[index as int] <= self@[min_idx as int]);
                    }
                }
            }
            return ;
        }
        let ghost s = self@;
        let a = self.array[index];
        let b = self.array[min_idx];
        self.array[index] = b;
        self.array[min_idx] = a;
        proof {
            let s2 = self@;
            let j = min_idx as int;
            let ii = index as int;
            assert(s2 == s.update(ii, b).update(j, a));
            lemma_swap_multiset(s, ii, j);
            // the smaller child bounds its sibling
            assert(s[j] <= s[fc as int] && (fc + 1 < s.len() ==> s[j] <= s[fc as int + 1]));
            assert forall|i: int|
                1 <= i < s2.len() && (i - 1) / 2 != j implies s2[(i - 1) / 2] <= #[trigger] s2[i] by {
                if i == j {
                    assert(s2[(i - 1) / 2] == b || (i - 1) / 2 == ii);
                    assert(s2[i] == a);
                } else if (i - 1) / 2 == ii {
                    // the sibling of the swapped child
                    assert(s2[i] == s[i]);
                    assert(s2[(i - 1) / 2] == b);
                    assert(i == fc || i == fc + 1);
                } else if i == ii {
                    // the swapped slot itself: its parent bounded the old
                    // children through the grandparent clause
                    assert(s2[i] == b && b == s[j]);
                    assert(s2[(i - 1) / 2] == s[(i - 1) / 2]);
                    if ii >= 1 {
                        assert(s[(ii - 1) / 2] <= s[j]);
                    }
                } else {
                    assert(s2[i] == s[i]);
                    assert(s2[(i - 1) / 2] == s[(i - 1) / 2]);
                }
            }
            assert forall|i: int|
                1 <= i < s2.len() && 1 <= j && (i - 1) / 2 == j implies s2[(j - 1) / 2]
                <= #[trigger] s2[i] by {
                assert(i != j && i != ii);
                assert(s2[i] == s[i]);
                assert((j - 1) / 2 == ii);
                assert(s2[(j - 1) / 2] == b && b == s[j]);
                assert(s[(i - 1) / 2] <= s[i]);
            }
            assert(heap_except_down(s2, j));
        }
        self.bubble_down(min_idx);
    }

    /// The parent slot of a nonroot slot.
    fn get_parent(index: usize) -> (r: usize)
        requires
            index >= 1,
        ensures
            r == (index - 1) as int / 2,
    {
        (index - 1) / 2
    }

    /// The left child slot.
    fn get_first_child(index: usize) -> (r: usize)
        requires
            2 * index + 1 <= usize::MAX,
        ensures
            r == 2 * index + 1,
    {
        index * 2 + 1
    }
}

/// Sorts a vector in nondecreasing order: the elements are drained into a
/// min-heap and written back least first.  The result is a reordering of the
/// input: same length, same multiset of elements.
pub fn heapsort(v: &mut Vec<i64>)
    ensures
        final(v)@.len() == old(v)@.len(),
        sorted(final(v)@),
        final(v)@.to_multiset() == old(v)@.to_multiset(),
{
    let ghost m0 = v@.to_multiset();
    let mut heap = BinaryHeap::new();
    proof {
        broadcast use vstd::multiset::group_multiset_axioms;

        assert(heap@.to_multiset() =~= Multiset::<i64>::empty());
        assert(v@.to_multiset().add(heap@.to_multiset()) =~= m0);
    }
    while !v.is_empty()
        invariant
            is_heap(heap@),
            v@.to_multiset().add(heap@.to_multiset()) == m0,
        decreases v@.len(),
    {
        let ghost vs = v@;
        let ghost hs = heap@;
        let x = v.pop().unwrap();
        heap.insert(x);
        proof {
            assert(vs =~= v@.push(x));
            assert(vs.to_multiset() == v@.to_multiset().insert(x));
            lemma_add_insert(heap@.to_multiset(), v@.to_multiset(), x);
            lemma_add_insert(v@.to_multiset(), hs.to_multiset(), x);
            broadcast use vstd::multiset::group_multiset_axioms;

            assert(v@.to_multiset().add(heap@.to_multiset()) =~= vs.to_multiset().add(
                hs.to_multiset(),
            ));
        }
    }
    while !heap.is_empty()
        invariant
            is_heap(heap@),
            sorted(v@),
            v@.to_multiset().add(heap@.to_multiset()) == m0,
            forall|i: int|
                0 <= i < heap@.len() ==> (v@.len() == 0 || v@.last() <= #[trigger] heap@[i]),
        decreases heap@.len(),
    {
        let ghost vs = v@;
        let ghost hs = heap@;
        let x = heap.remove_min();
        v.push(x);
        proof {
            broadcast use vstd::multiset::group_multiset_axioms;

            assert(hs.to_multiset().count(x) > 0) by {
                assert(hs.contains(x)) by { assert(hs[0] == x) }
            }
            assert(hs.to_multiset() =~= heap@.to_multiset().insert(x));
            assert(v@.to_multiset() == vs.to_multiset().insert(x));
            lemma_add_insert(vs.to_multiset(), heap@.to_multiset(), x);
            lemma_add_insert(heap@.to_multiset(), vs.to_multiset(), x);
            assert(v@.to_multiset().add(heap@.to_multiset()) =~= vs.to_multiset().add(
                hs.to_multiset(),
            ));
            assert(sorted(v@)) by {
                assert forall|i: int, j: int| 0 <= i < j < v@.len() implies v@[i] <= v@[j] by {
                    if j == v@.len() - 1 {
                        assert(v@[j] == x);
                        assert(vs.len() > 0 ==> vs.last() <= x) by {
                            if vs.len() > 0 {
                                assert(vs.last() <= hs[0]);
                            }
                        }
                        if i < vs.len() - 1 {
                            assert(vs[i] <= vs.last());
                        }
                    } else {
                        assert(v@[i] == vs[i] && v@[j] == vs[j]);
                    }
                }
            }
        }
    }
    proof {
        broadcast use vstd::multiset::group_multiset_axioms;

        assert(heap@.to_multiset() =~= Multiset::<i64>::empty()) by {
            assert(heap@ =~= Seq::<i64>::empty());
        }
        assert(v@.to_multiset() =~= m0);
        assert(final(v)@.len() == old(v)@.len()) by {
            assert(v@.to_multiset().len() == v@.len());
            assert(old(v)@.to_multiset().len() == old(v)@.len());
        }
    }
}

} // verus!
