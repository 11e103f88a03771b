//! The open list of the search: entries scored by estimated total cost, the
//! lowest score leaving first.

use vstd::prelude::*;

verus! {

/// A node together with the score it waits under: `MinScored(score, node)`.
/// The entry with the lowest score leaves the queue first.
#[derive(Copy, Clone, Debug, PartialEq, Eq, Structural)]
pub struct MinScored(pub u64, pub usize);

/// The entries waiting to be expanded, kept as a binary heap.
///
/// To its users the queue is the sequence of the entries in the order they
/// were put in, less those taken out.
pub struct MinScoredQueue {
    entries: Vec<MinScored>,
    waiting: Ghost<Seq<MinScored>>,
}

/// The position above `i` in the heap.
pub open spec fn parent(i: int) -> int {
    (i - 1) / 2
}

/// No entry but, possibly, the one at `hole` scores lower than the entry
/// above it; and the entries below `hole` do not score lower than the entry
/// above `hole`.
pub open spec fn ordered_but_above(s: Seq<MinScored>, hole: int) -> bool {
    &&& forall|j: int| 1 <= j < s.len() && j != hole ==> s[parent(j)].0 <= (#[trigger] s[j]).0
    &&& forall|j: int|
        1 <= j < s.len() && parent(j) == hole && hole >= 1 ==> s[parent(hole)].0 <= (
        #[trigger] s[j]).0
}

/// No entry but, possibly, those right below `hole` scores lower than the
/// entry above it; and those do not score lower than the entry above `hole`.
pub open spec fn ordered_but_below(s: Seq<MinScored>, hole: int) -> bool {
    &&& forall|j: int|
        1 <= j < s.len() && parent(j) != hole ==> s[parent(j)].0 <= (#[trigger] s[j]).0
    &&& forall|j: int|
        1 <= j < s.len() && parent(j) == hole && hole >= 1 ==> s[parent(hole)].0 <= (
        #[trigger] s[j]).0
}

/// No entry scores lower than the entry above it.
pub open spec fn heap_ordered(s: Seq<MinScored>) -> bool {
    forall|j: int| 1 <= j < s.len() ==> s[parent(j)].0 <= (#[trigger] s[j]).0
}

/// In a heap no entry scores lower than the first.
pub proof fn lemma_first_is_least(s: Seq<MinScored>, i: int)
    requires
        heap_ordered(s),
        0 <= i < s.len(),
    ensures
        s[0].0 <= s[i].0,
    decreases i,
{
    if i > 0 {
        lemma_first_is_least(s, parent(i));
    }
}

/// Two entries of a sequence changing places leave the same entries.
pub proof fn lemma_swapped(s: Seq<MinScored>, i: int, j: int)
    requires
        0 <= i < s.len(),
        0 <= j < s.len(),
    ensures
        s.update(i, s[j]).update(j, s[i]).to_multiset() == s.to_multiset(),
{
    broadcast use vstd::seq_lib::group_to_multiset_ensures;

    let once = s.update(i, s[j]);
    assert(once.to_multiset() == s.to_multiset().insert(s[j]).remove(s[i]));
    assert(once.update(j, s[i]).to_multiset() == once.to_multiset().insert(s[i]).remove(once[j]));
    assert(s.to_multiset().count(s[i]) > 0);
    assert(s.to_multiset().count(s[j]) > 0);
    assert(once.update(j, s[i]).to_multiset() =~= s.to_multiset());
}

fn swap_entries(entries: &mut Vec<MinScored>, i: usize, j: usize)
    requires
        i < old(entries)@.len(),
        j < old(entries)@.len(),
    ensures
        final(entries)@ == old(entries)@.update(i as int, old(entries)@[j as int]).update(
            j as int,
            old(entries)@[i as int],
        ),
        final(entries)@.to_multiset() == old(entries)@.to_multiset(),
{
    let a = entries[i];
    let b = entries[j];
    entries.set(i, b);
    entries.set(j, a);
    proof {
        lemma_swapped(old(entries)@, i as int, j as int);
    }
}

/// Lets the entry at `start` rise until the entry above it does not score
/// higher.
fn sift_up(entries: &mut Vec<MinScored>, start: usize)
    requires
        start < old(entries)@.len(),
        ordered_but_above(old(entries)@, start as int),
    ensures
        heap_ordered(final(entries)@),
        final(entries)@.to_multiset() == old(entries)@.to_multiset(),
{
    let mut i: usize = start;
    let mut rising: bool = true;
    while rising
        invariant
            i < entries@.len(),
            entries@.to_multiset() == old(entries)@.to_multiset(),
            ordered_but_above(entries@, i as int),
            !rising ==> heap_ordered(entries@),
        decreases i + if rising { 1int } else { 0int },
    {
        if i == 0 {
            rising = false;
        } else {
            let above: usize = (i - 1) / 2;
            if entries[i].0 < entries[above].0 {
                let ghost before = entries@;
                swap_entries(entries, i, above);
                proof {
                    assert forall|j: int| 1 <= j < entries@.len() && j != above implies entries@[parent(
                        j,
                    )].0 <= (#[trigger] entries@[j]).0 by {
                        if j != i {
                            assert(before[parent(j)].0 <= before[j].0);
                        }
                    }
                    assert forall|j: int|
                        1 <= j < entries@.len() && parent(j) == above && above >= 1 implies entries@[parent(
                        above as int,
                    )].0 <= (#[trigger] entries@[j]).0 by {
                        assert(before[parent(above as int)].0 <= before[above as int].0);
                        if j != i {
                            assert(before[parent(j)].0 <= before[j].0);
                        }
                    }
                }
                i = above;
            } else {
                rising = false;
            }
        }
    }
}

/// Lets the first entry sink until no entry below it scores lower.
fn sift_down(entries: &mut Vec<MinScored>)
    requires
        ordered_but_below(old(entries)@, 0),
    ensures
        heap_ordered(final(entries)@),
        final(entries)@.to_multiset() == old(entries)@.to_multiset(),
{
    let n: usize = entries.len();
    if n == 0 {
        return ;
    }
    let last_with_entries_below: usize = (n - 1) / 2;
    let mut i: usize = 0;
    loop
        invariant_except_break
            ordered_but_below(entries@, i as int),
        invariant
            n == entries@.len(),
            last_with_entries_below == (n - 1) / 2,
            i < n,
            entries@.to_multiset() == old(entries)@.to_multiset(),
        ensures
            heap_ordered(entries@),
        decreases n - i,
    {
        if i > last_with_entries_below {
            break ;
        }
        let left: usize = 2 * i + 1;
        if left >= n {
            break ;
        }
        let lower: usize = if left + 1 < n && entries[left + 1].0 < entries[left].0 {
            left + 1
        } else {
            left
        };
        if entries[lower].0 >= entries[i].0 {
            proof {
                assert forall|j: int| 1 <= j < entries@.len() implies entries@[parent(j)].0 <= (
                #[trigger] entries@[j]).0 by {
                    if parent(j) == i {
                        assert(j == left || j == left + 1);
                    }
                }
            }
            break ;
        }
        let ghost before = entries@;
        swap_entries(entries, i, lower);
        proof {
            assert forall|j: int|
                1 <= j < entries@.len() && parent(j) != lower implies entries@[parent(j)].0 <= (
            #[trigger] entries@[j]).0 by {
                if j == i {
                    assert(before[parent(i as int)].0 <= before[lower as int].0);
                } else if parent(j) != i {
                    assert(before[parent(j)].0 <= before[j].0);
                }
            }
            assert forall|j: int|
                1 <= j < entries@.len() && parent(j) == lower && lower >= 1 implies entries@[parent(
                lower as int,
            )].0 <= (#[trigger] entries@[j]).0 by {
                assert(before[parent(j)].0 <= before[j].0);
            }
        }
        i = lower;
    }
}

impl MinScoredQueue {
    /// The waiting entries, in the order they were put in.
    pub closed spec fn view(&self) -> Seq<MinScored> {
        self.waiting@
    }

    /// The heap holds the waiting entries, the lowest score first.
    pub closed spec fn wf(&self) -> bool {
        &&& heap_ordered(self.entries@)
        &&& self.entries@.to_multiset() == self.waiting@.to_multiset()
    }

    /// A queue in which nothing waits.
    pub fn new() -> (queue: MinScoredQueue)
        ensures
            queue.wf(),
            queue@.len() == 0,
    {
        MinScoredQueue { entries: Vec::new(), waiting: Ghost(Seq::empty()) }
    }

    /// The number of waiting entries.
    pub fn len(&self) -> (n: usize)
        requires
            self.wf(),
        ensures
            n == self@.len(),
    {
        proof {
            vstd::seq_lib::to_multiset_len(self.entries@);
            vstd::seq_lib::to_multiset_len(self.waiting@);
        }
        self.entries.len()
    }

    /// Puts `entry` in.
    pub fn push(&mut self, entry: MinScored)
        requires
            old(self).wf(),
        ensures
            final(self).wf(),
            final(self)@ == old(self)@.push(entry),
    {
        self.entries.push(entry);
        proof {
            vstd::seq_lib::to_multiset_build(old(self).entries@, entry);
            vstd::seq_lib::to_multiset_build(old(self).waiting@, entry);
            self.waiting@ = self.waiting@.push(entry);
        }
        let last = self.entries.len() - 1;
        sift_up(&mut self.entries, last);
    }

    /// Takes out an entry of the lowest score; `None` when nothing waits.
    /// Every other entry stays, and nothing is added.
    pub fn pop(&mut self) -> (popped: Option<MinScored>)
        requires
            old(self).wf(),
        ensures
            final(self).wf(),
            match popped {
                None => old(self)@.len() == 0 && final(self)@.len() == 0,
                Some(entry) => {
                    &&& old(self)@.contains(entry)
                    &&& final(self)@.len() == old(self)@.len() - 1
                    &&& forall|j: int|
                        0 <= j < old(self)@.len() ==> entry.0 <= (#[trigger] old(self)@[j]).0
                    &&& forall|e: MinScored| final(self)@.contains(e) ==> old(self)@.contains(e)
                    &&& forall|e: MinScored|
                        old(self)@.contains(e) && e != entry ==> final(self)@.contains(e)
                },
            },
    {
        broadcast use vstd::seq_lib::group_to_multiset_ensures;

        proof {
            vstd::seq_lib::to_multiset_len(self.entries@);
            vstd::seq_lib::to_multiset_len(self.waiting@);
        }
        if self.entries.len() == 0 {
            return None;
        }
        let ghost heap = self.entries@;
        let ghost before = self.waiting@;
        let entry = self.entries.swap_remove(0);
        proof {
            assert(heap.to_multiset().count(entry) > 0);
            assert(before.contains(entry));
            let k = choose|k: int| 0 <= k < before.len() && before[k] == entry;
            self.waiting@ = before.remove(k);
            let after = before.remove(k);
            // the heap has lost the entry, and nothing else
            let moved = heap.update(0, heap.last());
            assert(self.entries@ == moved.drop_last());
            assert(moved.drop_last() =~= moved.remove(moved.len() - 1));
            assert(moved.to_multiset() == heap.to_multiset().insert(heap.last()).remove(heap[0]));
            assert(self.entries@.to_multiset() =~= heap.to_multiset().remove(entry));
            assert(after.to_multiset() == before.to_multiset().remove(entry));
            // what is left is ordered but for the new first entry
            assert forall|j: int|
                1 <= j < self.entries@.len() && parent(j) != 0 implies self.entries@[parent(j)].0 <= (
            #[trigger] self.entries@[j]).0 by {
                assert(heap[parent(j)].0 <= heap[j].0);
            }
            // no entry scored lower
            assert forall|j: int| 0 <= j < before.len() implies entry.0 <= (#[trigger] before[j]).0 by {
                assert(before.to_multiset().count(before[j]) > 0);
                assert(heap.contains(before[j]));
                let i = choose|i: int| 0 <= i < heap.len() && heap[i] == before[j];
                lemma_first_is_least(heap, i);
            }
            assert forall|e: MinScored| after.contains(e) implies before.contains(e) by {
                let i = choose|i: int| 0 <= i < after.len() && after[i] == e;
                if i < k {
                    assert(before[i] == e);
                } else {
                    assert(before[i + 1] == e);
                }
            }
            assert forall|e: MinScored| before.contains(e) && e != entry implies after.contains(e) by {
                let i = choose|i: int| 0 <= i < before.len() && before[i] == e;
                if i < k {
                    assert(after[i] == e);
                } else {
                    assert(after[i - 1] == e);
                }
            }
        }
        sift_down(&mut self.entries);
        Some(entry)
    }
}

} // verus!
