//! The frontier of a best-first search: a bag of scored node indices from
//! which the entry with the lowest score leaves first. The bag is kept as a
//! binary heap.

use vstd::multiset::Multiset;
use vstd::prelude::*;

verus! {

/// A node index with the score it was queued under.
#[derive(Copy, Clone, Debug)]
pub struct NodeAndScore {
    pub idx: i32,
    pub f_score: u64,
}

impl NodeAndScore {
    pub fn new(idx: i32, f_score: u64) -> (e: NodeAndScore)
        ensures
            e == (NodeAndScore { idx, f_score }),
    {
        NodeAndScore { idx: idx, f_score: f_score }
    }
}

/// No entry but `hole`'s children is scored lower than its parent, and the
/// children of `hole` are scored no lower than its parent. With no hole in
/// the list the list is a heap.
spec fn heap_but(s: Seq<NodeAndScore>, hole: int) -> bool {
    &&& forall|j: int|
        0 < j < s.len() && (j - 1) / 2 != hole ==> s[(j - 1) / 2].f_score <= (#[trigger] s[j]).f_score
    &&& hole > 0 ==> forall|j: int|
        0 < j < s.len() && (j - 1) / 2 == hole ==> s[(hole - 1) / 2].f_score <= (#[trigger] s[j]).f_score
}

/// No entry but `hole` is scored lower than its parent, and the children of
/// `hole` are scored no lower than its parent.
spec fn heap_above(s: Seq<NodeAndScore>, hole: int) -> bool {
    &&& forall|j: int|
        0 < j < s.len() && j != hole ==> s[(j - 1) / 2].f_score <= (#[trigger] s[j]).f_score
    &&& hole > 0 ==> forall|j: int|
        0 < j < s.len() && (j - 1) / 2 == hole ==> s[(hole - 1) / 2].f_score <= (#[trigger] s[j]).f_score
}

/// In a heap no entry is scored lower than the first.
proof fn lemma_root_is_least(s: Seq<NodeAndScore>, j: int)
    requires
        heap_but(s, -1),
        0 <= j < s.len(),
    ensures
        s[0].f_score <= s[j].f_score,
    decreases j,
{
    if j > 0 {
        lemma_root_is_least(s, (j - 1) / 2);
    }
}

/// Exchanges two entries.
fn swap(v: &mut Vec<NodeAndScore>, i: usize, j: usize)
    requires
        i < old(v).len(),
        j < old(v).len(),
    ensures
        final(v)@ == old(v)@.update(i as int, old(v)[j as int]).update(j as int, old(v)[i as int]),
        final(v)@.to_multiset() == old(v)@.to_multiset(),
{
    broadcast use vstd::multiset::group_multiset_axioms;

    let a: NodeAndScore = v[i];
    let b: NodeAndScore = v[j];
    let ghost s0 = v@;
    v.set(i, b);
    let ghost s1 = v@;
    v.set(j, a);
    proof {
        vstd::seq_lib::to_multiset_update(s0, i as int, b);
        vstd::seq_lib::to_multiset_update(s1, j as int, a);
        s0.to_multiset_ensures();
        assert(s0.contains(a) && s0.contains(b));
        assert(v@.to_multiset() =~= s0.to_multiset());
    }
}

/// A min-priority queue keyed by `f_score`. Entries with equal scores leave
/// in no particular order.
pub struct OpenSet {
    entries: Vec<NodeAndScore>,
}

impl OpenSet {
    /// The queued entries, as a bag.
    pub closed spec fn view(&self) -> Multiset<NodeAndScore> {
        self.entries@.to_multiset()
    }

    /// The entries are ordered as a heap.
    pub closed spec fn wf(&self) -> bool {
        heap_but(self.entries@, -1)
    }

    pub fn new() -> (s: OpenSet)
        ensures
            s.wf(),
            s@ == Multiset::<NodeAndScore>::empty(),
    {
        let s = OpenSet { entries: Vec::new() };
        proof {
            s.entries@.to_multiset_ensures();
            vstd::multiset::lemma_multiset_empty_len(s@);
        }
        s
    }

    pub fn clear(&mut self)
        ensures
            final(self).wf(),
            final(self)@ == Multiset::<NodeAndScore>::empty(),
    {
        self.entries.clear();
        proof {
            self.entries@.to_multiset_ensures();
            vstd::multiset::lemma_multiset_empty_len(self@);
        }
    }

    pub fn len(&self) -> (n: usize)
        ensures
            n == self@.len(),
    {
        proof {
            self.entries@.to_multiset_ensures();
        }
        self.entries.len()
    }

    pub fn is_empty(&self) -> (b: bool)
        ensures
            b == (self@.len() == 0),
    {
        proof {
            self.entries@.to_multiset_ensures();
        }
        self.entries.len() == 0
    }

    /// Queues `e`.
    pub fn push(&mut self, e: NodeAndScore)
        requires
            old(self).wf(),
        ensures
            final(self).wf(),
            final(self)@ == old(self)@.insert(e),
            final(self)@.len() == old(self)@.len() + 1,
            forall|o: NodeAndScore|
                #[trigger] final(self)@.count(o) == old(self)@.count(o) + if o == e {
                    1nat
                } else {
                    0nat
                },
    {
        broadcast use vstd::multiset::group_multiset_axioms;

        proof {
            self.entries@.to_multiset_ensures();
        }
        self.entries.push(e);
        let ghost pushed = self.entries@;
        let mut i: usize = self.entries.len() - 1;
        while i > 0 && self.entries[(i - 1) / 2].f_score > self.entries[i].f_score
            invariant
                i < self.entries.len(),
                self.entries@.to_multiset() == pushed.to_multiset(),
                heap_above(self.entries@, i as int),
            decreases i,
        {
            let parent: usize = (i - 1) / 2;
            swap(&mut self.entries, i, parent);
            i = parent;
        }
    }

    /// Takes out an entry with the lowest score, if there is any entry.
    pub fn pop(&mut self) -> (r: Option<NodeAndScore>)
        requires
            old(self).wf(),
        ensures
            final(self).wf(),
            old(self)@.len() == 0 ==> r.is_none() && final(self)@ == old(self)@,
            old(self)@.len() > 0 ==> r.is_some(),
            r matches Some(e) ==> {
                &&& old(self)@.count(e) > 0
                &&& final(self)@ == old(self)@.remove(e)
                &&& final(self)@.len() == old(self)@.len() - 1
                &&& forall|o: NodeAndScore| old(self)@.count(o) > 0 ==> e.f_score <= o.f_score
                &&& forall|o: NodeAndScore|
                    #[trigger] final(self)@.count(o) == old(self)@.count(o) - if o == e {
                        1nat
                    } else {
                        0nat
                    }
            },
    {
        broadcast use vstd::multiset::group_multiset_axioms;

        proof {
            self.entries@.to_multiset_ensures();
        }
        if self.entries.len() == 0 {
            return None;
        }
        let ghost before = self.entries@;
        let e: NodeAndScore = self.entries.swap_remove(0);
        proof {
            assert(before.contains(e));
            assert forall|o: NodeAndScore| before.to_multiset().count(o) > 0 implies e.f_score
                <= o.f_score by {
                assert(before.contains(o));
                let j = choose|j: int| 0 <= j < before.len() && before[j] == o;
                lemma_root_is_least(before, j);
            }
            let moved = before.update(0, before.last());
            vstd::seq_lib::to_multiset_update(before, 0, before.last());
            assert(moved.drop_last() =~= moved.remove(moved.len() - 1));
            vstd::seq_lib::to_multiset_remove(moved, moved.len() - 1);
            assert(before.contains(before.last()));
            assert(self.entries@.to_multiset() =~= before.to_multiset().remove(e));
            self.entries@.to_multiset_ensures();
        }
        let ghost removed = self.entries@;
        let n: usize = self.entries.len();
        let mut i: usize = 0;
        let mut settled: bool = false;
        while !settled && i < n / 2
            invariant
                n == self.entries.len(),
                i < n || n == 0,
                self.entries@.to_multiset() == removed.to_multiset(),
                !settled ==> heap_but(self.entries@, i as int),
                settled ==> heap_but(self.entries@, -1),
            decreases n - i, (if settled { 0int } else { 1int }),
        {
            let left: usize = 2 * i + 1;
            let mut least: usize = left;
            if left + 1 < n && self.entries[left + 1].f_score < self.entries[left].f_score {
                least = left + 1;
            }
            if self.entries[i].f_score <= self.entries[least].f_score {
                settled = true;
            } else {
                swap(&mut self.entries, i, least);
                i = least;
            }
        }
        Some(e)
    }
}

} // verus!
