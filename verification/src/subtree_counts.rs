//! A count of subtrees by shape, kept as a list of distinct nodes with their
//! counts. It stands where a hash map from nodes to counts would.
use vstd::multiset::Multiset;
use vstd::prelude::*;

use crate::tree_diff::Syntax;
use crate::tree_model::Shape;

verus! {

/// How many times each subtree occurs, by shape.
pub struct SubtreeCounts {
    nodes: Vec<Syntax>,
    counts: Vec<i64>,
    model: Ghost<Multiset<Shape>>,
}

impl View for SubtreeCounts {
    type V = Multiset<Shape>;

    closed spec fn view(&self) -> Multiset<Shape> {
        self.model@
    }
}

impl SubtreeCounts {
    /// The list holds each counted shape once, next to its count.
    pub closed spec fn wf(&self) -> bool {
        &&& self.nodes@.len() == self.counts@.len()
        &&& forall|i: int|
            0 <= i < self.counts@.len() ==> #[trigger] self.counts@[i] == self.model@.count(
                self.nodes@[i]@.key(),
            )
        &&& forall|i: int, j: int|
            0 <= i < self.nodes@.len() && 0 <= j < self.nodes@.len() && i != j
                ==> #[trigger] self.nodes@[i]@.key() != #[trigger] self.nodes@[j]@.key()
        &&& forall|k: Shape|
            #[trigger] self.model@.count(k) > 0 ==> exists|i: int|
                0 <= i < self.nodes@.len() && #[trigger] self.nodes@[i]@.key() == k
    }

    /// No subtree counted yet.
    pub fn new() -> (r: SubtreeCounts)
        ensures
            r.wf(),
            r@ == Multiset::<Shape>::empty(),
    {
        SubtreeCounts { nodes: Vec::new(), counts: Vec::new(), model: Ghost(Multiset::empty()) }
    }

    /// Where the list holds the shape of `node`, if it does.
    fn find(&self, node: &Syntax) -> (r: Option<usize>)
        requires
            self.wf(),
        ensures
            match r {
                Some(i) => i < self.nodes@.len() && self.nodes@[i as int]@.key() == node@.key(),
                None => forall|i: int|
                    0 <= i < self.nodes@.len() ==> #[trigger] self.nodes@[i]@.key() != node@.key(),
            },
    {
        let n = self.nodes.len();
        let mut i: usize = 0;
        while i < n
            invariant
                n == self.nodes@.len(),
                i <= n,
                forall|j: int| 0 <= j < i ==> #[trigger] self.nodes@[j]@.key() != node@.key(),
            decreases n - i,
        {
            if self.nodes[i] == *node {
                return Some(i);
            }
            i += 1;
        }
        None
    }

    /// How many times the shape of `node` is counted.
    pub fn get(&self, node: &Syntax) -> (c: i64)
        requires
            self.wf(),
        ensures
            c == self@.count(node@.key()),
    {
        match self.find(node) {
            Some(i) => self.counts[i],
            None => {
                proof {
                    let k = node@.key();
                    if self@.count(k) > 0 {
                        assert(exists|i: int|
                            0 <= i < self.nodes@.len() && #[trigger] self.nodes@[i]@.key() == k);
                    }
                }
                0
            },
        }
    }

    /// Counts the shape of `node` once more.
    pub fn add_one(&mut self, node: &Syntax)
        requires
            old(self).wf(),
            old(self)@.count(node@.key()) < i64::MAX,
        ensures
            final(self).wf(),
            final(self)@ == old(self)@.insert(node@.key()),
    {
        let ghost k = node@.key();
        match self.find(node) {
            Some(i) => {
                let c = self.counts[i];
                self.counts.set(i, c + 1);
                self.model = Ghost(self.model@.insert(k));
                assert forall|j: int| 0 <= j < self.counts@.len() implies #[trigger] self.counts@[j]
                    == self.model@.count(self.nodes@[j]@.key()) by {
                    if j != i {
                        assert(self.nodes@[j]@.key() != self.nodes@[i as int]@.key());
                    }
                }
                assert forall|k2: Shape| #[trigger] self.model@.count(k2) > 0 implies exists|j: int|
                    0 <= j < self.nodes@.len() && #[trigger] self.nodes@[j]@.key() == k2 by {
                    if k2 == k {
                        assert(self.nodes@[i as int]@.key() == k2);
                    } else {
                        assert(old(self)@.count(k2) > 0);
                    }
                }
            },
            None => {
                proof {
                    if self@.count(k) > 0 {
                        assert(exists|i: int|
                            0 <= i < self.nodes@.len() && #[trigger] self.nodes@[i]@.key() == k);
                    }
                }
                let copy = node.clone();
                self.nodes.push(copy);
                self.counts.push(1);
                self.model = Ghost(self.model@.insert(k));
                let ghost last = self.nodes@.len() - 1;
                assert forall|j: int| 0 <= j < self.counts@.len() implies #[trigger] self.counts@[j]
                    == self.model@.count(self.nodes@[j]@.key()) by {
                    if j != last {
                        assert(self.nodes@[j] == old(self).nodes@[j]);
                    }
                }
                assert forall|a: int, b: int|
                    0 <= a < self.nodes@.len() && 0 <= b < self.nodes@.len() && a != b
                        implies #[trigger] self.nodes@[a]@.key() != #[trigger] self.nodes@[b]@.key() by {
                    if a != last && b != last {
                        assert(self.nodes@[a] == old(self).nodes@[a]);
                        assert(self.nodes@[b] == old(self).nodes@[b]);
                    } else if a == last {
                        assert(self.nodes@[b] == old(self).nodes@[b]);
                    } else {
                        assert(self.nodes@[a] == old(self).nodes@[a]);
                    }
                }
                assert forall|k2: Shape| #[trigger] self.model@.count(k2) > 0 implies exists|j: int|
                    0 <= j < self.nodes@.len() && #[trigger] self.nodes@[j]@.key() == k2 by {
                    if k2 == k {
                        assert(self.nodes@[last]@.key() == k2);
                    } else {
                        assert(old(self)@.count(k2) > 0);
                        let j = choose|j: int|
                            0 <= j < old(self).nodes@.len() && #[trigger] old(
                                self,
                            ).nodes@[j]@.key() == k2;
                        assert(self.nodes@[j] == old(self).nodes@[j]);
                    }
                }
            },
        }
    }

    /// Counts the shape of `node` once less.
    pub fn remove_one(&mut self, node: &Syntax)
        requires
            old(self).wf(),
            old(self)@.count(node@.key()) > 0,
        ensures
            final(self).wf(),
            final(self)@ == old(self)@.remove(node@.key()),
    {
        let ghost k = node@.key();
        match self.find(node) {
            Some(i) => {
                let c = self.counts[i];
                self.counts.set(i, c - 1);
                self.model = Ghost(self.model@.remove(k));
                assert forall|j: int| 0 <= j < self.counts@.len() implies #[trigger] self.counts@[j]
                    == self.model@.count(self.nodes@[j]@.key()) by {
                    if j != i {
                        assert(self.nodes@[j]@.key() != self.nodes@[i as int]@.key());
                    }
                }
                assert forall|k2: Shape| #[trigger] self.model@.count(k2) > 0 implies exists|j: int|
                    0 <= j < self.nodes@.len() && #[trigger] self.nodes@[j]@.key() == k2 by {
                    assert(old(self)@.count(k2) > 0);
                }
            },
            None => {
                assert(exists|i: int|
                    0 <= i < self.nodes@.len() && #[trigger] self.nodes@[i]@.key() == k);
            },
        }
    }
    /// Whether every shape is counted here at most as often as in `other`.
    pub fn fits_within(&self, other: &SubtreeCounts) -> (r: bool)
        requires
            self.wf(),
            other.wf(),
        ensures
            r == self@.subset_of(other@),
    {
        let n = self.nodes.len();
        let mut i: usize = 0;
        while i < n
            invariant
                self.wf(),
                other.wf(),
                n == self.nodes@.len(),
                i <= n,
                forall|j: int|
                    0 <= j < i ==> self.model@.count(#[trigger] self.nodes@[j]@.key()) <= other@.count(
                        self.nodes@[j]@.key(),
                    ),
            decreases n - i,
        {
            if self.counts[i] > other.get(&self.nodes[i]) {
                return false;
            }
            i += 1;
        }
        assert forall|k: Shape| #[trigger] self@.count(k) <= other@.count(k) by {
            if self@.count(k) > 0 {
                let j = choose|j: int| 0 <= j < self.nodes@.len() && #[trigger] self.nodes@[j]@.key() == k;
                assert(self.model@.count(self.nodes@[j]@.key()) <= other@.count(self.nodes@[j]@.key()));
            }
        }
        true
    }
}

} // verus!
