//! A greedy differ for syntax trees: it marks each node of two forests as
//! unchanged, added, removed or moved.
use vstd::multiset::Multiset;
use vstd::prelude::*;
use vstd::std_specs::cmp::PartialEqSpecImpl;

use crate::pairing_laws::{
    all_atoms, law_flat_forests_compare, law_unchanged_nodes_pair_up, unchanged_labels_seq,
};
use crate::subtree_counts::SubtreeCounts;
use crate::tree_model::{
    Shape, Tree, deep_all, forest_size, keys, lemma_deep_all, lemma_deep_key,
    lemma_forest_size_elem, lemma_keys, lemma_subtrees_unfold, lemma_trees,
    lemma_trees_subtrees_concat, lemma_trees_subtrees_empty, lemma_trees_subtrees_push,
    lemma_with_change_key, trees, trees_subtrees,
};
use crate::walk_model::{Walked, compared, lemma_walk_len, lemma_walk_measures, pair_walk, walk};

verus! {

broadcast use {lemma_keys, lemma_deep_all, lemma_deep_key, lemma_with_change_key, lemma_trees};

/// How a node of a syntax tree differs between the two sides of a diff.
#[derive(PartialEq, Eq, Copy, Clone, Debug, Structural)]
pub enum ChangeKind {
    Unchanged,
    Added,
    Removed,
    Moved,
}

/// A syntax tree node: a delimited list of children, or an atom.
#[derive(Debug)]
pub enum Syntax {
    List { change: ChangeKind, start_content: String, end_content: String, children: Vec<Syntax> },
    Atom { change: ChangeKind, content: String },
}

impl Syntax {
    /// Replaces this node's own change mark.
    fn set_change(&mut self, ck: ChangeKind)
        ensures
            final(self)@ == old(self)@.with_change(ck),
    {
        match self {
            Syntax::List { change, .. } => {
                *change = ck;
            },
            Syntax::Atom { change, .. } => {
                *change = ck;
            },
        }
    }

    /// This node's own change mark.
    pub fn change(&self) -> (ck: ChangeKind)
        ensures
            ck == self@.change(),
    {
        match self {
            Syntax::List { change, .. } => *change,
            Syntax::Atom { change, .. } => *change,
        }
    }

    /// Replaces the change mark of every node in this tree.
    pub fn set_change_deep(&mut self, ck: ChangeKind)
        ensures
            final(self)@ == old(self)@.deep(ck),
        decreases old(self)@.size(),
    {
        self.set_change(ck);
        let ghost total = old(self)@.size();
        let ghost pre = *self;
        proof {
            lemma_subtrees_unfold(pre@);
            if let Syntax::List { children: c, .. } = pre {
                assert(pre@ == Tree::List {
                    change: ck,
                    start: pre@->start,
                    end: pre@->end,
                    children: trees(c@),
                });
                assert forall|i: int| 0 <= i < c@.len() implies (#[trigger] c@[i])@.size()
                    < total by {
                    lemma_forest_size_elem(trees(c@), i);
                }
            }
        }
        match self {
            Syntax::List { children, .. } => {
                let ghost before = children@;
                assert(match pre {
                    Syntax::List { children: c, .. } => c@ == before,
                    _ => false,
                });
                assert(forall|i: int| 0 <= i < before.len() ==> (#[trigger] before[i])@.size() < total);
                let n = children.len();
                let mut k: usize = 0;
                while k < n
                    invariant
                        children@.len() == n,
                        n == before.len(),
                        forall|i: int| 0 <= i < k ==> (#[trigger] children@[i])@ == before[i]@.deep(ck),
                        forall|i: int| k <= i < n ==> #[trigger] children@[i] == before[i],
                        forall|i: int| 0 <= i < n ==> (#[trigger] before[i])@.size() < total,
                        total == old(self)@.size(),
                    decreases n - k,
                {
                    children[k].set_change_deep(ck);
                    k += 1;
                }
                assert(trees(children@) =~= deep_all(trees(before), ck));
            },
            Syntax::Atom { .. } => {},
        }
    }
}

/// Each child of a list is smaller than the list.
proof fn lemma_children_smaller(s: Syntax)
    ensures
        s@.size() >= 1,
        match s {
            Syntax::List { children, .. } => forall|i: int|
                0 <= i < children@.len() ==> (#[trigger] children@[i])@.size() < s@.size(),
            Syntax::Atom { .. } => true,
        },
{
    lemma_subtrees_unfold(s@);
    if let Syntax::List { children, .. } = s {
        assert forall|i: int| 0 <= i < children@.len() implies (#[trigger] children@[i])@.size()
            < s@.size() by {
            lemma_forest_size_elem(trees(children@), i);
        }
    }
}

/// Whether two nodes have the same content, change marks aside.
fn same_content(a: &Syntax, b: &Syntax) -> (r: bool)
    ensures
        r == (a@.key() == b@.key()),
    decreases a@.size(),
{
    proof {
        lemma_children_smaller(*a);
    }
    match (a, b) {
        (Syntax::Atom { content: x, .. }, Syntax::Atom { content: y, .. }) => *x == *y,
        (
            Syntax::List { start_content: s1, end_content: e1, children: c1, .. },
            Syntax::List { start_content: s2, end_content: e2, children: c2, .. },
        ) => {
            if !(*s1 == *s2 && *e1 == *e2) {
                return false;
            }
            if c1.len() != c2.len() {
                assert(keys(trees(c1@)).len() != keys(trees(c2@)).len());
                return false;
            }
            let n = c1.len();
            let mut k: usize = 0;
            while k < n
                invariant
                    n == c1@.len(),
                    n == c2@.len(),
                    k <= n,
                    forall|i: int| 0 <= i < n ==> (#[trigger] c1@[i])@.size() < a@.size(),
                    a@.key() == (Shape::List { start: s1@, end: e1@, children: keys(trees(c1@)) }),
                    b@.key() == (Shape::List { start: s2@, end: e2@, children: keys(trees(c2@)) }),
                    forall|i: int| 0 <= i < k ==> (#[trigger] c1@[i])@.key() == c2@[i]@.key(),
                decreases n - k,
            {
                if !same_content(&c1[k], &c2[k]) {
                    assert(keys(trees(c1@))[k as int] != keys(trees(c2@))[k as int]);
                    return false;
                }
                k += 1;
            }
            assert(keys(trees(c1@)) =~= keys(trees(c2@)));
            true
        },
        _ => false,
    }
}

impl PartialEq for Syntax {
    /// Nodes are equal when their content is, whatever their change marks.
    fn eq(&self, other: &Self) -> (r: bool) {
        same_content(self, other)
    }
}

impl Eq for Syntax {

}

impl PartialEqSpecImpl for Syntax {
    open spec fn obeys_eq_spec() -> bool {
        true
    }

    open spec fn eq_spec(&self, other: &Self) -> bool {
        self@.key() == other@.key()
    }
}

impl Clone for Syntax {
    /// A deep copy.
    fn clone(&self) -> (r: Self)
        ensures
            r@ == self@,
        decreases self@.size(),
    {
        proof {
            lemma_children_smaller(*self);
        }
        match self {
            Syntax::Atom { change, content } => Syntax::Atom {
                change: *change,
                content: content.clone(),
            },
            Syntax::List { change, start_content, end_content, children } => {
                let n = children.len();
                let mut copies: Vec<Syntax> = Vec::new();
                let mut k: usize = 0;
                while k < n
                    invariant
                        n == children@.len(),
                        k <= n,
                        copies@.len() == k,
                        forall|i: int| 0 <= i < n ==> (#[trigger] children@[i])@.size() < self@.size(),
                        forall|i: int| 0 <= i < k ==> (#[trigger] copies@[i])@ == children@[i]@,
                    decreases n - k,
                {
                    copies.push(children[k].clone());
                    k += 1;
                }
                assert(trees(copies@) =~= trees(children@));
                Syntax::List {
                    change: *change,
                    start_content: start_content.clone(),
                    end_content: end_content.clone(),
                    children: copies,
                }
            },
        }
    }
}

/// Counts every subtree of `s` once more in `subtrees`.
pub fn build_subtrees(s: &Syntax, subtrees: &mut SubtreeCounts)
    requires
        old(subtrees).wf(),
        old(subtrees)@.len() + s@.size() <= i64::MAX,
    ensures
        final(subtrees).wf(),
        final(subtrees)@ == old(subtrees)@.add(s@.subtrees()),
    decreases s@.size(),
{
    proof {
        lemma_children_smaller(*s);
        lemma_subtrees_unfold(s@);
        assert(old(subtrees)@.count(s@.key()) <= old(subtrees)@.len());
    }
    subtrees.add_one(s);
    match s {
        Syntax::List { children, .. } => {
            let ghost cs = trees(children@);
            let ghost start = subtrees@;
            let n = children.len();
            let mut k: usize = 0;
            proof {
                lemma_trees_subtrees_empty();
                assert(cs.take(0) =~= Seq::<Tree>::empty());
                assert(start.add(trees_subtrees(cs.take(0))) =~= start);
            }
            while k < n
                invariant
                    n == children@.len(),
                    cs == trees(children@),
                    k <= n,
                    forall|i: int| 0 <= i < n ==> (#[trigger] children@[i])@.size() < s@.size(),
                    subtrees.wf(),
                    subtrees@ == start.add(trees_subtrees(cs.take(k as int))),
                    start.len() + forest_size(cs) <= i64::MAX,
                decreases n - k,
            {
                proof {
                    assert(cs.take(k + 1) =~= cs.take(k as int).push(cs[k as int]));
                    lemma_trees_subtrees_push(cs.take(k as int), cs[k as int]);
                    assert(cs =~= cs.take(k + 1) + cs.skip(k + 1));
                    lemma_trees_subtrees_concat(cs.take(k + 1), cs.skip(k + 1));
                }
                build_subtrees(&children[k], subtrees);
                proof {
                    assert(subtrees@ =~= start.add(trees_subtrees(cs.take(k + 1))));
                }
                k += 1;
            }
            proof {
                assert(cs.take(n as int) =~= cs);
                assert(subtrees@ =~= old(subtrees)@.add(s@.subtrees()));
            }
        },
        Syntax::Atom { .. } => {
            assert(subtrees@ =~= old(subtrees)@.add(s@.subtrees()));
        },
    }
}

/// Takes every subtree of `node` out of `counts` once.
pub fn decrement(node: &Syntax, counts: &mut SubtreeCounts)
    requires
        old(counts).wf(),
        node@.subtrees().subset_of(old(counts)@),
    ensures
        final(counts).wf(),
        final(counts)@ == old(counts)@.sub(node@.subtrees()),
    decreases node@.size(),
{
    proof {
        lemma_children_smaller(*node);
        lemma_subtrees_unfold(node@);
    }
    counts.remove_one(node);
    match node {
        Syntax::List { children, .. } => {
            let ghost cs = trees(children@);
            let ghost start = old(counts)@;
            let ghost me = Multiset::singleton(node@.key());
            let n = children.len();
            let mut k: usize = 0;
            proof {
                lemma_trees_subtrees_empty();
                assert(cs.take(0) =~= Seq::<Tree>::empty());
                assert(counts@ =~= start.sub(me.add(trees_subtrees(cs.take(0)))));
            }
            while k < n
                invariant
                    n == children@.len(),
                    cs == trees(children@),
                    k <= n,
                    forall|i: int| 0 <= i < n ==> (#[trigger] children@[i])@.size() < node@.size(),
                    counts.wf(),
                    counts@ == start.sub(me.add(trees_subtrees(cs.take(k as int)))),
                    me.add(trees_subtrees(cs)).subset_of(start),
                decreases n - k,
            {
                proof {
                    assert(cs.take(k + 1) =~= cs.take(k as int).push(cs[k as int]));
                    lemma_trees_subtrees_push(cs.take(k as int), cs[k as int]);
                    assert(cs =~= cs.take(k + 1) + cs.skip(k + 1));
                    lemma_trees_subtrees_concat(cs.take(k + 1), cs.skip(k + 1));
                    assert(children@[k as int]@.subtrees().subset_of(counts@));
                }
                decrement(&children[k], counts);
                proof {
                    assert(counts@ =~= start.sub(me.add(trees_subtrees(cs.take(k + 1)))));
                }
                k += 1;
            }
            proof {
                assert(cs.take(n as int) =~= cs);
                assert(counts@ =~= old(counts)@.sub(node@.subtrees()));
            }
        },
        Syntax::Atom { .. } => {
            assert(counts@ =~= old(counts)@.sub(node@.subtrees()));
        },
    }
}

/// Whether `counts` holds every subtree of `node`, so that `decrement` can take
/// them out.
fn subtrees_fit(node: &Syntax, counts: &SubtreeCounts) -> (r: bool)
    requires
        counts.wf(),
        node@.size() <= i64::MAX,
    ensures
        r == node@.subtrees().subset_of(counts@),
{
    let mut own = SubtreeCounts::new();
    build_subtrees(node, &mut own);
    assert(own@ =~= node@.subtrees());
    own.fits_within(counts)
}

/// Greedy tree differ: marks each node of `lhs` and `rhs`, and takes every
/// subtree that it marks as matched or moved out of the counts. Returns
/// `false`, leaving the forests and counts part done, where a count would
/// have to go below zero.
#[verifier::spinoff_prover]
fn walk_nodes_ordered(
    lhs: &mut [Syntax],
    rhs: &mut [Syntax],
    lhs_counts: &mut SubtreeCounts,
    rhs_counts: &mut SubtreeCounts,
) -> (ok: bool)
    requires
        old(lhs_counts).wf(),
        old(rhs_counts).wf(),
        forest_size(trees(old(lhs)@)) <= i64::MAX,
        forest_size(trees(old(rhs)@)) <= i64::MAX,
    ensures
        final(lhs_counts).wf(),
        final(rhs_counts).wf(),
        ok == walk(trees(old(lhs)@), trees(old(rhs)@), old(lhs_counts)@, old(rhs_counts)@) is Some,
        ok ==> walk(trees(old(lhs)@), trees(old(rhs)@), old(lhs_counts)@, old(rhs_counts)@)
            == Some(
            Walked {
                lhs: trees(final(lhs)@),
                rhs: trees(final(rhs)@),
                lhs_counts: final(lhs_counts)@,
                rhs_counts: final(rhs_counts)@,
            },
        ),
    decreases forest_size(trees(old(lhs)@)) + forest_size(trees(old(rhs)@)), 1nat,
{
    let ghost l0 = trees(lhs@);
    let ghost r0 = trees(rhs@);
    let ghost outcome = walk(l0, r0, lhs_counts@, rhs_counts@);
    let ln = lhs.len();
    let rn = rhs.len();
    let mut i: usize = 0;
    let mut j: usize = 0;
    proof {
        assert(l0.skip(0) =~= l0);
        assert(r0.skip(0) =~= r0);
        if outcome is Some {
            assert(trees(lhs@).take(0) + outcome.unwrap().lhs =~= outcome.unwrap().lhs);
            assert(trees(rhs@).take(0) + outcome.unwrap().rhs =~= outcome.unwrap().rhs);
        }
    }
    while i < ln || j < rn
        invariant
            lhs@.len() == ln,
            rhs@.len() == rn,
            l0.len() == ln,
            r0.len() == rn,
            i <= ln,
            j <= rn,
            l0 == trees(old(lhs)@),
            r0 == trees(old(rhs)@),
            forest_size(l0) <= i64::MAX,
            forest_size(r0) <= i64::MAX,
            forall|k: int| i <= k < ln ==> (#[trigger] lhs@[k])@ == l0[k],
            forall|k: int| j <= k < rn ==> (#[trigger] rhs@[k])@ == r0[k],
            lhs_counts.wf(),
            rhs_counts.wf(),
            outcome == walk(l0, r0, old(lhs_counts)@, old(rhs_counts)@),
            (walk(l0.skip(i as int), r0.skip(j as int), lhs_counts@, rhs_counts@) is Some) == (
            outcome is Some),
            walk(l0.skip(i as int), r0.skip(j as int), lhs_counts@, rhs_counts@) matches Some(w)
                ==> outcome == Some(
                Walked {
                    lhs: trees(lhs@).take(i as int) + w.lhs,
                    rhs: trees(rhs@).take(j as int) + w.rhs,
                    lhs_counts: w.lhs_counts,
                    rhs_counts: w.rhs_counts,
                },
            ),
        decreases (ln - i) + (rn - j),
    {
        let ghost ls = l0.skip(i as int);
        let ghost rs = r0.skip(j as int);
        let ghost tl = trees(lhs@);
        let ghost tr = trees(rhs@);
        let ghost w = walk(ls, rs, lhs_counts@, rhs_counts@).unwrap();
        proof {
            lemma_walk_measures(ls, rs);
            if i < ln {
                assert(ls[0] == l0[i as int]);
                assert(ls.drop_first() =~= l0.skip(i + 1));
                lemma_forest_size_elem(l0, i as int);
            }
            if j < rn {
                assert(rs[0] == r0[j as int]);
                assert(rs.drop_first() =~= r0.skip(j + 1));
                lemma_forest_size_elem(r0, j as int);
            }
        }
        if i < ln && j < rn {
            let lhs_count = lhs_counts.get(&lhs[i]);
            let rhs_count = rhs_counts.get(&lhs[i]);
            if lhs[i] == rhs[j] && lhs_count > 0 && rhs_count > 0 {
                if !subtrees_fit(&lhs[i], lhs_counts) || !subtrees_fit(&rhs[j], rhs_counts) {
                    return false;
                }
                lhs[i].set_change_deep(ChangeKind::Unchanged);
                rhs[j].set_change_deep(ChangeKind::Unchanged);
                decrement(&lhs[i], lhs_counts);
                decrement(&rhs[j], rhs_counts);
                proof {
                    if walk(l0.skip(i + 1), r0.skip(j + 1), lhs_counts@, rhs_counts@) is Some {
                        let w2 = walk(l0.skip(i + 1), r0.skip(j + 1), lhs_counts@, rhs_counts@).unwrap();
                        assert(trees(lhs@).take(i + 1) =~= tl.take(i as int).push(lhs@[i as int]@));
                        assert(trees(rhs@).take(j + 1) =~= tr.take(j as int).push(rhs@[j as int]@));
                        assert(trees(lhs@).take(i + 1) + w2.lhs =~= tl.take(i as int) + w.lhs);
                        assert(trees(rhs@).take(j + 1) + w2.rhs =~= tr.take(j as int) + w.rhs);
                    }
                }
                i += 1;
                j += 1;
            } else if lhs_count > rhs_count && rhs_count > 0 {
                if !subtrees_fit(&lhs[i], lhs_counts) {
                    return false;
                }
                lhs[i].set_change_deep(ChangeKind::Removed);
                decrement(&lhs[i], lhs_counts);
                proof {
                    assert(trees(rhs@) == tr);
                    if walk(l0.skip(i + 1), rs, lhs_counts@, rhs_counts@) is Some {
                        let w2 = walk(l0.skip(i + 1), rs, lhs_counts@, rhs_counts@).unwrap();
                        assert(trees(lhs@).take(i + 1) =~= tl.take(i as int).push(lhs@[i as int]@));
                        assert(trees(lhs@).take(i + 1) + w2.lhs =~= tl.take(i as int) + w.lhs);
                        assert(tr.take(j as int) + w2.rhs =~= tr.take(j as int) + w.rhs);
                    }
                }
                i += 1;
            } else {
                let lhs_count = lhs_counts.get(&rhs[j]);
                let rhs_count = rhs_counts.get(&rhs[j]);
                if rhs_count > lhs_count && lhs_count > 0 {
                    if !subtrees_fit(&rhs[j], rhs_counts) {
                        return false;
                    }
                    rhs[j].set_change_deep(ChangeKind::Added);
                    decrement(&rhs[j], rhs_counts);
                    proof {
                        assert(trees(lhs@) == tl);
                        if walk(ls, r0.skip(j + 1), lhs_counts@, rhs_counts@) is Some {
                            let w2 = walk(ls, r0.skip(j + 1), lhs_counts@, rhs_counts@).unwrap();
                            assert(trees(rhs@).take(j + 1) =~= tr.take(j as int).push(rhs@[j as int]@));
                            assert(trees(rhs@).take(j + 1) + w2.rhs =~= tr.take(j as int) + w.rhs);
                            assert(tl.take(i as int) + w2.lhs =~= tl.take(i as int) + w.lhs);
                        }
                    }
                    j += 1;
                } else {
                    if !walk_pair(&mut lhs[i], &mut rhs[j], lhs_counts, rhs_counts) {
                        return false;
                    }
                    proof {
                        if walk(l0.skip(i + 1), r0.skip(j + 1), lhs_counts@, rhs_counts@) is Some {
                            let w2 = walk(l0.skip(i + 1), r0.skip(j + 1), lhs_counts@, rhs_counts@).unwrap();
                            assert(trees(lhs@).take(i + 1) =~= tl.take(i as int).push(lhs@[i as int]@));
                            assert(trees(rhs@).take(j + 1) =~= tr.take(j as int).push(rhs@[j as int]@));
                            assert(trees(lhs@).take(i + 1) + w2.lhs =~= tl.take(i as int) + w.lhs);
                            assert(trees(rhs@).take(j + 1) + w2.rhs =~= tr.take(j as int) + w.rhs);
                        }
                    }
                    i += 1;
                    j += 1;
                }
            }
        } else if i < ln {
            let rhs_count = rhs_counts.get(&lhs[i]);
            if rhs_count > 0 {
                if !subtrees_fit(&lhs[i], rhs_counts) {
                    return false;
                }
                lhs[i].set_change_deep(ChangeKind::Moved);
                decrement(&lhs[i], rhs_counts);
            } else {
                lhs[i].set_change_deep(ChangeKind::Removed);
            }
            proof {
                assert(trees(rhs@) == tr);
                if walk(l0.skip(i + 1), rs, lhs_counts@, rhs_counts@) is Some {
                    let w2 = walk(l0.skip(i + 1), rs, lhs_counts@, rhs_counts@).unwrap();
                    assert(trees(lhs@).take(i + 1) =~= tl.take(i as int).push(lhs@[i as int]@));
                    assert(trees(lhs@).take(i + 1) + w2.lhs =~= tl.take(i as int) + w.lhs);
                    assert(tr.take(j as int) + w2.rhs =~= tr.take(j as int) + w.rhs);
                }
            }
            i += 1;
        } else {
            let lhs_count = lhs_counts.get(&rhs[j]);
            if lhs_count > 0 {
                if !subtrees_fit(&rhs[j], lhs_counts) {
                    return false;
                }
                rhs[j].set_change_deep(ChangeKind::Moved);
                decrement(&rhs[j], lhs_counts);
            } else {
                rhs[j].set_change_deep(ChangeKind::Added);
            }
            proof {
                assert(trees(lhs@) == tl);
                if walk(ls, r0.skip(j + 1), lhs_counts@, rhs_counts@) is Some {
                    let w2 = walk(ls, r0.skip(j + 1), lhs_counts@, rhs_counts@).unwrap();
                    assert(trees(rhs@).take(j + 1) =~= tr.take(j as int).push(rhs@[j as int]@));
                    assert(trees(rhs@).take(j + 1) + w2.rhs =~= tr.take(j as int) + w.rhs);
                    assert(tl.take(i as int) + w2.lhs =~= tl.take(i as int) + w.lhs);
                }
            }
            j += 1;
        }
    }
    proof {
        assert(l0.skip(ln as int) =~= Seq::<Tree>::empty());
        assert(r0.skip(rn as int) =~= Seq::<Tree>::empty());
        assert(trees(lhs@).take(ln as int) + Seq::<Tree>::empty() =~= trees(lhs@));
        assert(trees(rhs@).take(rn as int) + Seq::<Tree>::empty() =~= trees(rhs@));
    }
    true
}

/// The walk's step on two nodes that neither count settles. Returns `false`
/// where the walk inside them does.
fn walk_pair(
    lhs_node: &mut Syntax,
    rhs_node: &mut Syntax,
    lhs_counts: &mut SubtreeCounts,
    rhs_counts: &mut SubtreeCounts,
) -> (ok: bool)
    requires
        old(lhs_counts).wf(),
        old(rhs_counts).wf(),
        old(lhs_node)@.size() <= i64::MAX,
        old(rhs_node)@.size() <= i64::MAX,
    ensures
        final(lhs_counts).wf(),
        final(rhs_counts).wf(),
        ok == pair_walk(old(lhs_node)@, old(rhs_node)@, old(lhs_counts)@, old(rhs_counts)@) is Some,
        ok ==> pair_walk(old(lhs_node)@, old(rhs_node)@, old(lhs_counts)@, old(rhs_counts)@)
            == Some(
            Walked {
                lhs: seq![final(lhs_node)@],
                rhs: seq![final(rhs_node)@],
                lhs_counts: final(lhs_counts)@,
                rhs_counts: final(rhs_counts)@,
            },
        ),
    decreases old(lhs_node)@.size() + old(rhs_node)@.size(), 0nat,
{
    proof {
        lemma_walk_measures(seq![lhs_node@], seq![rhs_node@]);
    }
    match lhs_node {
        Syntax::List { change: lhs_change, start_content: lhs_start, end_content: lhs_end, children: lhs_children } => {
            match rhs_node {
                Syntax::List { change: rhs_change, start_content: rhs_start, end_content: rhs_end, children: rhs_children } => {
                    if *lhs_start == *rhs_start && *lhs_end == *rhs_end {
                        *lhs_change = ChangeKind::Unchanged;
                        *rhs_change = ChangeKind::Unchanged;
                    } else {
                        *lhs_change = ChangeKind::Removed;
                        *rhs_change = ChangeKind::Added;
                    }
                    walk_nodes_ordered(
                        lhs_children.as_mut_slice(),
                        rhs_children.as_mut_slice(),
                        lhs_counts,
                        rhs_counts,
                    )
                },
                Syntax::Atom { .. } => {
                    *lhs_change = ChangeKind::Removed;
                    let mut single: Vec<Syntax> = Vec::new();
                    single.push(Syntax::Atom { change: ChangeKind::Unchanged, content: String::new() });
                    std::mem::swap(&mut single[0], rhs_node);
                    assert(trees(single@) =~= seq![old(rhs_node)@]);
                    let ghost before = single@;
                    let ghost pre_children = lhs_children@;
                    let ok = walk_nodes_ordered(
                        lhs_children.as_mut_slice(),
                        single.as_mut_slice(),
                        lhs_counts,
                        rhs_counts,
                    );
                    proof {
                        if ok {
                            lemma_walk_len(
                                trees(pre_children),
                                trees(before),
                                old(lhs_counts)@,
                                old(rhs_counts)@,
                            );
                        }
                    }
                    if !ok {
                        return false;
                    }
                    let ghost processed = single@;
                    assert(processed.len() == 1);
                    assert(trees(processed) =~= seq![processed[0]@]);
                    std::mem::swap(&mut single[0], rhs_node);
                    true
                },
            }
        },
        Syntax::Atom { change: lhs_change, .. } => {
            match rhs_node {
                Syntax::List { change: rhs_change, children: rhs_children, .. } => {
                    *rhs_change = ChangeKind::Added;
                    let mut single: Vec<Syntax> = Vec::new();
                    single.push(Syntax::Atom { change: ChangeKind::Unchanged, content: String::new() });
                    std::mem::swap(&mut single[0], lhs_node);
                    assert(trees(single@) =~= seq![old(lhs_node)@]);
                    let ghost before = single@;
                    let ghost pre_children = rhs_children@;
                    let ok = walk_nodes_ordered(
                        single.as_mut_slice(),
                        rhs_children.as_mut_slice(),
                        lhs_counts,
                        rhs_counts,
                    );
                    proof {
                        if ok {
                            lemma_walk_len(
                                trees(before),
                                trees(pre_children),
                                old(lhs_counts)@,
                                old(rhs_counts)@,
                            );
                        }
                    }
                    if !ok {
                        return false;
                    }
                    let ghost processed = single@;
                    assert(processed.len() == 1);
                    assert(trees(processed) =~= seq![processed[0]@]);
                    std::mem::swap(&mut single[0], lhs_node);
                    true
                },
                Syntax::Atom { change: rhs_change, .. } => {
                    *lhs_change = ChangeKind::Removed;
                    *rhs_change = ChangeKind::Added;
                    true
                },
            }
        },
    }
}

/// Extremely dumb top-level comparison of `lhs` and `rhs`: marks every node
/// of both as unchanged, added, removed or moved.
pub fn set_changed(lhs: &mut [Syntax], rhs: &mut [Syntax])
    requires
        compared(trees(old(lhs)@), trees(old(rhs)@)) is Some,
        forest_size(trees(old(lhs)@)) <= i64::MAX,
        forest_size(trees(old(rhs)@)) <= i64::MAX,
    ensures
        compared(trees(old(lhs)@), trees(old(rhs)@)) matches Some(w) && w.lhs == trees(final(lhs)@)
            && w.rhs == trees(final(rhs)@),
        unchanged_labels_seq(trees(final(lhs)@)) == unchanged_labels_seq(trees(final(rhs)@)),
{
    try_set_changed(lhs, rhs);
    proof {
        law_unchanged_nodes_pair_up(trees(old(lhs)@), trees(old(rhs)@));
    }
}

/// Compares `lhs` and `rhs` as `set_changed` does, where that goes through.
/// Returns `false`, with the marks set only in part, where `set_changed` would
/// have to take a subtree out of a count that holds none of it.
pub fn try_set_changed(lhs: &mut [Syntax], rhs: &mut [Syntax]) -> (ok: bool)
    requires
        forest_size(trees(old(lhs)@)) <= i64::MAX,
        forest_size(trees(old(rhs)@)) <= i64::MAX,
    ensures
        ok == compared(trees(old(lhs)@), trees(old(rhs)@)) is Some,
        ok ==> (compared(trees(old(lhs)@), trees(old(rhs)@)) matches Some(w) && w.lhs == trees(
            final(lhs)@,
        ) && w.rhs == trees(final(rhs)@)),
{
    let mut lhs_subtrees = count_subtrees(lhs);
    let mut rhs_subtrees = count_subtrees(rhs);
    walk_nodes_ordered(lhs, rhs, &mut lhs_subtrees, &mut rhs_subtrees)
}

/// Whether `set_changed` goes through on `lhs` and `rhs`; neither is changed.
pub fn can_compare(lhs: &[Syntax], rhs: &[Syntax]) -> (r: bool)
    requires
        forest_size(trees(lhs@)) <= i64::MAX,
        forest_size(trees(rhs@)) <= i64::MAX,
    ensures
        r == compared(trees(lhs@), trees(rhs@)) is Some,
        all_atoms(trees(lhs@)) && all_atoms(trees(rhs@)) ==> r,
{
    proof {
        if all_atoms(trees(lhs@)) && all_atoms(trees(rhs@)) {
            law_flat_forests_compare(trees(lhs@), trees(rhs@));
        }
    }
    let mut lhs_copy = copy_forest(lhs);
    let mut rhs_copy = copy_forest(rhs);
    try_set_changed(lhs_copy.as_mut_slice(), rhs_copy.as_mut_slice())
}

/// A deep copy of every node of `nodes`.
fn copy_forest(nodes: &[Syntax]) -> (r: Vec<Syntax>)
    ensures
        trees(r@) == trees(nodes@),
{
    let mut r: Vec<Syntax> = Vec::new();
    let n = nodes.len();
    let mut k: usize = 0;
    while k < n
        invariant
            n == nodes@.len(),
            k <= n,
            r@.len() == k,
            forall|i: int| 0 <= i < k ==> (#[trigger] r@[i])@ == nodes@[i]@,
        decreases n - k,
    {
        r.push(nodes[k].clone());
        k += 1;
    }
    assert(trees(r@) =~= trees(nodes@));
    r
}

/// The count of every subtree of every node of `nodes`.
fn count_subtrees(nodes: &[Syntax]) -> (counts: SubtreeCounts)
    requires
        forest_size(trees(nodes@)) <= i64::MAX,
    ensures
        counts.wf(),
        counts@ == trees_subtrees(trees(nodes@)),
{
    let ghost ts = trees(nodes@);
    let mut counts = SubtreeCounts::new();
    let n = nodes.len();
    let mut k: usize = 0;
    proof {
        lemma_trees_subtrees_empty();
        assert(ts.take(0) =~= Seq::<Tree>::empty());
    }
    while k < n
        invariant
            n == nodes@.len(),
            ts == trees(nodes@),
            k <= n,
            counts.wf(),
            counts@ == trees_subtrees(ts.take(k as int)),
            forest_size(ts) <= i64::MAX,
        decreases n - k,
    {
        proof {
            assert(ts.take(k + 1) =~= ts.take(k as int).push(ts[k as int]));
            lemma_trees_subtrees_push(ts.take(k as int), ts[k as int]);
            assert(ts =~= ts.take(k + 1) + ts.skip(k + 1));
            lemma_trees_subtrees_concat(ts.take(k + 1), ts.skip(k + 1));
        }
        build_subtrees(&nodes[k], &mut counts);
        k += 1;
    }
    proof {
        assert(ts.take(n as int) =~= ts);
    }
    counts
}

} // verus!
