//! What the greedy differ does to two forests, as a function of their values
//! and of the subtree counts it starts from.
use vstd::multiset::Multiset;
use vstd::prelude::*;

use crate::tree_diff::ChangeKind;
use crate::tree_model::{
    Shape, Tree, forest_size, trees_subtrees, lemma_subtrees_unfold, lemma_trees_subtrees_cons,
    lemma_trees_subtrees_empty, lemma_trees_subtrees_first,
};

verus! {

/// Both forests after a walk, with their new change marks, and what is left
/// of both subtree counts.
pub struct Walked {
    pub lhs: Seq<Tree>,
    pub rhs: Seq<Tree>,
    pub lhs_counts: Multiset<Shape>,
    pub rhs_counts: Multiset<Shape>,
}

/// Puts `l` and `r` in front of the forests of a walk that went through.
pub open spec fn prepend(l: Seq<Tree>, r: Seq<Tree>, rest: Option<Walked>) -> Option<Walked> {
    match rest {
        Some(w) => Some(
            Walked {
                lhs: l + w.lhs,
                rhs: r + w.rhs,
                lhs_counts: w.lhs_counts,
                rhs_counts: w.rhs_counts,
            },
        ),
        None => None,
    }
}

/// The sizes that bound the walk's recursion.
pub proof fn lemma_first_measure(s: Seq<Tree>)
    requires
        s.len() > 0,
    ensures
        forest_size(s.drop_first()) < forest_size(s),
        s[0].size() <= forest_size(s),
        forest_size(seq![s[0]]) == s[0].size(),
        match s[0] {
            Tree::List { children, .. } => forest_size(children) < s[0].size(),
            Tree::Atom { .. } => true,
        },
{
    lemma_trees_subtrees_first(s);
    lemma_subtrees_unfold(s[0]);
    lemma_trees_subtrees_cons(s[0], Seq::empty());
    lemma_trees_subtrees_empty();
    assert(seq![s[0]] + Seq::<Tree>::empty() =~= seq![s[0]]);
}

/// The sizes that bound the walk's recursion, for both sides.
pub proof fn lemma_walk_measures(lhs: Seq<Tree>, rhs: Seq<Tree>)
    ensures
        lhs.len() > 0 ==> {
            &&& forest_size(lhs.drop_first()) < forest_size(lhs)
            &&& lhs[0].size() <= forest_size(lhs)
            &&& forest_size(seq![lhs[0]]) == lhs[0].size()
            &&& lhs[0] is List ==> forest_size(lhs[0]->children) < lhs[0].size()
        },
        rhs.len() > 0 ==> {
            &&& forest_size(rhs.drop_first()) < forest_size(rhs)
            &&& rhs[0].size() <= forest_size(rhs)
            &&& forest_size(seq![rhs[0]]) == rhs[0].size()
            &&& rhs[0] is List ==> forest_size(rhs[0]->children) < rhs[0].size()
        },
{
    if lhs.len() > 0 {
        lemma_first_measure(lhs);
    }
    if rhs.len() > 0 {
        lemma_first_measure(rhs);
    }
}

/// The walk over two forests `lhs` and `rhs`, with `lc` and `rc` the counts
/// of the subtrees not yet matched on each side. `None` where a count would
/// have to go below zero.
pub open spec fn walk(
    lhs: Seq<Tree>,
    rhs: Seq<Tree>,
    lc: Multiset<Shape>,
    rc: Multiset<Shape>,
) -> Option<Walked>
    decreases forest_size(lhs) + forest_size(rhs), 1nat,
{
    proof {
        lemma_walk_measures(lhs, rhs);
    }
    if lhs.len() == 0 && rhs.len() == 0 {
        Some(Walked { lhs, rhs, lhs_counts: lc, rhs_counts: rc })
    } else if rhs.len() == 0 {
        // Only the left side is left: a node still counted on the right moved.
        let a = lhs[0];
        if rc.count(a.key()) > 0 {
            if a.subtrees().subset_of(rc) {
                prepend(
                    seq![a.deep(ChangeKind::Moved)],
                    seq![],
                    walk(lhs.drop_first(), rhs, lc, rc.sub(a.subtrees())),
                )
            } else {
                None
            }
        } else {
            prepend(seq![a.deep(ChangeKind::Removed)], seq![], walk(lhs.drop_first(), rhs, lc, rc))
        }
    } else if lhs.len() == 0 {
        // Only the right side is left: a node still counted on the left moved.
        let b = rhs[0];
        if lc.count(b.key()) > 0 {
            if b.subtrees().subset_of(lc) {
                prepend(
                    seq![],
                    seq![b.deep(ChangeKind::Moved)],
                    walk(lhs, rhs.drop_first(), lc.sub(b.subtrees()), rc),
                )
            } else {
                None
            }
        } else {
            prepend(seq![], seq![b.deep(ChangeKind::Added)], walk(lhs, rhs.drop_first(), lc, rc))
        }
    } else {
        let a = lhs[0];
        let b = rhs[0];
        let l1 = lhs.drop_first();
        let r1 = rhs.drop_first();
        if a.key() == b.key() && lc.count(a.key()) > 0 && rc.count(a.key()) > 0 {
            // The same subtree, still unmatched on both sides.
            if a.subtrees().subset_of(lc) && b.subtrees().subset_of(rc) {
                prepend(
                    seq![a.deep(ChangeKind::Unchanged)],
                    seq![b.deep(ChangeKind::Unchanged)],
                    walk(l1, r1, lc.sub(a.subtrees()), rc.sub(b.subtrees())),
                )
            } else {
                None
            }
        } else if lc.count(a.key()) > rc.count(a.key()) && rc.count(a.key()) > 0 {
            // More instances of the left node on the left: a removal.
            if a.subtrees().subset_of(lc) {
                prepend(
                    seq![a.deep(ChangeKind::Removed)],
                    seq![],
                    walk(l1, rhs, lc.sub(a.subtrees()), rc),
                )
            } else {
                None
            }
        } else if rc.count(b.key()) > lc.count(b.key()) && lc.count(b.key()) > 0 {
            // More instances of the right node on the right: an addition.
            if b.subtrees().subset_of(rc) {
                prepend(
                    seq![],
                    seq![b.deep(ChangeKind::Added)],
                    walk(lhs, r1, lc, rc.sub(b.subtrees())),
                )
            } else {
                None
            }
        } else {
            // Neither count settles it: compare the two nodes themselves.
            match pair_walk(a, b, lc, rc) {
                Some(p) => prepend(p.lhs, p.rhs, walk(l1, r1, p.lhs_counts, p.rhs_counts)),
                None => None,
            }
        }
    }
}

/// The walk's step on two nodes that neither count settles: lists that share
/// their delimiters stay unchanged, other lists are replaced, and the walk goes
/// on inside; two atoms are a removal and an addition.
pub open spec fn pair_walk(a: Tree, b: Tree, lc: Multiset<Shape>, rc: Multiset<Shape>) -> Option<
    Walked,
>
    decreases a.size() + b.size(), 0nat,
{
    proof {
        lemma_walk_measures(seq![a], seq![b]);
    }
    match (a, b) {
        (
            Tree::List { start: s1, end: e1, children: c1, .. },
            Tree::List { start: s2, end: e2, children: c2, .. },
        ) => {
            let same = s1 == s2 && e1 == e2;
            match walk(c1, c2, lc, rc) {
                Some(inner) => Some(
                    Walked {
                        lhs: seq![
                            Tree::List {
                                change: if same {
                                    ChangeKind::Unchanged
                                } else {
                                    ChangeKind::Removed
                                },
                                start: s1,
                                end: e1,
                                children: inner.lhs,
                            },
                        ],
                        rhs: seq![
                            Tree::List {
                                change: if same {
                                    ChangeKind::Unchanged
                                } else {
                                    ChangeKind::Added
                                },
                                start: s2,
                                end: e2,
                                children: inner.rhs,
                            },
                        ],
                        lhs_counts: inner.lhs_counts,
                        rhs_counts: inner.rhs_counts,
                    },
                ),
                None => None,
            }
        },
        (Tree::List { start: s1, end: e1, children: c1, .. }, Tree::Atom { .. }) => {
            match walk(c1, seq![b], lc, rc) {
                Some(inner) => Some(
                    Walked {
                        lhs: seq![
                            Tree::List {
                                change: ChangeKind::Removed,
                                start: s1,
                                end: e1,
                                children: inner.lhs,
                            },
                        ],
                        rhs: inner.rhs,
                        lhs_counts: inner.lhs_counts,
                        rhs_counts: inner.rhs_counts,
                    },
                ),
                None => None,
            }
        },
        (Tree::Atom { .. }, Tree::List { start: s2, end: e2, children: c2, .. }) => {
            match walk(seq![a], c2, lc, rc) {
                Some(inner) => Some(
                    Walked {
                        lhs: inner.lhs,
                        rhs: seq![
                            Tree::List {
                                change: ChangeKind::Added,
                                start: s2,
                                end: e2,
                                children: inner.rhs,
                            },
                        ],
                        lhs_counts: inner.lhs_counts,
                        rhs_counts: inner.rhs_counts,
                    },
                ),
                None => None,
            }
        },
        (Tree::Atom { .. }, Tree::Atom { .. }) => Some(
            Walked {
                lhs: seq![a.with_change(ChangeKind::Removed)],
                rhs: seq![b.with_change(ChangeKind::Added)],
                lhs_counts: lc,
                rhs_counts: rc,
            },
        ),
    }
}

/// A walk keeps the number of trees on each side.
pub proof fn lemma_walk_len(lhs: Seq<Tree>, rhs: Seq<Tree>, lc: Multiset<Shape>, rc: Multiset<Shape>)
    requires
        walk(lhs, rhs, lc, rc) is Some,
    ensures
        walk(lhs, rhs, lc, rc).unwrap().lhs.len() == lhs.len(),
        walk(lhs, rhs, lc, rc).unwrap().rhs.len() == rhs.len(),
    decreases forest_size(lhs) + forest_size(rhs), 1nat,
{
    if lhs.len() > 0 {
        lemma_first_measure(lhs);
    }
    if rhs.len() > 0 {
        lemma_first_measure(rhs);
    }
    if lhs.len() == 0 && rhs.len() == 0 {
    } else if rhs.len() == 0 {
        let a = lhs[0];
        if rc.count(a.key()) > 0 {
            lemma_walk_len(lhs.drop_first(), rhs, lc, rc.sub(a.subtrees()));
        } else {
            lemma_walk_len(lhs.drop_first(), rhs, lc, rc);
        }
    } else if lhs.len() == 0 {
        let b = rhs[0];
        if lc.count(b.key()) > 0 {
            lemma_walk_len(lhs, rhs.drop_first(), lc.sub(b.subtrees()), rc);
        } else {
            lemma_walk_len(lhs, rhs.drop_first(), lc, rc);
        }
    } else {
        let a = lhs[0];
        let b = rhs[0];
        let l1 = lhs.drop_first();
        let r1 = rhs.drop_first();
        if a.key() == b.key() && lc.count(a.key()) > 0 && rc.count(a.key()) > 0 {
            lemma_walk_len(l1, r1, lc.sub(a.subtrees()), rc.sub(b.subtrees()));
        } else if lc.count(a.key()) > rc.count(a.key()) && rc.count(a.key()) > 0 {
            lemma_walk_len(l1, rhs, lc.sub(a.subtrees()), rc);
        } else if rc.count(b.key()) > lc.count(b.key()) && lc.count(b.key()) > 0 {
            lemma_walk_len(lhs, r1, lc, rc.sub(b.subtrees()));
        } else {
            lemma_pair_walk_len(a, b, lc, rc);
            let p = pair_walk(a, b, lc, rc).unwrap();
            lemma_walk_len(l1, r1, p.lhs_counts, p.rhs_counts);
        }
    }
}

/// The step on two nodes gives back one node on each side.
pub proof fn lemma_pair_walk_len(a: Tree, b: Tree, lc: Multiset<Shape>, rc: Multiset<Shape>)
    requires
        pair_walk(a, b, lc, rc) is Some,
    ensures
        pair_walk(a, b, lc, rc).unwrap().lhs.len() == 1,
        pair_walk(a, b, lc, rc).unwrap().rhs.len() == 1,
    decreases a.size() + b.size(), 0nat,
{
    lemma_walk_measures(seq![a], seq![b]);
    match (a, b) {
        (Tree::List { children: c1, .. }, Tree::Atom { .. }) => {
            lemma_walk_len(c1, seq![b], lc, rc);
        },
        (Tree::Atom { .. }, Tree::List { children: c2, .. }) => {
            lemma_walk_len(seq![a], c2, lc, rc);
        },
        _ => {},
    }
}

/// The walk that a comparison of two whole forests makes: each side starts
/// with the count of its own subtrees.
pub open spec fn compared(lhs: Seq<Tree>, rhs: Seq<Tree>) -> Option<Walked> {
    walk(lhs, rhs, trees_subtrees(lhs), trees_subtrees(rhs))
}

} // verus!
