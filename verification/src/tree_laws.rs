//! Laws of the tree differ, stated over the walk that `set_changed` makes.
use vstd::multiset::Multiset;
use vstd::prelude::*;

use crate::tree_diff::ChangeKind;
use crate::tree_model::{
    Shape, Tree, deep_all, forest_size, keys, lemma_all_marked_never, lemma_all_marked_seq,
    lemma_deep_all, lemma_deep_by_key, lemma_deep_key, lemma_deep_marked, lemma_keys, lemma_keys_drop_first, lemma_keys_index, lemma_keys_len,
    lemma_never_marked_seq, lemma_subtrees_unfold, lemma_trees_subtrees_first, never_marked, never_marked_seq,
    trees_subtrees,
};
use crate::walk_model::{Walked, compared, lemma_walk_measures, pair_walk, walk};

verus! {

broadcast use {
    lemma_keys,
    lemma_keys_len,
    lemma_keys_index,
    lemma_deep_all,
    lemma_deep_key,
    lemma_never_marked_seq,
    lemma_all_marked_seq,
    lemma_deep_marked,
};

/// A walk from `lhs` and `rhs` to `w` changed nothing but marks, marked no
/// node of the left side as added and no node of the right side as removed.
pub open spec fn keeps_content_and_sides(lhs: Seq<Tree>, rhs: Seq<Tree>, w: Walked) -> bool {
    &&& keys(w.lhs) == keys(lhs)
    &&& keys(w.rhs) == keys(rhs)
    &&& never_marked_seq(w.lhs, ChangeKind::Added)
    &&& never_marked_seq(w.rhs, ChangeKind::Removed)
}

proof fn lemma_keeps_concat(
    l1: Seq<Tree>,
    r1: Seq<Tree>,
    x: Walked,
    l2: Seq<Tree>,
    r2: Seq<Tree>,
    y: Walked,
)
    requires
        keeps_content_and_sides(l1, r1, x),
        keeps_content_and_sides(l2, r2, y),
    ensures
        keeps_content_and_sides(
            l1 + l2,
            r1 + r2,
            Walked {
                lhs: x.lhs + y.lhs,
                rhs: x.rhs + y.rhs,
                lhs_counts: y.lhs_counts,
                rhs_counts: y.rhs_counts,
            },
        ),
{
    assert(keys(x.lhs + y.lhs) =~= keys(x.lhs) + keys(y.lhs));
    assert(keys(l1 + l2) =~= keys(l1) + keys(l2));
    assert(keys(x.rhs + y.rhs) =~= keys(x.rhs) + keys(y.rhs));
    assert(keys(r1 + r2) =~= keys(r1) + keys(r2));
    assert(x.lhs.len() == l1.len() && y.lhs.len() == l2.len());
    let sl = x.lhs + y.lhs;
    assert forall|i: int| 0 <= i < sl.len() implies #[trigger] never_marked(
        sl[i],
        ChangeKind::Added,
    ) by {
        if i < x.lhs.len() {
            assert(sl[i] == x.lhs[i]);
        } else {
            assert(sl[i] == y.lhs[i - x.lhs.len()]);
        }
    }
    let sr = x.rhs + y.rhs;
    assert forall|i: int| 0 <= i < sr.len() implies #[trigger] never_marked(
        sr[i],
        ChangeKind::Removed,
    ) by {
        if i < x.rhs.len() {
            assert(sr[i] == x.rhs[i]);
        } else {
            assert(sr[i] == y.rhs[i - x.rhs.len()]);
        }
    }
}

proof fn lemma_deep_keeps(t: Tree, ck: ChangeKind, banned: ChangeKind)
    requires
        ck != banned,
    ensures
        keys(seq![t.deep(ck)]) == keys(seq![t]),
        never_marked_seq(seq![t.deep(ck)], banned),
{
    assert(keys(seq![t.deep(ck)]) =~= keys(seq![t]));
    lemma_all_marked_never(t.deep(ck), ck, banned);
    assert(seq![t.deep(ck)][0] == t.deep(ck));
}

proof fn lemma_empty_keeps()
    ensures
        keys(Seq::<Tree>::empty()) == Seq::<Shape>::empty(),
        never_marked_seq(Seq::<Tree>::empty(), ChangeKind::Added),
        never_marked_seq(Seq::<Tree>::empty(), ChangeKind::Removed),
{
    assert(keys(Seq::<Tree>::empty()) =~= Seq::<Shape>::empty());
}

proof fn lemma_walk_keeps(lhs: Seq<Tree>, rhs: Seq<Tree>, lc: Multiset<Shape>, rc: Multiset<Shape>)
    requires
        walk(lhs, rhs, lc, rc) is Some,
    ensures
        keeps_content_and_sides(lhs, rhs, walk(lhs, rhs, lc, rc).unwrap()),
    decreases forest_size(lhs) + forest_size(rhs), 1nat,
{
    lemma_walk_measures(lhs, rhs);
    lemma_empty_keeps();
    let e = Seq::<Tree>::empty();
    if lhs.len() == 0 && rhs.len() == 0 {
    } else if rhs.len() == 0 {
        let a = lhs[0];
        let l1 = lhs.drop_first();
        assert(lhs =~= seq![a] + l1);
        assert(rhs =~= e + rhs);
        let ck = if rc.count(a.key()) > 0 {
            ChangeKind::Moved
        } else {
            ChangeKind::Removed
        };
        let rc2 = if rc.count(a.key()) > 0 {
            rc.sub(a.subtrees())
        } else {
            rc
        };
        lemma_walk_keeps(l1, rhs, lc, rc2);
        lemma_deep_keeps(a, ck, ChangeKind::Added);
        let x = Walked { lhs: seq![a.deep(ck)], rhs: e, lhs_counts: lc, rhs_counts: rc };
        lemma_keeps_concat(seq![a], e, x, l1, rhs, walk(l1, rhs, lc, rc2).unwrap());
    } else if lhs.len() == 0 {
        let b = rhs[0];
        let r1 = rhs.drop_first();
        assert(rhs =~= seq![b] + r1);
        assert(lhs =~= e + lhs);
        let ck = if lc.count(b.key()) > 0 {
            ChangeKind::Moved
        } else {
            ChangeKind::Added
        };
        let lc2 = if lc.count(b.key()) > 0 {
            lc.sub(b.subtrees())
        } else {
            lc
        };
        lemma_walk_keeps(lhs, r1, lc2, rc);
        lemma_deep_keeps(b, ck, ChangeKind::Removed);
        let x = Walked { lhs: e, rhs: seq![b.deep(ck)], lhs_counts: lc, rhs_counts: rc };
        lemma_keeps_concat(e, seq![b], x, lhs, r1, walk(lhs, r1, lc2, rc).unwrap());
    } else {
        let a = lhs[0];
        let b = rhs[0];
        let l1 = lhs.drop_first();
        let r1 = rhs.drop_first();
        assert(lhs =~= seq![a] + l1);
        assert(rhs =~= seq![b] + r1);
        assert(lhs =~= e + lhs);
        assert(rhs =~= e + rhs);
        if a.key() == b.key() && lc.count(a.key()) > 0 && rc.count(a.key()) > 0 {
            let (lc2, rc2) = (lc.sub(a.subtrees()), rc.sub(b.subtrees()));
            lemma_walk_keeps(l1, r1, lc2, rc2);
            lemma_deep_keeps(a, ChangeKind::Unchanged, ChangeKind::Added);
            lemma_deep_keeps(b, ChangeKind::Unchanged, ChangeKind::Removed);
            let x = Walked {
                lhs: seq![a.deep(ChangeKind::Unchanged)],
                rhs: seq![b.deep(ChangeKind::Unchanged)],
                lhs_counts: lc,
                rhs_counts: rc,
            };
            lemma_keeps_concat(seq![a], seq![b], x, l1, r1, walk(l1, r1, lc2, rc2).unwrap());
        } else if lc.count(a.key()) > rc.count(a.key()) && rc.count(a.key()) > 0 {
            let lc2 = lc.sub(a.subtrees());
            lemma_walk_keeps(l1, rhs, lc2, rc);
            lemma_deep_keeps(a, ChangeKind::Removed, ChangeKind::Added);
            let x = Walked {
                lhs: seq![a.deep(ChangeKind::Removed)],
                rhs: e,
                lhs_counts: lc,
                rhs_counts: rc,
            };
            lemma_keeps_concat(seq![a], e, x, l1, rhs, walk(l1, rhs, lc2, rc).unwrap());
        } else if rc.count(b.key()) > lc.count(b.key()) && lc.count(b.key()) > 0 {
            let rc2 = rc.sub(b.subtrees());
            lemma_walk_keeps(lhs, r1, lc, rc2);
            lemma_deep_keeps(b, ChangeKind::Added, ChangeKind::Removed);
            let x = Walked {
                lhs: e,
                rhs: seq![b.deep(ChangeKind::Added)],
                lhs_counts: lc,
                rhs_counts: rc,
            };
            lemma_keeps_concat(e, seq![b], x, lhs, r1, walk(lhs, r1, lc, rc2).unwrap());
        } else {
            let p = pair_walk(a, b, lc, rc).unwrap();
            lemma_pair_keeps(a, b, lc, rc);
            lemma_walk_keeps(l1, r1, p.lhs_counts, p.rhs_counts);
            lemma_keeps_concat(
                seq![a],
                seq![b],
                p,
                l1,
                r1,
                walk(l1, r1, p.lhs_counts, p.rhs_counts).unwrap(),
            );
        }
    }
}

proof fn lemma_pair_keeps(a: Tree, b: Tree, lc: Multiset<Shape>, rc: Multiset<Shape>)
    requires
        pair_walk(a, b, lc, rc) is Some,
    ensures
        keeps_content_and_sides(seq![a], seq![b], pair_walk(a, b, lc, rc).unwrap()),
    decreases a.size() + b.size(), 0nat,
{
    lemma_walk_measures(seq![a], seq![b]);
    let p = pair_walk(a, b, lc, rc).unwrap();
    match (a, b) {
        (Tree::List { children: c1, .. }, Tree::List { children: c2, .. }) => {
            lemma_walk_keeps(c1, c2, lc, rc);
            assert(keys(p.lhs) =~= keys(seq![a]));
            assert(keys(p.rhs) =~= keys(seq![b]));
            assert(never_marked(p.lhs[0], ChangeKind::Added));
            assert(never_marked(p.rhs[0], ChangeKind::Removed));
        },
        (Tree::List { children: c1, .. }, Tree::Atom { .. }) => {
            lemma_walk_keeps(c1, seq![b], lc, rc);
            assert(keys(p.lhs) =~= keys(seq![a]));
            assert(never_marked(p.lhs[0], ChangeKind::Added));
        },
        (Tree::Atom { .. }, Tree::List { children: c2, .. }) => {
            lemma_walk_keeps(seq![a], c2, lc, rc);
            assert(keys(p.rhs) =~= keys(seq![b]));
            assert(never_marked(p.rhs[0], ChangeKind::Removed));
        },
        (Tree::Atom { .. }, Tree::Atom { .. }) => {
            assert(keys(p.lhs) =~= keys(seq![a]));
            assert(keys(p.rhs) =~= keys(seq![b]));
            assert(never_marked(p.lhs[0], ChangeKind::Added));
            assert(never_marked(p.rhs[0], ChangeKind::Removed));
        },
    }
}

/// Comparing two forests changes nothing in them but change marks; it never
/// marks a node of the left forest as added, nor one of the right forest as
/// removed.
pub proof fn law_compare_changes_only_marks(lhs: Seq<Tree>, rhs: Seq<Tree>)
    requires
        compared(lhs, rhs) is Some,
    ensures
        keeps_content_and_sides(lhs, rhs, compared(lhs, rhs).unwrap()),
{
    lemma_walk_keeps(lhs, rhs, trees_subtrees(lhs), trees_subtrees(rhs));
}

proof fn lemma_walk_identical(
    lhs: Seq<Tree>,
    rhs: Seq<Tree>,
    lc: Multiset<Shape>,
    rc: Multiset<Shape>,
)
    requires
        keys(lhs) == keys(rhs),
        trees_subtrees(lhs).subset_of(lc),
        trees_subtrees(rhs).subset_of(rc),
    ensures
        walk(lhs, rhs, lc, rc) == Some(
            Walked {
                lhs: deep_all(lhs, ChangeKind::Unchanged),
                rhs: deep_all(rhs, ChangeKind::Unchanged),
                lhs_counts: lc.sub(trees_subtrees(lhs)),
                rhs_counts: rc.sub(trees_subtrees(rhs)),
            },
        ),
    decreases forest_size(lhs) + forest_size(rhs),
{
    lemma_walk_measures(lhs, rhs);
    assert(lhs.len() == keys(lhs).len() && rhs.len() == keys(rhs).len());
    if lhs.len() == 0 {
        assert(keys(lhs) =~= Seq::<Shape>::empty());
        assert(trees_subtrees(lhs) =~= Multiset::<Shape>::empty());
        assert(trees_subtrees(rhs) =~= Multiset::<Shape>::empty());
        assert(lc.sub(trees_subtrees(lhs)) =~= lc);
        assert(rc.sub(trees_subtrees(rhs)) =~= rc);
        assert(deep_all(lhs, ChangeKind::Unchanged) =~= lhs);
        assert(deep_all(rhs, ChangeKind::Unchanged) =~= rhs);
    } else {
        let a = lhs[0];
        let b = rhs[0];
        let l1 = lhs.drop_first();
        let r1 = rhs.drop_first();
        lemma_keys_drop_first(lhs, rhs);
        lemma_trees_subtrees_first(lhs);
        lemma_trees_subtrees_first(rhs);
        lemma_subtrees_unfold(a);
        let lc2 = lc.sub(a.subtrees());
        let rc2 = rc.sub(b.subtrees());
        assert(trees_subtrees(l1).subset_of(lc2));
        assert(trees_subtrees(r1).subset_of(rc2));
        lemma_walk_identical(l1, r1, lc2, rc2);
        assert(lc.count(a.key()) > 0);
        assert(rc.count(a.key()) > 0);
        assert(deep_all(lhs, ChangeKind::Unchanged) =~= seq![a.deep(ChangeKind::Unchanged)]
            + deep_all(l1, ChangeKind::Unchanged));
        assert(deep_all(rhs, ChangeKind::Unchanged) =~= seq![b.deep(ChangeKind::Unchanged)]
            + deep_all(r1, ChangeKind::Unchanged));
        assert(lc2.sub(trees_subtrees(l1)) =~= lc.sub(trees_subtrees(lhs)));
        assert(rc2.sub(trees_subtrees(r1)) =~= rc.sub(trees_subtrees(rhs)));
    }
}

/// Comparing a forest with one of the same content goes through and marks
/// every node of both unchanged, whatever marks they held before.
pub proof fn law_identical_forests_unchanged(lhs: Seq<Tree>, rhs: Seq<Tree>)
    requires
        keys(lhs) == keys(rhs),
    ensures
        compared(lhs, rhs) matches Some(w) && w.lhs == deep_all(lhs, ChangeKind::Unchanged)
            && w.rhs == deep_all(rhs, ChangeKind::Unchanged),
        forall|i: int| 0 <= i < lhs.len() ==> (#[trigger] deep_all(lhs, ChangeKind::Unchanged)[i]).all_marked(ChangeKind::Unchanged),
        forall|i: int| 0 <= i < rhs.len() ==> (#[trigger] deep_all(rhs, ChangeKind::Unchanged)[i]).all_marked(ChangeKind::Unchanged),
{
    lemma_walk_identical(lhs, rhs, trees_subtrees(lhs), trees_subtrees(rhs));
}

proof fn lemma_walk_marks_ignored(
    l1: Seq<Tree>,
    r1: Seq<Tree>,
    l2: Seq<Tree>,
    r2: Seq<Tree>,
    lc: Multiset<Shape>,
    rc: Multiset<Shape>,
)
    requires
        keys(l1) == keys(l2),
        keys(r1) == keys(r2),
    ensures
        walk(l1, r1, lc, rc) == walk(l2, r2, lc, rc),
    decreases forest_size(l1) + forest_size(r1), 1nat,
{
    lemma_walk_measures(l1, r1);
    assert(l1.len() == keys(l1).len() && l2.len() == keys(l2).len());
    assert(r1.len() == keys(r1).len() && r2.len() == keys(r2).len());
    if l1.len() > 0 {
        lemma_keys_drop_first(l1, l2);
        lemma_deep_by_key(l1[0], l2[0], ChangeKind::Moved);
        lemma_deep_by_key(l1[0], l2[0], ChangeKind::Removed);
        lemma_deep_by_key(l1[0], l2[0], ChangeKind::Unchanged);
    }
    if r1.len() > 0 {
        lemma_keys_drop_first(r1, r2);
        lemma_deep_by_key(r1[0], r2[0], ChangeKind::Moved);
        lemma_deep_by_key(r1[0], r2[0], ChangeKind::Added);
        lemma_deep_by_key(r1[0], r2[0], ChangeKind::Unchanged);
    }
    if l1.len() == 0 {
        assert(l1 =~= l2);
    }
    if r1.len() == 0 {
        assert(r1 =~= r2);
    }
    if l1.len() == 0 && r1.len() == 0 {
    } else if r1.len() == 0 {
        let a = l1[0];
        let rc2 = if rc.count(a.key()) > 0 {
            rc.sub(a.subtrees())
        } else {
            rc
        };
        lemma_walk_marks_ignored(l1.drop_first(), r1, l2.drop_first(), r2, lc, rc2);
    } else if l1.len() == 0 {
        let b = r1[0];
        let lc2 = if lc.count(b.key()) > 0 {
            lc.sub(b.subtrees())
        } else {
            lc
        };
        lemma_walk_marks_ignored(l1, r1.drop_first(), l2, r2.drop_first(), lc2, rc);
    } else {
        let a = l1[0];
        let b = r1[0];
        if a.key() == b.key() && lc.count(a.key()) > 0 && rc.count(a.key()) > 0 {
            lemma_walk_marks_ignored(
                l1.drop_first(),
                r1.drop_first(),
                l2.drop_first(),
                r2.drop_first(),
                lc.sub(a.subtrees()),
                rc.sub(b.subtrees()),
            );
        } else if lc.count(a.key()) > rc.count(a.key()) && rc.count(a.key()) > 0 {
            lemma_walk_marks_ignored(l1.drop_first(), r1, l2.drop_first(), r2, lc.sub(a.subtrees()), rc);
        } else if rc.count(b.key()) > lc.count(b.key()) && lc.count(b.key()) > 0 {
            lemma_walk_marks_ignored(l1, r1.drop_first(), l2, r2.drop_first(), lc, rc.sub(b.subtrees()));
        } else {
            lemma_pair_marks_ignored(a, b, l2[0], r2[0], lc, rc);
            if let Some(p) = pair_walk(a, b, lc, rc) {
                lemma_walk_marks_ignored(
                    l1.drop_first(),
                    r1.drop_first(),
                    l2.drop_first(),
                    r2.drop_first(),
                    p.lhs_counts,
                    p.rhs_counts,
                );
            }
        }
    }
}

proof fn lemma_pair_marks_ignored(
    a1: Tree,
    b1: Tree,
    a2: Tree,
    b2: Tree,
    lc: Multiset<Shape>,
    rc: Multiset<Shape>,
)
    requires
        a1.key() == a2.key(),
        b1.key() == b2.key(),
    ensures
        pair_walk(a1, b1, lc, rc) == pair_walk(a2, b2, lc, rc),
    decreases a1.size() + b1.size(), 0nat,
{
    lemma_walk_measures(seq![a1], seq![b1]);
    assert(keys(seq![a1]) =~= keys(seq![a2]));
    assert(keys(seq![b1]) =~= keys(seq![b2]));
    match (a1, b1, a2, b2) {
        (
            Tree::List { children: c1, .. },
            Tree::List { children: d1, .. },
            Tree::List { children: c2, .. },
            Tree::List { children: d2, .. },
        ) => {
            lemma_walk_marks_ignored(c1, d1, c2, d2, lc, rc);
        },
        (Tree::List { children: c1, .. }, Tree::Atom { .. }, Tree::List { children: c2, .. }, _) => {
            lemma_walk_marks_ignored(c1, seq![b1], c2, seq![b2], lc, rc);
        },
        (Tree::Atom { .. }, Tree::List { children: d1, .. }, _, Tree::List { children: d2, .. }) => {
            lemma_walk_marks_ignored(seq![a1], d1, seq![a2], d2, lc, rc);
        },
        _ => {},
    }
}

/// What comparing two forests marks depends only on their content: the change
/// marks that their nodes held before make no difference.
pub proof fn law_compare_ignores_old_marks(l1: Seq<Tree>, r1: Seq<Tree>, l2: Seq<Tree>, r2: Seq<Tree>)
    requires
        keys(l1) == keys(l2),
        keys(r1) == keys(r2),
    ensures
        compared(l1, r1) is Some <==> compared(l2, r2) is Some,
        compared(l1, r1) == compared(l2, r2),
{
    lemma_walk_marks_ignored(l1, r1, l2, r2, trees_subtrees(l1), trees_subtrees(r1));
    assert(trees_subtrees(l1) == trees_subtrees(l2));
    assert(trees_subtrees(r1) == trees_subtrees(r2));
}

/// Taking the subtrees of a tree out of counts that were just given them
/// gives the counts back.
pub proof fn law_decrement_undoes_build(counts: Multiset<Shape>, t: Tree)
    ensures
        counts.add(t.subtrees()).sub(t.subtrees()) == counts,
{
    assert(counts.add(t.subtrees()).sub(t.subtrees()) =~= counts);
}

/// Marking a tree throughout twice leaves the second mark: the last deep
/// marking wins, and repeating one changes nothing.
pub proof fn law_deep_last_wins(t: Tree, first: ChangeKind, second: ChangeKind)
    ensures
        t.deep(first).deep(second) == t.deep(second),
        t.deep(second).deep(second) == t.deep(second),
{
    lemma_deep_by_key(t.deep(first), t, second);
    lemma_deep_by_key(t.deep(second), t, second);
}

/// The order in which trees are counted makes no difference to the counts.
pub proof fn law_count_order(counts: Multiset<Shape>, t1: Tree, t2: Tree)
    ensures
        counts.add(t1.subtrees()).add(t2.subtrees()) == counts.add(t2.subtrees()).add(
            t1.subtrees(),
        ),
{
    assert(counts.add(t1.subtrees()).add(t2.subtrees()) =~= counts.add(t2.subtrees()).add(
        t1.subtrees(),
    ));
}

} // verus!
