//! Laws on what the tree differ reports: unchanged nodes come in pairs with
//! the same content, and comparisons of flat forests always go through.
use vstd::multiset::Multiset;
use vstd::prelude::*;

use crate::tree_diff::ChangeKind;
use crate::tree_model::{
    Shape, Tree, deep_all, forest_size, trees_subtrees, lemma_deep_all, lemma_deep_by_key, lemma_deep_key,
};
use crate::walk_model::{Walked, compared, lemma_walk_measures, pair_walk, walk};

verus! {

broadcast use {lemma_deep_all, lemma_deep_key};

/// What a node shows of itself, apart from its children: the delimiters of a
/// list, the content of an atom.
pub enum Label {
    List { start: Seq<char>, end: Seq<char> },
    Atom { content: Seq<char> },
}

impl Tree {
    pub open spec fn label(self) -> Label {
        match self {
            Tree::List { start, end, .. } => Label::List { start, end },
            Tree::Atom { content, .. } => Label::Atom { content },
        }
    }
}

/// The labels of the nodes of `t` that are marked unchanged, once each.
pub open spec fn unchanged_labels(t: Tree) -> Multiset<Label>
    decreases t,
{
    let own = if t.change() == ChangeKind::Unchanged {
        Multiset::singleton(t.label())
    } else {
        Multiset::empty()
    };
    match t {
        Tree::List { children, .. } => own.add(unchanged_labels_seq(children)),
        Tree::Atom { .. } => own,
    }
}

/// The labels of the nodes of the trees of `s` that are marked unchanged.
pub open spec fn unchanged_labels_seq(s: Seq<Tree>) -> Multiset<Label>
    decreases s,
{
    if s.len() == 0 {
        Multiset::empty()
    } else {
        unchanged_labels_seq(s.subrange(0, s.len() - 1)).add(unchanged_labels(s[s.len() - 1]))
    }
}

proof fn lemma_labels_concat(a: Seq<Tree>, b: Seq<Tree>)
    ensures
        unchanged_labels_seq(a + b) == unchanged_labels_seq(a).add(unchanged_labels_seq(b)),
    decreases b.len(),
{
    if b.len() == 0 {
        assert(a + b =~= a);
        assert(unchanged_labels_seq(a).add(unchanged_labels_seq(b)) =~= unchanged_labels_seq(a));
    } else {
        let b1 = b.subrange(0, b.len() - 1);
        lemma_labels_concat(a, b1);
        assert((a + b).subrange(0, (a + b).len() - 1) =~= a + b1);
        assert(unchanged_labels_seq(a + b) =~= unchanged_labels_seq(a).add(
            unchanged_labels_seq(b),
        ));
    }
}

proof fn lemma_labels_single(x: Tree)
    ensures
        unchanged_labels_seq(seq![x]) == unchanged_labels(x),
{
    assert(seq![x].subrange(0, 0) =~= Seq::<Tree>::empty());
    assert(unchanged_labels_seq(Seq::<Tree>::empty()) == Multiset::<Label>::empty());
    assert(unchanged_labels_seq(seq![x]) =~= unchanged_labels(x));
}

proof fn lemma_labels_empty_seq(s: Seq<Tree>)
    requires
        forall|i: int| 0 <= i < s.len() ==> #[trigger] unchanged_labels(s[i]) == Multiset::<
            Label,
        >::empty(),
    ensures
        unchanged_labels_seq(s) == Multiset::<Label>::empty(),
    decreases s.len(),
{
    if s.len() > 0 {
        let p = s.subrange(0, s.len() - 1);
        assert forall|i: int| 0 <= i < p.len() implies #[trigger] unchanged_labels(p[i])
            == Multiset::<Label>::empty() by {
            assert(p[i] == s[i]);
        }
        lemma_labels_empty_seq(p);
        assert(unchanged_labels(s[s.len() - 1]) == Multiset::<Label>::empty());
        assert(unchanged_labels_seq(s) =~= Multiset::<Label>::empty());
    } else {
        assert(unchanged_labels_seq(s) =~= Multiset::<Label>::empty());
    }
}

/// A tree marked throughout with anything but unchanged has no unchanged node.
proof fn lemma_deep_no_labels(t: Tree, ck: ChangeKind)
    requires
        ck != ChangeKind::Unchanged,
    ensures
        unchanged_labels(t.deep(ck)) == Multiset::<Label>::empty(),
    decreases t,
{
    match t {
        Tree::List { children, .. } => {
            let d = deep_all(children, ck);
            assert forall|i: int| 0 <= i < d.len() implies #[trigger] unchanged_labels(d[i])
                == Multiset::<Label>::empty() by {
                lemma_deep_no_labels(children[i], ck);
            }
            lemma_labels_empty_seq(d);
            assert(unchanged_labels(t.deep(ck)) =~= Multiset::<Label>::empty());
        },
        Tree::Atom { .. } => {
            assert(unchanged_labels(t.deep(ck)) =~= Multiset::<Label>::empty());
        },
    }
}

/// The forests of a step, with the unchanged labels of both sides equal.
pub open spec fn labels_pair_up(w: Walked) -> bool {
    unchanged_labels_seq(w.lhs) == unchanged_labels_seq(w.rhs)
}

proof fn lemma_prepend_labels(x: Seq<Tree>, y: Seq<Tree>, rest: Walked)
    requires
        unchanged_labels_seq(x) == unchanged_labels_seq(y),
        labels_pair_up(rest),
    ensures
        labels_pair_up(
            Walked {
                lhs: x + rest.lhs,
                rhs: y + rest.rhs,
                lhs_counts: rest.lhs_counts,
                rhs_counts: rest.rhs_counts,
            },
        ),
{
    lemma_labels_concat(x, rest.lhs);
    lemma_labels_concat(y, rest.rhs);
}

proof fn lemma_no_labels_single(t: Tree, ck: ChangeKind)
    requires
        ck != ChangeKind::Unchanged,
    ensures
        unchanged_labels_seq(seq![t.deep(ck)]) == Multiset::<Label>::empty(),
        unchanged_labels_seq(Seq::<Tree>::empty()) == Multiset::<Label>::empty(),
{
    lemma_labels_single(t.deep(ck));
    lemma_deep_no_labels(t, ck);
}

proof fn lemma_walk_labels(lhs: Seq<Tree>, rhs: Seq<Tree>, lc: Multiset<Shape>, rc: Multiset<Shape>)
    requires
        walk(lhs, rhs, lc, rc) is Some,
    ensures
        labels_pair_up(walk(lhs, rhs, lc, rc).unwrap()),
    decreases forest_size(lhs) + forest_size(rhs), 1nat,
{
    lemma_walk_measures(lhs, rhs);
    let e = Seq::<Tree>::empty();
    if lhs.len() == 0 && rhs.len() == 0 {
    } else if rhs.len() == 0 {
        let a = lhs[0];
        let ck = if rc.count(a.key()) > 0 {
            ChangeKind::Moved
        } else {
            ChangeKind::Removed
        };
        let rc2 = if rc.count(a.key()) > 0 {
            rc.sub(a.subtrees())
        } else {
            rc
        };
        lemma_walk_labels(lhs.drop_first(), rhs, lc, rc2);
        lemma_no_labels_single(a, ck);
        lemma_prepend_labels(seq![a.deep(ck)], e, walk(lhs.drop_first(), rhs, lc, rc2).unwrap());
    } else if lhs.len() == 0 {
        let b = rhs[0];
        let ck = if lc.count(b.key()) > 0 {
            ChangeKind::Moved
        } else {
            ChangeKind::Added
        };
        let lc2 = if lc.count(b.key()) > 0 {
            lc.sub(b.subtrees())
        } else {
            lc
        };
        lemma_walk_labels(lhs, rhs.drop_first(), lc2, rc);
        lemma_no_labels_single(b, ck);
        lemma_prepend_labels(e, seq![b.deep(ck)], walk(lhs, rhs.drop_first(), lc2, rc).unwrap());
    } else {
        let a = lhs[0];
        let b = rhs[0];
        let l1 = lhs.drop_first();
        let r1 = rhs.drop_first();
        if a.key() == b.key() && lc.count(a.key()) > 0 && rc.count(a.key()) > 0 {
            let (lc2, rc2) = (lc.sub(a.subtrees()), rc.sub(b.subtrees()));
            lemma_walk_labels(l1, r1, lc2, rc2);
            lemma_deep_by_key(a, b, ChangeKind::Unchanged);
            lemma_prepend_labels(
                seq![a.deep(ChangeKind::Unchanged)],
                seq![b.deep(ChangeKind::Unchanged)],
                walk(l1, r1, lc2, rc2).unwrap(),
            );
        } else if lc.count(a.key()) > rc.count(a.key()) && rc.count(a.key()) > 0 {
            let lc2 = lc.sub(a.subtrees());
            lemma_walk_labels(l1, rhs, lc2, rc);
            lemma_no_labels_single(a, ChangeKind::Removed);
            lemma_prepend_labels(
                seq![a.deep(ChangeKind::Removed)],
                e,
                walk(l1, rhs, lc2, rc).unwrap(),
            );
        } else if rc.count(b.key()) > lc.count(b.key()) && lc.count(b.key()) > 0 {
            let rc2 = rc.sub(b.subtrees());
            lemma_walk_labels(lhs, r1, lc, rc2);
            lemma_no_labels_single(b, ChangeKind::Added);
            lemma_prepend_labels(e, seq![b.deep(ChangeKind::Added)], walk(lhs, r1, lc, rc2).unwrap());
        } else {
            let p = pair_walk(a, b, lc, rc).unwrap();
            lemma_pair_labels(a, b, lc, rc);
            lemma_walk_labels(l1, r1, p.lhs_counts, p.rhs_counts);
            lemma_prepend_labels(p.lhs, p.rhs, walk(l1, r1, p.lhs_counts, p.rhs_counts).unwrap());
        }
    }
}

proof fn lemma_pair_labels(a: Tree, b: Tree, lc: Multiset<Shape>, rc: Multiset<Shape>)
    requires
        pair_walk(a, b, lc, rc) is Some,
    ensures
        labels_pair_up(pair_walk(a, b, lc, rc).unwrap()),
    decreases a.size() + b.size(), 0nat,
{
    lemma_walk_measures(seq![a], seq![b]);
    let p = pair_walk(a, b, lc, rc).unwrap();
    match (a, b) {
        (
            Tree::List { start: s1, end: e1, children: c1, .. },
            Tree::List { start: s2, end: e2, children: c2, .. },
        ) => {
            lemma_walk_labels(c1, c2, lc, rc);
            let inner = walk(c1, c2, lc, rc).unwrap();
            lemma_labels_single(p.lhs[0]);
            lemma_labels_single(p.rhs[0]);
            if s1 == s2 && e1 == e2 {
                assert(p.lhs[0].label() == p.rhs[0].label());
                assert(unchanged_labels(p.lhs[0]) == Multiset::singleton(p.lhs[0].label()).add(
                    unchanged_labels_seq(inner.lhs),
                ));
                assert(unchanged_labels(p.rhs[0]) == Multiset::singleton(p.rhs[0].label()).add(
                    unchanged_labels_seq(inner.rhs),
                ));
            } else {
                assert(unchanged_labels(p.lhs[0]) == Multiset::<Label>::empty().add(
                    unchanged_labels_seq(inner.lhs),
                ));
                assert(unchanged_labels(p.rhs[0]) == Multiset::<Label>::empty().add(
                    unchanged_labels_seq(inner.rhs),
                ));
            }
            assert(p.lhs =~= seq![p.lhs[0]]);
            assert(p.rhs =~= seq![p.rhs[0]]);
            assert(unchanged_labels_seq(p.lhs) =~= unchanged_labels_seq(p.rhs));
        },
        (Tree::List { children: c1, .. }, Tree::Atom { .. }) => {
            lemma_walk_labels(c1, seq![b], lc, rc);
            lemma_labels_single(p.lhs[0]);
            assert(p.lhs =~= seq![p.lhs[0]]);
            assert(p.rhs == walk(c1, seq![b], lc, rc).unwrap().rhs);
            assert(unchanged_labels(p.lhs[0]) =~= Multiset::<Label>::empty().add(
                unchanged_labels_seq(walk(c1, seq![b], lc, rc).unwrap().lhs),
            ));
            assert(unchanged_labels_seq(p.lhs) =~= unchanged_labels_seq(p.rhs));
        },
        (Tree::Atom { .. }, Tree::List { children: c2, .. }) => {
            lemma_walk_labels(seq![a], c2, lc, rc);
            lemma_labels_single(p.rhs[0]);
            assert(p.rhs =~= seq![p.rhs[0]]);
            assert(p.lhs == walk(seq![a], c2, lc, rc).unwrap().lhs);
            assert(unchanged_labels(p.rhs[0]) =~= Multiset::<Label>::empty().add(
                unchanged_labels_seq(walk(seq![a], c2, lc, rc).unwrap().rhs),
            ));
            assert(unchanged_labels_seq(p.lhs) =~= unchanged_labels_seq(p.rhs));
        },
        (Tree::Atom { .. }, Tree::Atom { .. }) => {
            assert(unchanged_labels(p.lhs[0]) =~= Multiset::<Label>::empty());
            assert(unchanged_labels(p.rhs[0]) =~= Multiset::<Label>::empty());
            lemma_labels_single(p.lhs[0]);
            lemma_labels_single(p.rhs[0]);
            assert(p.lhs =~= seq![p.lhs[0]]);
            assert(p.rhs =~= seq![p.rhs[0]]);
        },
    }
}

/// Unchanged nodes come in pairs: the nodes that a comparison marks unchanged
/// on the left show, label for label (list delimiters, atom content), the same
/// as those it marks unchanged on the right. So a node that is taken as an
/// addition or a removal, or a list whose delimiters go away, is never marked
/// unchanged.
pub proof fn law_unchanged_nodes_pair_up(lhs: Seq<Tree>, rhs: Seq<Tree>)
    requires
        compared(lhs, rhs) is Some,
    ensures
        unchanged_labels_seq(compared(lhs, rhs).unwrap().lhs) == unchanged_labels_seq(
            compared(lhs, rhs).unwrap().rhs,
        ),
{
    lemma_walk_labels(lhs, rhs, trees_subtrees(lhs), trees_subtrees(rhs));
}

/// Every tree of `s` is an atom.
pub open spec fn all_atoms(s: Seq<Tree>) -> bool {
    forall|i: int| 0 <= i < s.len() ==> #[trigger] s[i] is Atom
}

proof fn lemma_atom_subtrees(t: Tree, m: Multiset<Shape>)
    requires
        t is Atom,
    ensures
        t.subtrees().subset_of(m) <==> m.count(t.key()) > 0,
{
    assert(t.subtrees() == Multiset::singleton(t.key()));
}

proof fn lemma_walk_flat(lhs: Seq<Tree>, rhs: Seq<Tree>, lc: Multiset<Shape>, rc: Multiset<Shape>)
    requires
        all_atoms(lhs),
        all_atoms(rhs),
    ensures
        walk(lhs, rhs, lc, rc) is Some,
    decreases lhs.len() + rhs.len(),
{
    lemma_walk_measures(lhs, rhs);
    if lhs.len() > 0 {
        lemma_atom_subtrees(lhs[0], lc);
        lemma_atom_subtrees(lhs[0], rc);
        assert(all_atoms(lhs.drop_first())) by {
            assert forall|i: int| 0 <= i < lhs.drop_first().len() implies #[trigger] lhs.drop_first()[i] is Atom by {
                assert(lhs.drop_first()[i] == lhs[i + 1]);
            }
        }
    }
    if rhs.len() > 0 {
        lemma_atom_subtrees(rhs[0], lc);
        lemma_atom_subtrees(rhs[0], rc);
        assert(all_atoms(rhs.drop_first())) by {
            assert forall|i: int| 0 <= i < rhs.drop_first().len() implies #[trigger] rhs.drop_first()[i] is Atom by {
                assert(rhs.drop_first()[i] == rhs[i + 1]);
            }
        }
    }
    if lhs.len() == 0 && rhs.len() == 0 {
    } else if rhs.len() == 0 {
        let a = lhs[0];
        if rc.count(a.key()) > 0 {
            lemma_walk_flat(lhs.drop_first(), rhs, lc, rc.sub(a.subtrees()));
        } else {
            lemma_walk_flat(lhs.drop_first(), rhs, lc, rc);
        }
    } else if lhs.len() == 0 {
        let b = rhs[0];
        if lc.count(b.key()) > 0 {
            lemma_walk_flat(lhs, rhs.drop_first(), lc.sub(b.subtrees()), rc);
        } else {
            lemma_walk_flat(lhs, rhs.drop_first(), lc, rc);
        }
    } else {
        let a = lhs[0];
        let b = rhs[0];
        let l1 = lhs.drop_first();
        let r1 = rhs.drop_first();
        if a.key() == b.key() && lc.count(a.key()) > 0 && rc.count(a.key()) > 0 {
            assert(b.subtrees() == a.subtrees());
            lemma_walk_flat(l1, r1, lc.sub(a.subtrees()), rc.sub(b.subtrees()));
        } else if lc.count(a.key()) > rc.count(a.key()) && rc.count(a.key()) > 0 {
            lemma_walk_flat(l1, rhs, lc.sub(a.subtrees()), rc);
        } else if rc.count(b.key()) > lc.count(b.key()) && lc.count(b.key()) > 0 {
            lemma_walk_flat(lhs, r1, lc, rc.sub(b.subtrees()));
        } else {
            assert(pair_walk(a, b, lc, rc) is Some);
            lemma_walk_flat(l1, r1, lc, rc);
        }
    }
}

/// Two forests of atoms, such as two sequences of tokens, can always be
/// compared: every node that the comparison takes out of a count is still
/// counted there, whatever each side holds.
pub proof fn law_flat_forests_compare(lhs: Seq<Tree>, rhs: Seq<Tree>)
    requires
        all_atoms(lhs),
        all_atoms(rhs),
    ensures
        compared(lhs, rhs) is Some,
{
    lemma_walk_flat(
        lhs,
        rhs,
        trees_subtrees(lhs),
        trees_subtrees(rhs),
    );
}

} // verus!
