//! The mathematical model of syntax trees: their values, the shape that
//! equality looks at, and the multiset of subtrees that the differ counts.
use vstd::multiset::Multiset;
use vstd::prelude::*;

use crate::tree_diff::{ChangeKind, Syntax};

verus! {

/// The content of a syntax node with every change mark left out. Two nodes
/// are the same subtree exactly when their shapes are equal.
pub enum Shape {
    List { start: Seq<char>, end: Seq<char>, children: Seq<Shape> },
    Atom { content: Seq<char> },
}

/// The value of a syntax node, change marks included.
pub enum Tree {
    List { change: ChangeKind, start: Seq<char>, end: Seq<char>, children: Seq<Tree> },
    Atom { change: ChangeKind, content: Seq<char> },
}

impl Shape {
    /// Every subtree of this shape, itself included, once per occurrence.
    pub open spec fn subtrees(self) -> Multiset<Shape>
        decreases self,
    {
        match self {
            Shape::List { children, .. } => Multiset::singleton(self).add(
                forest_subtrees(children),
            ),
            Shape::Atom { .. } => Multiset::singleton(self),
        }
    }
}

/// Every subtree of every shape of `s`, once per occurrence.
pub open spec fn forest_subtrees(s: Seq<Shape>) -> Multiset<Shape>
    decreases s,
{
    if s.len() == 0 {
        Multiset::empty()
    } else {
        forest_subtrees(s.subrange(0, s.len() - 1)).add(s[s.len() - 1].subtrees())
    }
}

impl Tree {
    pub open spec fn change(self) -> ChangeKind {
        match self {
            Tree::List { change, .. } => change,
            Tree::Atom { change, .. } => change,
        }
    }

    /// The shape of this node: what equality of nodes compares.
    pub open spec fn key(self) -> Shape
        decreases self,
    {
        match self {
            Tree::List { start, end, children, .. } => Shape::List {
                start,
                end,
                children: keys(children),
            },
            Tree::Atom { content, .. } => Shape::Atom { content },
        }
    }

    /// This node with its own change mark replaced by `ck`.
    pub open spec fn with_change(self, ck: ChangeKind) -> Tree {
        match self {
            Tree::List { start, end, children, .. } => Tree::List {
                change: ck,
                start,
                end,
                children,
            },
            Tree::Atom { content, .. } => Tree::Atom { change: ck, content },
        }
    }

    /// This node with the change mark of every node in it replaced by `ck`.
    pub open spec fn deep(self, ck: ChangeKind) -> Tree
        decreases self,
    {
        match self {
            Tree::List { start, end, children, .. } => Tree::List {
                change: ck,
                start,
                end,
                children: deep_all(children, ck),
            },
            Tree::Atom { content, .. } => Tree::Atom { change: ck, content },
        }
    }

    /// Every subtree of this node, itself included, by shape.
    pub open spec fn subtrees(self) -> Multiset<Shape> {
        self.key().subtrees()
    }

    /// The number of nodes in this tree.
    pub open spec fn size(self) -> nat {
        self.subtrees().len()
    }

    /// Every change mark in this tree is `ck`.
    pub open spec fn all_marked(self, ck: ChangeKind) -> bool
        decreases self,
    {
        &&& self.change() == ck
        &&& match self {
            Tree::List { children, .. } => all_marked_seq(children, ck),
            Tree::Atom { .. } => true,
        }
    }
}

/// No change mark in `t` is `ck`.
pub open spec fn never_marked(t: Tree, ck: ChangeKind) -> bool
    decreases t,
{
    &&& t.change() != ck
    &&& match t {
        Tree::List { children, .. } => never_marked_seq(children, ck),
        Tree::Atom { .. } => true,
    }
}

/// No change mark in any tree of `s` is `ck`.
pub open spec fn never_marked_seq(s: Seq<Tree>, ck: ChangeKind) -> bool
    decreases s,
{
    if s.len() == 0 {
        true
    } else {
        never_marked_seq(s.subrange(0, s.len() - 1), ck) && never_marked(s[s.len() - 1], ck)
    }
}

pub broadcast proof fn lemma_never_marked_seq(s: Seq<Tree>, ck: ChangeKind)
    ensures
        #[trigger] never_marked_seq(s, ck) <==> forall|i: int|
            0 <= i < s.len() ==> #[trigger] never_marked(s[i], ck),
    decreases s.len(),
{
    if s.len() > 0 {
        let p = s.subrange(0, s.len() - 1);
        lemma_never_marked_seq(p, ck);
        assert(never_marked_seq(s, ck) == (never_marked_seq(p, ck) && never_marked(
            s[s.len() - 1],
            ck,
        )));
        if never_marked_seq(s, ck) {
            assert forall|i: int| 0 <= i < s.len() implies #[trigger] never_marked(s[i], ck) by {
                if i < s.len() - 1 {
                    assert(p[i] == s[i]);
                }
            }
        }
        if forall|i: int| 0 <= i < s.len() ==> #[trigger] never_marked(s[i], ck) {
            assert forall|i: int| 0 <= i < p.len() implies #[trigger] never_marked(p[i], ck) by {
                assert(p[i] == s[i]);
            }
            assert(never_marked(s[s.len() - 1], ck));
        }
    }
}

/// A tree marked `ck` throughout holds no other mark.
pub proof fn lemma_all_marked_never(t: Tree, ck: ChangeKind, other: ChangeKind)
    requires
        t.all_marked(ck),
        other != ck,
    ensures
        never_marked(t, other),
    decreases t,
{
    broadcast use lemma_all_marked_seq, lemma_never_marked_seq;

    if let Tree::List { children, .. } = t {
        assert(all_marked_seq(children, ck));
        assert forall|i: int| 0 <= i < children.len() implies #[trigger] never_marked(
            children[i],
            other,
        ) by {
            assert(children[i].all_marked(ck));
            lemma_all_marked_never(children[i], ck, other);
        }
        assert(never_marked_seq(children, other));
    }
}

/// Trees of one shape look the same once every mark in them is replaced.
pub proof fn lemma_deep_by_key(t1: Tree, t2: Tree, ck: ChangeKind)
    requires
        t1.key() == t2.key(),
    ensures
        t1.deep(ck) == t2.deep(ck),
    decreases t1,
{
    broadcast use lemma_keys, lemma_deep_all;

    match (t1, t2) {
        (Tree::List { children: c1, .. }, Tree::List { children: c2, .. }) => {
            assert(keys(c1) == keys(c2));
            assert(c1.len() == c2.len());
            assert forall|i: int| 0 <= i < c1.len() implies #[trigger] deep_all(c1, ck)[i]
                == deep_all(c2, ck)[i] by {
                assert(keys(c1)[i] == keys(c2)[i]);
                lemma_deep_by_key(c1[i], c2[i], ck);
            }
            assert(deep_all(c1, ck) =~= deep_all(c2, ck));
        },
        _ => {},
    }
}

/// The shapes of the trees of `s`.
pub open spec fn keys(s: Seq<Tree>) -> Seq<Shape>
    decreases s,
{
    if s.len() == 0 {
        Seq::empty()
    } else {
        keys(s.subrange(0, s.len() - 1)).push(s[s.len() - 1].key())
    }
}

/// Each tree of `s` with every change mark replaced by `ck`.
pub open spec fn deep_all(s: Seq<Tree>, ck: ChangeKind) -> Seq<Tree>
    decreases s,
{
    if s.len() == 0 {
        Seq::empty()
    } else {
        deep_all(s.subrange(0, s.len() - 1), ck).push(s[s.len() - 1].deep(ck))
    }
}

/// Every change mark in every tree of `s` is `ck`.
pub open spec fn all_marked_seq(s: Seq<Tree>, ck: ChangeKind) -> bool
    decreases s,
{
    if s.len() == 0 {
        true
    } else {
        all_marked_seq(s.subrange(0, s.len() - 1), ck) && s[s.len() - 1].all_marked(ck)
    }
}

/// Every subtree of every tree of `s`, by shape.
pub open spec fn trees_subtrees(s: Seq<Tree>) -> Multiset<Shape> {
    forest_subtrees(keys(s))
}

/// The number of nodes in the trees of `s`.
pub open spec fn forest_size(s: Seq<Tree>) -> nat {
    trees_subtrees(s).len()
}

pub broadcast proof fn lemma_keys(s: Seq<Tree>)
    ensures
        #[trigger] keys(s) == s.map_values(|t: Tree| t.key()),
    decreases s.len(),
{
    if s.len() > 0 {
        lemma_keys(s.subrange(0, s.len() - 1));
    }
    assert(keys(s) =~= s.map_values(|t: Tree| t.key()));
}

pub broadcast proof fn lemma_keys_len(s: Seq<Tree>)
    ensures
        #[trigger] keys(s).len() == s.len(),
{
    lemma_keys(s);
}

pub broadcast proof fn lemma_keys_index(s: Seq<Tree>, i: int)
    requires
        0 <= i < s.len(),
    ensures
        #[trigger] keys(s)[i] == s[i].key(),
{
    lemma_keys(s);
}

/// Sequences of trees with the same shapes, element by element.
pub proof fn lemma_keys_drop_first(s1: Seq<Tree>, s2: Seq<Tree>)
    requires
        keys(s1) == keys(s2),
        s1.len() > 0,
    ensures
        keys(s1.drop_first()) == keys(s2.drop_first()),
        s1[0].key() == s2[0].key(),
{
    lemma_keys_len(s1);
    lemma_keys_len(s2);
    lemma_keys_len(s1.drop_first());
    lemma_keys_len(s2.drop_first());
    lemma_keys_index(s1, 0);
    lemma_keys_index(s2, 0);
    assert forall|i: int| 0 <= i < s1.len() - 1 implies #[trigger] keys(s1.drop_first())[i]
        == keys(s2.drop_first())[i] by {
        lemma_keys_index(s1.drop_first(), i);
        lemma_keys_index(s2.drop_first(), i);
        lemma_keys_index(s1, i + 1);
        lemma_keys_index(s2, i + 1);
    }
    assert(keys(s1.drop_first()) =~= keys(s2.drop_first()));
}

pub broadcast proof fn lemma_deep_all(s: Seq<Tree>, ck: ChangeKind)
    ensures
        #[trigger] deep_all(s, ck) == s.map_values(|t: Tree| t.deep(ck)),
    decreases s.len(),
{
    if s.len() > 0 {
        lemma_deep_all(s.subrange(0, s.len() - 1), ck);
    }
    assert(deep_all(s, ck) =~= s.map_values(|t: Tree| t.deep(ck)));
}

pub broadcast proof fn lemma_all_marked_seq(s: Seq<Tree>, ck: ChangeKind)
    ensures
        #[trigger] all_marked_seq(s, ck) <==> forall|i: int|
            0 <= i < s.len() ==> #[trigger] s[i].all_marked(ck),
    decreases s.len(),
{
    if s.len() > 0 {
        let p = s.subrange(0, s.len() - 1);
        lemma_all_marked_seq(p, ck);
        assert(all_marked_seq(s, ck) == (all_marked_seq(p, ck) && s[s.len() - 1].all_marked(ck)));
        if all_marked_seq(s, ck) {
            assert forall|i: int| 0 <= i < s.len() implies #[trigger] s[i].all_marked(ck) by {
                if i < s.len() - 1 {
                    assert(p[i] == s[i]);
                }
            }
        }
        if forall|i: int| 0 <= i < s.len() ==> #[trigger] s[i].all_marked(ck) {
            assert forall|i: int| 0 <= i < p.len() implies #[trigger] p[i].all_marked(ck) by {
                assert(p[i] == s[i]);
            }
            assert(s[s.len() - 1].all_marked(ck));
        }
    }
}

pub broadcast proof fn lemma_forest_subtrees_concat(a: Seq<Shape>, b: Seq<Shape>)
    ensures
        #[trigger] forest_subtrees(a + b) == forest_subtrees(a).add(forest_subtrees(b)),
    decreases b.len(),
{
    if b.len() == 0 {
        assert(a + b =~= a);
        assert(forest_subtrees(a).add(forest_subtrees(b)) =~= forest_subtrees(a));
    } else {
        let b1 = b.subrange(0, b.len() - 1);
        lemma_forest_subtrees_concat(a, b1);
        assert((a + b).subrange(0, (a + b).len() - 1) =~= a + b1);
        assert(forest_subtrees(a + b) =~= forest_subtrees(a).add(forest_subtrees(b)));
    }
}

pub broadcast proof fn lemma_forest_subtrees_single(x: Shape)
    ensures
        #[trigger] forest_subtrees(seq![x]) == x.subtrees(),
{
    assert(seq![x].subrange(0, 0) =~= Seq::<Shape>::empty());
    assert(forest_subtrees(Seq::<Shape>::empty()) == Multiset::<Shape>::empty());
    assert(forest_subtrees(seq![x]) =~= x.subtrees());
}

/// The subtrees of a forest are those of its first tree and those of the rest.
pub proof fn lemma_trees_subtrees_first(s: Seq<Tree>)
    requires
        s.len() > 0,
    ensures
        trees_subtrees(s) == s[0].subtrees().add(trees_subtrees(s.drop_first())),
        forest_size(s) == s[0].size() + forest_size(s.drop_first()),
{
    broadcast use lemma_keys, lemma_forest_subtrees_concat, lemma_forest_subtrees_single;

    assert(keys(s) =~= seq![s[0].key()] + keys(s.drop_first()));
}

pub proof fn lemma_trees_subtrees_cons(x: Tree, s: Seq<Tree>)
    ensures
        trees_subtrees(seq![x] + s) == x.subtrees().add(trees_subtrees(s)),
        forest_size(seq![x] + s) == x.size() + forest_size(s),
{
    lemma_trees_subtrees_first(seq![x] + s);
    assert((seq![x] + s).drop_first() =~= s);
}

pub proof fn lemma_trees_subtrees_push(s: Seq<Tree>, x: Tree)
    ensures
        trees_subtrees(s.push(x)) == trees_subtrees(s).add(x.subtrees()),
        forest_size(s.push(x)) == forest_size(s) + x.size(),
{
    broadcast use lemma_keys, lemma_forest_subtrees_concat, lemma_forest_subtrees_single;

    assert(keys(s.push(x)) =~= keys(s) + seq![x.key()]);
}

pub proof fn lemma_trees_subtrees_empty()
    ensures
        trees_subtrees(Seq::<Tree>::empty()) == Multiset::<Shape>::empty(),
        forest_size(Seq::<Tree>::empty()) == 0,
{
    assert(keys(Seq::<Tree>::empty()) =~= Seq::<Shape>::empty());
}

/// A tree of a forest is no bigger than the forest.
pub proof fn lemma_forest_size_elem(s: Seq<Tree>, i: int)
    requires
        0 <= i < s.len(),
    ensures
        s[i].size() <= forest_size(s),
        s[i].subtrees().subset_of(trees_subtrees(s)),
{
    let a = s.subrange(0, i);
    let b = s.subrange(i + 1, s.len() as int);
    assert(s =~= a + (seq![s[i]] + b));
    lemma_trees_subtrees_concat(a, seq![s[i]] + b);
    lemma_trees_subtrees_cons(s[i], b);
}

/// The subtrees of a concatenation are those of both parts.
pub proof fn lemma_trees_subtrees_concat(a: Seq<Tree>, b: Seq<Tree>)
    ensures
        trees_subtrees(a + b) == trees_subtrees(a).add(trees_subtrees(b)),
        forest_size(a + b) == forest_size(a) + forest_size(b),
{
    broadcast use lemma_keys, lemma_forest_subtrees_concat;

    assert(keys(a + b) =~= keys(a) + keys(b));
}

/// A node's subtrees are itself and the subtrees of its children.
pub proof fn lemma_subtrees_unfold(t: Tree)
    ensures
        t.subtrees().count(t.key()) > 0,
        t.size() >= 1,
        match t {
            Tree::List { children, .. } => {
                &&& t.subtrees() == Multiset::singleton(t.key()).add(trees_subtrees(children))
                &&& t.size() == 1 + forest_size(children)
            },
            Tree::Atom { .. } => t.subtrees() == Multiset::singleton(t.key()) && t.size() == 1,
        },
{
}

/// Change marks do not enter the shape of a node.
pub broadcast proof fn lemma_deep_key(t: Tree, ck: ChangeKind)
    ensures
        #[trigger] t.deep(ck).key() == t.key(),
    decreases t,
{
    broadcast use lemma_keys, lemma_deep_all;

    match t {
        Tree::List { children, .. } => {
            assert forall|i: int| 0 <= i < children.len() implies #[trigger] children[i].deep(
                ck,
            ).key() == children[i].key() by {
                lemma_deep_key(children[i], ck);
            }
            assert(keys(deep_all(children, ck)) =~= keys(children));
        },
        Tree::Atom { .. } => {},
    }
}

pub broadcast proof fn lemma_with_change_key(t: Tree, ck: ChangeKind)
    ensures
        #[trigger] t.with_change(ck).key() == t.key(),
        t.with_change(ck).change() == ck,
{
}

/// After `deep(ck)` every change mark is `ck`.
pub broadcast proof fn lemma_deep_marked(t: Tree, ck: ChangeKind)
    ensures
        #[trigger] t.deep(ck).all_marked(ck),
    decreases t,
{
    broadcast use lemma_deep_all, lemma_all_marked_seq;

    match t {
        Tree::List { children, .. } => {
            assert forall|i: int| 0 <= i < children.len() implies #[trigger] deep_all(
                children,
                ck,
            )[i].all_marked(ck) by {
                lemma_deep_marked(children[i], ck);
            }
            assert(all_marked_seq(deep_all(children, ck), ck));
        },
        Tree::Atom { .. } => {},
    }
}

impl View for Syntax {
    type V = Tree;

    open spec fn view(&self) -> Tree
        decreases self,
    {
        match self {
            Syntax::List { change, start_content, end_content, children } => Tree::List {
                change: *change,
                start: start_content@,
                end: end_content@,
                children: trees(children@),
            },
            Syntax::Atom { change, content } => Tree::Atom { change: *change, content: content@ },
        }
    }
}

/// The values of a sequence of syntax nodes.
pub open spec fn trees(s: Seq<Syntax>) -> Seq<Tree>
    decreases s,
{
    if s.len() == 0 {
        Seq::empty()
    } else {
        trees(s.subrange(0, s.len() - 1)).push(s[s.len() - 1]@)
    }
}

pub broadcast proof fn lemma_trees(s: Seq<Syntax>)
    ensures
        #[trigger] trees(s) == s.map_values(|c: Syntax| c@),
    decreases s.len(),
{
    if s.len() > 0 {
        let p = s.subrange(0, s.len() - 1);
        lemma_trees(p);
        assert(trees(s) == trees(p).push(s[s.len() - 1]@));
    }
    assert(trees(s) =~= s.map_values(|c: Syntax| c@));
}

} // verus!
