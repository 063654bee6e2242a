use difftastic::subtree_counts::SubtreeCounts;
use difftastic::tree_diff::{build_subtrees, can_compare, decrement, set_changed, try_set_changed};
use difftastic::tree_diff::ChangeKind::{Added, Moved, Removed, Unchanged};
use difftastic::tree_diff::Syntax;
use difftastic::tree_diff::Syntax::{Atom, List};

fn new_atom(content: &str) -> Syntax {
    Atom {
        content: content.into(),
        change: Unchanged,
    }
}

fn new_list(start_content: &str, end_content: &str, children: Vec<Syntax>) -> Syntax {
    List {
        change: Unchanged,
        start_content: start_content.into(),
        end_content: end_content.into(),
        children,
    }
}

#[test]
fn test_atom_equality_ignores_changes() {
    assert_eq!(
        Atom {
            content: "foo".into(),
            change: Added,
        },
        Atom {
            content: "foo".into(),
            change: Moved,
        }
    );
}

#[test]
fn test_add_duplicate_node() {
    let mut lhs = vec![new_atom("a")];
    let mut rhs = vec![new_atom("a"), new_atom("a")];

    set_changed(&mut lhs, &mut rhs);

    match rhs[0] {
        Atom { change, .. } => {
            assert_eq!(change, Unchanged);
        }
        List { .. } => unreachable!(),
    };
    match rhs[1] {
        Atom { change, .. } => {
            assert_eq!(change, Added);
        }
        List { .. } => unreachable!(),
    };
}

#[test]
fn test_add_subtree() {
    let mut lhs = vec![new_list("[", "]", vec![new_atom("a")])];
    let mut rhs = vec![new_list("[", "]", vec![new_atom("a"), new_atom("a")])];

    set_changed(&mut lhs, &mut rhs);

    assert_eq!(rhs[0].change(), Unchanged);

    match &rhs[0] {
        List { children, .. } => {
            assert_eq!(children[0].change(), Unchanged);
            assert_eq!(children[1].change(), Added);
        }
        Atom { .. } => unreachable!(),
    };
}

/// Moving a subtree should consume its children, so further uses
/// of children of that subtree is not a move.
///
/// [], [1] -> [[1]], 1
///
/// In this example, the second instance of 1 is an addition.
#[test]
fn test_add_subsubtree() {
    let mut lhs = vec![
        new_list("[", "]", vec![]),
        new_list("[", "]", vec![new_atom("1")]),
    ];

    let mut rhs = vec![
        new_list("[", "]", vec![new_list("[", "]", vec![new_atom("1")])]),
        new_atom("1"),
    ];

    set_changed(&mut lhs, &mut rhs);

    assert_eq!(rhs[0].change(), Unchanged);
    match &rhs[0] {
        List { children, .. } => {
            assert_eq!(children[0].change(), Moved);
        }
        _ => unreachable!(),
    }

    assert_eq!(rhs[1].change(), Added);
}

#[test]
fn identical_forests_stay_unchanged() {
    let mut lhs = vec![
        new_list("(", ")", vec![new_atom("x"), new_atom("y")]),
        new_atom("z"),
    ];
    let mut rhs = vec![
        new_list("(", ")", vec![new_atom("x"), new_atom("y")]),
        new_atom("z"),
    ];
    lhs[1] = Atom { content: "z".into(), change: Added };
    set_changed(&mut lhs, &mut rhs);
    for side in [&lhs, &rhs] {
        assert_eq!(side[0].change(), Unchanged);
        assert_eq!(side[1].change(), Unchanged);
        match &side[0] {
            List { children, .. } => {
                assert_eq!(children[0].change(), Unchanged);
                assert_eq!(children[1].change(), Unchanged);
            }
            Atom { .. } => unreachable!(),
        }
    }
}

#[test]
fn novel_atoms_are_removed_and_added() {
    let mut lhs = vec![new_atom("a")];
    let mut rhs = vec![new_atom("b")];
    set_changed(&mut lhs, &mut rhs);
    assert_eq!(lhs[0].change(), Removed);
    assert_eq!(rhs[0].change(), Added);
}

#[test]
fn changed_delimiters_replace_the_list() {
    let mut lhs = vec![new_list("{", "}", vec![new_atom("a")])];
    let mut rhs = vec![new_list("[", "]", vec![new_atom("b")])];
    set_changed(&mut lhs, &mut rhs);
    assert_eq!(lhs[0].change(), Removed);
    assert_eq!(rhs[0].change(), Added);
    match (&lhs[0], &rhs[0]) {
        (List { children: l, .. }, List { children: r, .. }) => {
            assert_eq!(l[0].change(), Removed);
            assert_eq!(r[0].change(), Added);
        }
        _ => unreachable!(),
    }
}

#[test]
fn leftover_left_nodes_seen_on_the_right_are_moved() {
    let mut lhs = vec![new_atom("a"), new_atom("b")];
    let mut rhs = vec![new_atom("b")];
    set_changed(&mut lhs, &mut rhs);
    assert_eq!(lhs[0].change(), Removed);
    assert_eq!(rhs[0].change(), Added);
    assert_eq!(lhs[1].change(), Moved);
}

#[test]
fn lists_compare_by_content_only() {
    let a = new_list("(", ")", vec![new_atom("x")]);
    let mut b = new_list("(", ")", vec![new_atom("x")]);
    assert_eq!(a, b);
    b = new_list("(", ")", vec![new_atom("y")]);
    assert_ne!(a, b);
    assert_ne!(a, new_atom("x"));
    let c = a.clone();
    assert_eq!(a, c);
}

fn marks(nodes: &[Syntax]) -> Vec<difftastic::tree_diff::ChangeKind> {
    let mut out = vec![];
    for n in nodes {
        out.push(n.change());
        if let List { children, .. } = n {
            out.extend(marks(children));
        }
    }
    out
}

#[test]
fn old_marks_make_no_difference() {
    let build = |mark| {
        (
            vec![
                List {
                    change: mark,
                    start_content: "[".into(),
                    end_content: "]".into(),
                    children: vec![Atom { content: "1".into(), change: mark }],
                },
                Atom { content: "2".into(), change: mark },
            ],
            vec![
                Atom { content: "2".into(), change: mark },
                List {
                    change: mark,
                    start_content: "(".into(),
                    end_content: ")".into(),
                    children: vec![Atom { content: "1".into(), change: mark }],
                },
            ],
        )
    };
    let (mut l1, mut r1) = build(Unchanged);
    let (mut l2, mut r2) = build(Moved);
    set_changed(&mut l1, &mut r1);
    set_changed(&mut l2, &mut r2);
    assert_eq!(marks(&l1), marks(&l2));
    assert_eq!(marks(&r1), marks(&r2));
    assert!(!marks(&l1).contains(&Added));
    assert!(!marks(&r1).contains(&Removed));
}

#[test]
fn a_matched_subtree_is_counted_out() {
    let mut lhs = vec![new_atom("x"), new_atom("x")];
    let mut rhs = vec![new_atom("x")];
    set_changed(&mut lhs, &mut rhs);
    assert_eq!(lhs[0].change(), Unchanged);
    assert_eq!(rhs[0].change(), Unchanged);
    assert_eq!(lhs[1].change(), Removed);
}

#[test]
fn comparisons_that_would_take_a_missing_subtree_are_refused() {
    let lhs = vec![new_list("{", "}", vec![new_list("[", "]", vec![new_atom("1")])])];
    let rhs = vec![new_atom("z"), new_atom("1"), new_list("[", "]", vec![new_atom("1")])];
    assert!(!can_compare(&lhs, &rhs));
    let (mut l, mut r) = (lhs.clone(), rhs.clone());
    assert!(!try_set_changed(&mut l, &mut r));

    let lhs = vec![
        new_list("[", "]", vec![new_atom("x")]),
        new_list("[", "]", vec![new_atom("a")]),
    ];
    let rhs = vec![
        new_list("[", "]", vec![new_atom("x"), new_atom("a")]),
        new_list("[", "]", vec![new_atom("a")]),
    ];
    assert!(!can_compare(&lhs, &rhs));
}

#[test]
fn comparisons_that_go_through_are_accepted() {
    let lhs = vec![new_atom("a")];
    let rhs = vec![new_atom("a"), new_atom("a")];
    assert!(can_compare(&lhs, &rhs));
    let (mut l, mut r) = (lhs.clone(), rhs.clone());
    assert!(try_set_changed(&mut l, &mut r));
    assert_eq!(r[0].change(), Unchanged);
    assert_eq!(r[1].change(), Added);
    assert_eq!(lhs[0].change(), Unchanged);
}

#[test]
fn decrement_undoes_build_subtrees() {
    let tree = new_list("(", ")", vec![new_atom("x"), new_atom("x")]);
    let mut counts = SubtreeCounts::new();
    build_subtrees(&tree, &mut counts);
    assert_eq!(counts.get(&tree), 1);
    assert_eq!(counts.get(&new_atom("x")), 2);
    build_subtrees(&new_atom("x"), &mut counts);
    assert_eq!(counts.get(&new_atom("x")), 3);
    decrement(&tree, &mut counts);
    assert_eq!(counts.get(&tree), 0);
    assert_eq!(counts.get(&new_atom("x")), 1);
    assert_eq!(counts.get(&new_atom("y")), 0);
}

#[test]
fn the_last_deep_marking_wins() {
    let mut a = new_list("(", ")", vec![new_atom("x"), new_list("[", "]", vec![])]);
    a.set_change_deep(Added);
    a.set_change_deep(Moved);
    assert_eq!(marks(&[a]), vec![Moved, Moved, Moved]);
}
