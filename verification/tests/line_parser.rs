use difftastic::line_parser::TextChangeKind::{Novel, Unchanged};
use difftastic::line_parser::{
    changed_parts, diff_parts, merge_novel, split_lines_keep_newline, DiffStep,
};

#[test]
fn test_split_newlines() {
    let s = "foo\nbar\nbaz";
    let res = split_lines_keep_newline(s);
    assert_eq!(res, vec!["foo\n", "bar\n", "baz"])
}

#[test]
fn split_keeps_a_final_newline_and_empty_lines() {
    assert_eq!(split_lines_keep_newline("a\n\nb\n"), vec!["a\n", "\n", "b\n"]);
    assert_eq!(split_lines_keep_newline(""), Vec::<&str>::new());
    assert_eq!(split_lines_keep_newline("\n"), vec!["\n"]);
    assert_eq!(split_lines_keep_newline("no newline"), vec!["no newline"]);
}

#[test]
fn split_cuts_between_multibyte_characters() {
    assert_eq!(split_lines_keep_newline("é\nü"), vec!["é\n", "ü"]);
    let joined: String = split_lines_keep_newline("αβ\nγ\n\nδ").concat();
    assert_eq!(joined, "αβ\nγ\n\nδ");
}

#[test]
fn merge_joins_consecutive_novel_runs() {
    let parts = vec![
        (Novel, vec!["a\n"], vec![]),
        (Novel, vec![], vec!["b\n"]),
        (Unchanged, vec!["c\n"], vec!["c\n"]),
        (Novel, vec!["d\n"], vec![]),
    ];
    let merged = merge_novel(&parts);
    assert_eq!(
        merged,
        vec![
            (Novel, vec!["a\n"], vec!["b\n"]),
            (Unchanged, vec!["c\n"], vec!["c\n"]),
            (Novel, vec!["d\n"], vec![]),
        ]
    );
}

#[test]
fn merge_drops_empty_novel_runs() {
    let parts = vec![(Novel, vec![], vec![]), (Unchanged, vec!["x"], vec!["x"])];
    assert_eq!(merge_novel(&parts), vec![(Unchanged, vec!["x"], vec!["x"])]);
    let none: Vec<(difftastic::line_parser::TextChangeKind, Vec<&str>, Vec<&str>)> = vec![];
    assert_eq!(merge_novel(&none), vec![]);
}

#[test]
fn diff_steps_become_one_run_each() {
    let steps = vec![
        DiffStep::Both("a\n", "a\n"),
        DiffStep::Left("b\n"),
        DiffStep::Right("c\n"),
    ];
    assert_eq!(
        diff_parts(&steps),
        vec![
            (Unchanged, vec!["a\n"], vec!["a\n"]),
            (Novel, vec!["b\n"], vec![]),
            (Novel, vec![], vec!["c\n"]),
        ]
    );
}

#[test]
fn changed_parts_of_one_changed_line() {
    let parts = changed_parts("foo\nbar\n", "foo\nbaz\n");
    assert_eq!(
        parts,
        vec![
            (Unchanged, vec!["foo\n"], vec!["foo\n"]),
            (Novel, vec!["bar\n"], vec!["baz\n"]),
        ]
    );
}

#[test]
fn changed_parts_of_equal_texts_are_unchanged() {
    let parts = changed_parts("a\nb", "a\nb");
    assert_eq!(
        parts,
        vec![(Unchanged, vec!["a\n"], vec!["a\n"]), (Unchanged, vec!["b"], vec!["b"])]
    );
}

#[test]
fn changed_parts_against_nothing_is_one_novel_run() {
    let parts = changed_parts("foo\n", "");
    assert_eq!(parts, vec![(Novel, vec!["foo\n"], vec![])]);
    let parts = changed_parts("", "");
    assert!(parts.is_empty());
}

#[test]
fn changed_parts_cover_both_texts() {
    let lhs = "one\ntwo\nthree\nfour\n";
    let rhs = "zero\none\nthree\nfive";
    let parts = changed_parts(lhs, rhs);
    let left: String = parts.iter().flat_map(|p| p.1.iter().copied()).collect();
    let right: String = parts.iter().flat_map(|p| p.2.iter().copied()).collect();
    assert_eq!(left, lhs);
    assert_eq!(right, rhs);
    for i in 1..parts.len() {
        assert!(!(parts[i - 1].0 == Novel && parts[i].0 == Novel));
    }
}
