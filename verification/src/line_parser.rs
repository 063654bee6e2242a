//! A fallback "parser" for plain text: it compares two texts line by line.
use vstd::prelude::*;
use vstd::seq_lib::lemma_flatten_concat;
use vstd::string::StringSliceAdditionalSpecFns;
use vstd::utf8::{
    decode_utf8, encode_utf8_decode_utf8, encode_utf8_valid_utf8, is_char_boundary,
    is_char_boundary_iff_not_is_continuation_byte, is_char_boundary_start_end_of_seq, valid_utf8,
    valid_utf8_split,
};

use crate::wrappers::{diff_lines, find_match_ends, slice_diff};

verus! {

/// Whether a run of lines is new on one side, or the same on both.
#[derive(Debug, Clone, Copy, PartialEq, Eq, Structural)]
pub enum TextChangeKind {
    Novel,
    Unchanged,
}

/// One step of a diff of two sequences: an item of the left only, an item of
/// both, or an item of the right only.
#[derive(Debug, PartialEq, Eq)]
pub enum DiffStep<T> {
    Left(T),
    Both(T, T),
    Right(T),
}

/// The text of each line of a diff step.
pub open spec fn step_view<'a>(s: DiffStep<&'a str>) -> DiffStep<Seq<char>> {
    match s {
        DiffStep::Left(l) => DiffStep::Left(l@),
        DiffStep::Both(l, r) => DiffStep::Both(l@, r@),
        DiffStep::Right(r) => DiffStep::Right(r@),
    }
}

/// The text of each line of each diff step.
pub open spec fn step_views<'a>(s: Seq<DiffStep<&'a str>>) -> Seq<DiffStep<Seq<char>>> {
    s.map_values(|x: DiffStep<&'a str>| step_view(x))
}

/// The text of each line.
pub open spec fn str_views<'a>(s: Seq<&'a str>) -> Seq<Seq<char>> {
    s.map_values(|x: &'a str| x@)
}

/// The item of the left that a diff step holds, if any.
pub open spec fn left_of<T>(s: DiffStep<T>) -> Seq<T> {
    match s {
        DiffStep::Left(l) => seq![l],
        DiffStep::Both(l, _) => seq![l],
        DiffStep::Right(_) => Seq::empty(),
    }
}

/// The item of the right that a diff step holds, if any.
pub open spec fn right_of<T>(s: DiffStep<T>) -> Seq<T> {
    match s {
        DiffStep::Left(_) => Seq::empty(),
        DiffStep::Both(_, r) => seq![r],
        DiffStep::Right(r) => seq![r],
    }
}

/// The items of the left that the steps hold, in order.
pub open spec fn lefts<T>(s: Seq<DiffStep<T>>) -> Seq<T> {
    s.map_values(|x: DiffStep<T>| left_of(x)).flatten()
}

/// The items of the right that the steps hold, in order.
pub open spec fn rights<T>(s: Seq<DiffStep<T>>) -> Seq<T> {
    s.map_values(|x: DiffStep<T>| right_of(x)).flatten()
}

/// The run of lines that one diff step makes.
pub open spec fn part_of<T>(s: DiffStep<T>) -> (TextChangeKind, Seq<T>, Seq<T>) {
    match s {
        DiffStep::Both(_, _) => (TextChangeKind::Unchanged, left_of(s), right_of(s)),
        _ => (TextChangeKind::Novel, left_of(s), right_of(s)),
    }
}

/// The runs of lines that diff steps make, one each.
pub open spec fn parts_of<T>(s: Seq<DiffStep<T>>) -> Seq<(TextChangeKind, Seq<T>, Seq<T>)> {
    s.map_values(|x: DiffStep<T>| part_of(x))
}

/// A run of lines: its kind, its lines on the left and on the right.
pub type LinePart<'a> = (TextChangeKind, Vec<&'a str>, Vec<&'a str>);

/// The value of a run of lines.
pub open spec fn part_value<'a>(p: LinePart<'a>) -> (TextChangeKind, Seq<&'a str>, Seq<&'a str>) {
    (p.0, p.1@, p.2@)
}

/// The values of runs of lines.
pub open spec fn part_values<'a>(ps: Seq<LinePart<'a>>) -> Seq<(TextChangeKind, Seq<&'a str>, Seq<&'a str>)> {
    ps.map_values(|p: LinePart<'a>| part_value(p))
}

/// One run of novel lines, unless there are none on either side.
pub open spec fn flush<T>(l: Seq<T>, r: Seq<T>) -> Seq<(TextChangeKind, Seq<T>, Seq<T>)> {
    if l.len() > 0 || r.len() > 0 {
        seq![(TextChangeKind::Novel, l, r)]
    } else {
        Seq::empty()
    }
}

/// `parts` with each maximal stretch of novel runs joined into one, the novel
/// lines `l` and `r` already pending in front of them.
pub open spec fn merge_from<T>(
    parts: Seq<(TextChangeKind, Seq<T>, Seq<T>)>,
    l: Seq<T>,
    r: Seq<T>,
) -> Seq<(TextChangeKind, Seq<T>, Seq<T>)>
    decreases parts.len(),
{
    if parts.len() == 0 {
        flush(l, r)
    } else {
        let p = parts[0];
        match p.0 {
            TextChangeKind::Novel => merge_from(parts.drop_first(), l + p.1, r + p.2),
            TextChangeKind::Unchanged => flush(l, r) + seq![p] + merge_from(
                parts.drop_first(),
                Seq::empty(),
                Seq::empty(),
            ),
        }
    }
}

/// `parts` with each maximal stretch of novel runs joined into one.
pub open spec fn merged<T>(parts: Seq<(TextChangeKind, Seq<T>, Seq<T>)>) -> Seq<
    (TextChangeKind, Seq<T>, Seq<T>),
> {
    merge_from(parts, Seq::empty(), Seq::empty())
}

/// A copy of a list of lines.
fn copy_lines<'a>(lines: &Vec<&'a str>) -> (r: Vec<&'a str>)
    ensures
        r@ == lines@,
{
    let mut r: Vec<&'a str> = Vec::new();
    let n = lines.len();
    let mut i: usize = 0;
    while i < n
        invariant
            n == lines@.len(),
            i <= n,
            r@ == lines@.take(i as int),
        decreases n - i,
    {
        r.push(lines[i]);
        i += 1;
        assert(r@ =~= lines@.take(i as int));
    }
    assert(lines@.take(n as int) =~= lines@);
    r
}

/// Joins each stretch of consecutive novel runs of `lines` into one run.
pub fn merge_novel<'a>(lines: &[LinePart<'a>]) -> (res: Vec<LinePart<'a>>)
    ensures
        part_values(res@) == merged(part_values(lines@)),
        unchanged_runs(part_values(res@)) == unchanged_runs(part_values(lines@)),
{
    proof {
        lemma_merge_from_unchanged_runs(part_values(lines@), Seq::empty(), Seq::empty());
    }
    let ghost all = part_values(lines@);
    let mut lhs_novel: Vec<&'a str> = Vec::new();
    let mut rhs_novel: Vec<&'a str> = Vec::new();
    let mut res: Vec<LinePart<'a>> = Vec::new();
    let n = lines.len();
    let mut k: usize = 0;
    proof {
        assert(all.skip(0) =~= all);
        assert(part_values(res@) + merged(all) =~= merged(all));
    }
    while k < n
        invariant
            n == lines@.len(),
            all == part_values(lines@),
            k <= n,
            merged(all) == part_values(res@) + merge_from(all.skip(k as int), lhs_novel@, rhs_novel@),
        decreases n - k,
    {
        let ghost before = part_values(res@);
        let ghost pl = lhs_novel@;
        let ghost pr = rhs_novel@;
        proof {
            assert(all.skip(k as int)[0] == part_value(lines@[k as int]));
            assert(all.skip(k as int).drop_first() =~= all.skip(k + 1));
        }
        let (kind, lhs_lines, rhs_lines) = &lines[k];
        match kind {
            TextChangeKind::Novel => {
                let m = lhs_lines.len();
                let mut i: usize = 0;
                while i < m
                    invariant
                        m == lhs_lines@.len(),
                        i <= m,
                        lhs_novel@ == pl + lhs_lines@.take(i as int),
                    decreases m - i,
                {
                    lhs_novel.push(lhs_lines[i]);
                    i += 1;
                    assert(lhs_novel@ =~= pl + lhs_lines@.take(i as int));
                }
                let m = rhs_lines.len();
                let mut i: usize = 0;
                while i < m
                    invariant
                        m == rhs_lines@.len(),
                        i <= m,
                        rhs_novel@ == pr + rhs_lines@.take(i as int),
                    decreases m - i,
                {
                    rhs_novel.push(rhs_lines[i]);
                    i += 1;
                    assert(rhs_novel@ =~= pr + rhs_lines@.take(i as int));
                }
                assert(lhs_lines@.take(lhs_lines@.len() as int) =~= lhs_lines@);
                assert(rhs_lines@.take(rhs_lines@.len() as int) =~= rhs_lines@);
                assert(all[k as int].1 == lhs_lines@ && all[k as int].2 == rhs_lines@);
                assert(merge_from(all.skip(k as int), pl, pr) == merge_from(
                    all.skip(k + 1),
                    lhs_novel@,
                    rhs_novel@,
                ));
            },
            TextChangeKind::Unchanged => {
                if !lhs_novel.is_empty() || !rhs_novel.is_empty() {
                    res.push((TextChangeKind::Novel, lhs_novel, rhs_novel));
                    lhs_novel = Vec::new();
                    rhs_novel = Vec::new();
                }
                res.push((TextChangeKind::Unchanged, copy_lines(lhs_lines), copy_lines(rhs_lines)));
                proof {
                    assert(part_values(res@) =~= before + flush(pl, pr) + seq![all[k as int]]);
                    let rest = merge_from(all.skip(k + 1), Seq::empty(), Seq::empty());
                    assert(merge_from(all.skip(k as int), pl, pr) == flush(pl, pr) + seq![
                        all[k as int],
                    ] + rest);
                    assert(lhs_novel@ =~= Seq::<&str>::empty());
                    assert(rhs_novel@ =~= Seq::<&str>::empty());
                    assert(part_values(res@) + rest =~= before + (flush(pl, pr) + seq![
                        all[k as int],
                    ] + rest));
                }
            },
        }
        k += 1;
    }
    let ghost before = part_values(res@);
    if !lhs_novel.is_empty() || !rhs_novel.is_empty() {
        res.push((TextChangeKind::Novel, lhs_novel, rhs_novel));
        proof {
            assert(part_values(res@) =~= before + flush(lhs_novel@, rhs_novel@));
        }
    } else {
        assert(part_values(res@) =~= before + flush(lhs_novel@, rhs_novel@));
    }
    res
}

/// Byte offsets as integers.
pub open spec fn offsets(e: Seq<usize>) -> Seq<int> {
    e.map_values(|x: usize| x as int)
}

/// The regular expression that matches one newline.
pub open spec fn newline_pattern() -> Seq<char> {
    seq!['\n']
}

/// The offsets just past each newline byte of `b`, in order.
pub open spec fn newline_ends(b: Seq<u8>) -> Seq<int>
    decreases b.len(),
{
    if b.len() == 0 {
        Seq::empty()
    } else {
        let before = newline_ends(b.drop_last());
        if b.last() == 10u8 {
            before.push(b.len() as int)
        } else {
            before
        }
    }
}

/// Where the lines of `b` start and end: at 0, just past each newline, and
/// at the end of `b` where the last line has no newline.
pub open spec fn line_cuts(b: Seq<u8>) -> Seq<int> {
    let cuts = seq![0int] + newline_ends(b);
    if cuts.last() < b.len() {
        cuts.push(b.len() as int)
    } else {
        cuts
    }
}

/// The lines of `b`, each with its newline; the last needs none.
pub open spec fn text_lines(b: Seq<u8>) -> Seq<Seq<u8>> {
    let cuts = line_cuts(b);
    Seq::new((cuts.len() - 1) as nat, |k: int| b.subrange(cuts[k], cuts[k + 1]))
}

/// The bytes of each of `lines`.
pub open spec fn str_bytes<'a>(lines: Seq<&'a str>) -> Seq<Seq<u8>> {
    lines.map_values(|l: &'a str| l.spec_bytes())
}

/// The offsets past the newlines of `b` rise, stay within `b`, follow a newline
/// each, and miss none.
pub proof fn lemma_newline_ends(b: Seq<u8>)
    ensures
        forall|k: int|
            0 <= k < newline_ends(b).len() ==> 0 < #[trigger] newline_ends(b)[k] <= b.len() && b[newline_ends(b)[k] - 1] == 10u8,
        forall|k: int, j: int|
            0 <= k < j < newline_ends(b).len() ==> #[trigger] newline_ends(b)[k] < #[trigger] newline_ends(b)[j],
        forall|i: int|
            0 <= i < b.len() && #[trigger] b[i] == 10u8 ==> exists|k: int|
                0 <= k < newline_ends(b).len() && #[trigger] newline_ends(b)[k] == i + 1,
    decreases b.len(),
{
    if b.len() > 0 {
        let p = b.drop_last();
        lemma_newline_ends(p);
        assert forall|i: int| 0 <= i < b.len() && #[trigger] b[i] == 10u8 implies exists|k: int|
            0 <= k < newline_ends(b).len() && #[trigger] newline_ends(b)[k] == i + 1 by {
            if i < b.len() - 1 {
                assert(p[i] == b[i]);
                let k = choose|k: int| 0 <= k < newline_ends(p).len() && #[trigger] newline_ends(p)[k] == i + 1;
                assert(newline_ends(b)[k] == newline_ends(p)[k]);
            } else {
                assert(newline_ends(b)[newline_ends(b).len() - 1] == b.len());
            }
        }
    }
}

/// With the boundaries of a valid text at `start` and `i`, the rest of the
/// text from `start` is valid and has a boundary at `i - start`.
proof fn lemma_boundary_in_rest(b: Seq<u8>, start: int, i: int)
    requires
        valid_utf8(b),
        0 <= start <= i <= b.len(),
        is_char_boundary(b, start),
        is_char_boundary(b, i),
    ensures
        valid_utf8(b.subrange(start, b.len() as int)),
        is_char_boundary(b.subrange(start, b.len() as int), i - start),
{
    let rest = b.subrange(start, b.len() as int);
    valid_utf8_split(b, start);
    if i == b.len() {
        is_char_boundary_start_end_of_seq(rest);
        assert(rest.len() == i - start);
    } else {
        is_char_boundary_iff_not_is_continuation_byte(b, i);
        is_char_boundary_iff_not_is_continuation_byte(rest, i - start);
        assert(rest[i - start] == b[i]);
    }
}

/// Splits `s` into its lines, each keeping its newline.
pub fn split_lines_keep_newline<'a>(s: &'a str) -> (res: Vec<&'a str>)
    ensures
        str_bytes(res@) == text_lines(s.spec_bytes()),
{
    let ghost b = s.spec_bytes();
    proof {
        reveal_strlit("\n");
        encode_utf8_valid_utf8(s@);
        lemma_newline_ends(b);
        is_char_boundary_start_end_of_seq(b);
    }
    assert("\n"@ == newline_pattern());
    let ends = match find_match_ends("\n", s) {
        Ok(ends) => ends,
        Err(_) => {
            proof {
                assert(false);
            }
            Vec::new()
        },
    };
    let ghost ne = newline_ends(b);
    let ghost cuts = line_cuts(b);
    assert(offsets(ends@) == ne);
    assert(ends@.len() == ne.len());
    assert(forall|k: int| 0 <= k < ends@.len() ==> #[trigger] ends@[k] as int == ne[k]) by {
        assert forall|k: int| 0 <= k < ends@.len() implies #[trigger] ends@[k] as int == ne[k] by {
            assert(offsets(ends@)[k] == ends@[k] as int);
        }
    }
    let mut offset: usize = 0;
    let mut rest: &'a str = s;
    let mut res: Vec<&'a str> = Vec::new();
    let n = ends.len();
    let mut k: usize = 0;
    while k < n
        invariant
            n == ends@.len(),
            n == ne.len(),
            ne == newline_ends(b),
            cuts == line_cuts(b),
            b == s.spec_bytes(),
            valid_utf8(b),
            forall|j: int| 0 <= j < n ==> #[trigger] ends@[j] as int == ne[j],
            forall|j: int|
                0 <= j < n ==> #[trigger] ends@[j] <= b.len() && is_char_boundary(b, ends@[j] as int),
            forall|j: int| 0 <= j < ne.len() ==> 0 < #[trigger] ne[j] <= b.len(),
            forall|j: int, i: int| 0 <= j < i < ne.len() ==> #[trigger] ne[j] < #[trigger] ne[i],
            k <= n,
            offset == cuts[k as int],
            offset <= b.len(),
            is_char_boundary(b, offset as int),
            rest.spec_bytes() == b.subrange(offset as int, b.len() as int),
            res@.len() == k,
            forall|j: int| 0 <= j < k ==> (#[trigger] res@[j]).spec_bytes() == b.subrange(cuts[j], cuts[j + 1]),
        decreases n - k,
    {
        let end = ends[k];
        proof {
            assert(cuts[k + 1] == ne[k as int]);
            if k > 0 {
                assert(ne[k - 1] < ne[k as int]);
            }
            lemma_boundary_in_rest(b, offset as int, end as int);
        }
        let (line, tail) = rest.split_at(end - offset);
        res.push(line);
        rest = tail;
        offset = end;
        k += 1;
        proof {
            assert(line.spec_bytes() =~= b.subrange(cuts[k - 1], cuts[k as int]));
            assert(rest.spec_bytes() =~= b.subrange(offset as int, b.len() as int));
        }
    }
    let total = s.as_bytes().len();
    if offset < total {
        res.push(rest);
        proof {
            assert((seq![0int] + ne).last() == offset);
            assert(cuts.len() == n + 2);
            assert(cuts[n + 1] == b.len());
        }
    } else {
        proof {
            assert((seq![0int] + ne).last() == offset);
            assert(cuts.len() == n + 1);
        }
    }
    proof {
        assert(str_bytes(res@) =~= text_lines(b));
    }
    res
}

/// The lines of the left sides of `parts`, in order.
pub open spec fn left_lines<T>(parts: Seq<(TextChangeKind, Seq<T>, Seq<T>)>) -> Seq<T> {
    parts.map_values(|p: (TextChangeKind, Seq<T>, Seq<T>)| p.1).flatten()
}

/// The lines of the right sides of `parts`, in order.
pub open spec fn right_lines<T>(parts: Seq<(TextChangeKind, Seq<T>, Seq<T>)>) -> Seq<T> {
    parts.map_values(|p: (TextChangeKind, Seq<T>, Seq<T>)| p.2).flatten()
}

/// The text of each line of `s`, one line after another.
pub open spec fn line_texts<'a>(s: &'a str) -> Seq<Seq<char>> {
    text_lines(s.spec_bytes()).map_values(|b: Seq<u8>| decode_utf8(b))
}

/// Runs of lines with each line taken by its text.
pub open spec fn part_texts<'a>(parts: Seq<LinePart<'a>>) -> Seq<
    (TextChangeKind, Seq<Seq<char>>, Seq<Seq<char>>),
> {
    parts.map_values(|p: LinePart<'a>| (p.0, str_views(p.1@), str_views(p.2@)))
}

/// `parts` with each line replaced by `f` of it.
pub open spec fn map_parts<T, U>(
    parts: Seq<(TextChangeKind, Seq<T>, Seq<T>)>,
    f: spec_fn(T) -> U,
) -> Seq<(TextChangeKind, Seq<U>, Seq<U>)> {
    parts.map_values(
        |p: (TextChangeKind, Seq<T>, Seq<T>)| (p.0, p.1.map_values(f), p.2.map_values(f)),
    )
}

/// The diff of two texts is small enough for its table to be allocated.
pub open spec fn diff_fits(left_lines: nat, right_lines: nat) -> bool {
    (left_lines + 1) * (right_lines + 1) * 4 <= isize::MAX
}

/// Joining novel runs commutes with renaming the lines.
pub proof fn lemma_merge_from_map<T, U>(
    parts: Seq<(TextChangeKind, Seq<T>, Seq<T>)>,
    l: Seq<T>,
    r: Seq<T>,
    f: spec_fn(T) -> U,
)
    ensures
        merge_from(map_parts(parts, f), l.map_values(f), r.map_values(f)) == map_parts(
            merge_from(parts, l, r),
            f,
        ),
    decreases parts.len(),
{
    if parts.len() == 0 {
        assert(map_parts(parts, f) =~= Seq::empty());
        assert(map_parts(flush(l, r), f) =~= flush(l.map_values(f), r.map_values(f)));
    } else {
        let p = parts[0];
        let mp = map_parts(parts, f);
        assert(mp.drop_first() =~= map_parts(parts.drop_first(), f));
        assert(mp[0] == (p.0, p.1.map_values(f), p.2.map_values(f)));
        match p.0 {
            TextChangeKind::Novel => {
                lemma_merge_from_map(parts.drop_first(), l + p.1, r + p.2, f);
                assert((l + p.1).map_values(f) =~= l.map_values(f) + p.1.map_values(f));
                assert((r + p.2).map_values(f) =~= r.map_values(f) + p.2.map_values(f));
            },
            TextChangeKind::Unchanged => {
                let e = Seq::<T>::empty();
                lemma_merge_from_map(parts.drop_first(), e, e, f);
                assert(e.map_values(f) =~= Seq::<U>::empty());
                let rest = merge_from(parts.drop_first(), e, e);
                assert(map_parts(flush(l, r) + seq![p] + rest, f) =~= map_parts(flush(l, r), f)
                    + map_parts(seq![p], f) + map_parts(rest, f));
                assert(map_parts(flush(l, r), f) =~= flush(l.map_values(f), r.map_values(f)));
                assert(map_parts(seq![p], f) =~= seq![mp[0]]);
            },
        }
    }
}

/// The runs of lines that a diff makes.
pub fn diff_parts<'a>(steps: &Vec<DiffStep<&'a str>>) -> (res: Vec<LinePart<'a>>)
    ensures
        part_values(res@) == parts_of(steps@),
        res@.len() == steps@.len(),
        forall|i: int|
            0 <= i < res@.len() ==> ((#[trigger] res@[i]).0 == TextChangeKind::Unchanged
                <==> steps@[i] is Both),
{
    proof {
        law_parts_of(steps@);
    }
    let mut res: Vec<LinePart<'a>> = Vec::new();
    let n = steps.len();
    let mut k: usize = 0;
    while k < n
        invariant
            n == steps@.len(),
            k <= n,
            part_values(res@) == parts_of(steps@.take(k as int)),
        decreases n - k,
    {
        let part = match &steps[k] {
            DiffStep::Left(line) => (TextChangeKind::Novel, vec![*line], Vec::new()),
            DiffStep::Both(line, opposite_line) => (
                TextChangeKind::Unchanged,
                vec![*line],
                vec![*opposite_line],
            ),
            DiffStep::Right(opposite_line) => (TextChangeKind::Novel, Vec::new(), vec![*opposite_line]),
        };
        let ghost before = res@;
        let ghost pv = part_value(part);
        proof {
            assert(pv =~= part_of(steps@[k as int]));
        }
        res.push(part);
        k += 1;
        proof {
            assert(part_values(res@) =~= part_values(before).push(pv));
            assert(steps@.take(k as int) =~= steps@.take(k - 1).push(steps@[k - 1]));
            assert(part_values(res@) =~= parts_of(steps@.take(k as int)));
        }
    }
    proof {
        assert(steps@.take(n as int) =~= steps@);
        assert forall|i: int| 0 <= i < res@.len() implies ((#[trigger] res@[i]).0
            == TextChangeKind::Unchanged <==> steps@[i] is Both) by {
            assert(part_values(res@)[i] == part_value(res@[i]));
        }
    }
    res
}

/// The runs of lines in which `src` and `opposite_src` differ or agree, from
/// a diff of their lines, with each stretch of novel runs joined into one.
pub fn changed_parts<'a>(src: &'a str, opposite_src: &'a str) -> (res: Vec<LinePart<'a>>)
    requires
        diff_fits(text_lines(src.spec_bytes()).len(), text_lines(opposite_src.spec_bytes()).len()),
    ensures
        part_texts(res@) == merged(parts_of(slice_diff(line_texts(src), line_texts(opposite_src)))),
        str_bytes(left_lines(part_values(res@))) == text_lines(src.spec_bytes()),
        str_bytes(right_lines(part_values(res@))) == text_lines(opposite_src.spec_bytes()),
        well_merged(part_values(res@)),
        unchanged_runs(part_texts(res@)).len() == both_count(
            slice_diff(line_texts(src), line_texts(opposite_src)),
        ),
        forall|i: int|
            0 <= i < res@.len() && #[trigger] res@[i].0 == TextChangeKind::Unchanged ==> {
                &&& res@[i].1@.len() == 1
                &&& res@[i].2@.len() == 1
                &&& res@[i].1@[0]@ == res@[i].2@[0]@
            },
{
    let src_lines = split_lines_keep_newline(src);
    let opposite_src_lines = split_lines_keep_newline(opposite_src);
    let steps = diff_lines(src_lines.as_slice(), opposite_src_lines.as_slice());
    let parts = diff_parts(&steps);
    let res = merge_novel(parts.as_slice());
    proof {
        lemma_line_texts(src, src_lines@);
        lemma_line_texts(opposite_src, opposite_src_lines@);
        let view_of = |x: &'a str| x@;
        lemma_parts_of_map(steps@);
        lemma_merge_from_map(parts_of(steps@), Seq::empty(), Seq::empty(), view_of);
        assert(Seq::<&'a str>::empty().map_values(view_of) =~= Seq::<Seq<char>>::empty());
        assert(part_texts(res@) =~= map_parts(part_values(res@), view_of));
        lemma_merge_sides(parts_of(steps@));
        lemma_parts_of_sides(steps@);
        lemma_merge_from_well_merged(parts_of(steps@), Seq::empty(), Seq::empty());
        lemma_unchanged_pairs(steps@);
        let d = slice_diff(line_texts(src), line_texts(opposite_src));
        law_parts_of(d);
        lemma_merge_from_unchanged_runs(parts_of(d), Seq::empty(), Seq::empty());
        let pv = part_values(res@);
        assert forall|i: int|
            0 <= i < res@.len() && #[trigger] res@[i].0 == TextChangeKind::Unchanged implies {
            &&& res@[i].1@.len() == 1
            &&& res@[i].2@.len() == 1
            &&& res@[i].1@[0]@ == res@[i].2@[0]@
        } by {
            assert(pv[i] == part_value(res@[i]));
        }
    }
    res
}

/// The lines of a text, taken by their text, are the line texts of its bytes.
proof fn lemma_line_texts<'a>(s: &'a str, lines: Seq<&'a str>)
    requires
        str_bytes(lines) == text_lines(s.spec_bytes()),
    ensures
        str_views(lines) == line_texts(s),
{
    assert forall|i: int| 0 <= i < lines.len() implies #[trigger] str_views(lines)[i] == line_texts(
        s,
    )[i] by {
        assert(str_bytes(lines)[i] == lines[i].spec_bytes());
        encode_utf8_decode_utf8(lines[i]@);
    }
    assert(str_views(lines) =~= line_texts(s));
}

/// Runs made from diff steps, taken by their text, are those made from the
/// steps taken by their text.
proof fn lemma_parts_of_map<'a>(steps: Seq<DiffStep<&'a str>>)
    ensures
        map_parts(parts_of(steps), |x: &'a str| x@) == parts_of(step_views(steps)),
{
    let view_of = |x: &'a str| x@;
    assert forall|i: int| 0 <= i < steps.len() implies #[trigger] map_parts(parts_of(steps), view_of)[i]
        == parts_of(step_views(steps))[i] by {
        match steps[i] {
            DiffStep::Left(l) => {
                assert(seq![l].map_values(view_of) =~= seq![l@]);
                assert(Seq::<&'a str>::empty().map_values(view_of) =~= Seq::<Seq<char>>::empty());
            },
            DiffStep::Both(l, r) => {
                assert(seq![l].map_values(view_of) =~= seq![l@]);
                assert(seq![r].map_values(view_of) =~= seq![r@]);
            },
            DiffStep::Right(r) => {
                assert(seq![r].map_values(view_of) =~= seq![r@]);
                assert(Seq::<&'a str>::empty().map_values(view_of) =~= Seq::<Seq<char>>::empty());
            },
        }
    }
    assert(map_parts(parts_of(steps), view_of) =~= parts_of(step_views(steps)));
}

/// The runs made from diff steps hold the left and the right items of the
/// steps, in order.
pub proof fn lemma_parts_of_sides<T>(steps: Seq<DiffStep<T>>)
    ensures
        left_lines(parts_of(steps)) == lefts(steps),
        right_lines(parts_of(steps)) == rights(steps),
{
    assert(parts_of(steps).map_values(|p: (TextChangeKind, Seq<T>, Seq<T>)| p.1) =~= steps.map_values(
        |x: DiffStep<T>| left_of(x),
    ));
    assert(parts_of(steps).map_values(|p: (TextChangeKind, Seq<T>, Seq<T>)| p.2) =~= steps.map_values(
        |x: DiffStep<T>| right_of(x),
    ));
}

proof fn lemma_sides_first<T>(parts: Seq<(TextChangeKind, Seq<T>, Seq<T>)>)
    requires
        parts.len() > 0,
    ensures
        left_lines(parts) == parts[0].1 + left_lines(parts.drop_first()),
        right_lines(parts) == parts[0].2 + right_lines(parts.drop_first()),
{
    assert(parts.map_values(|p: (TextChangeKind, Seq<T>, Seq<T>)| p.1).drop_first() =~= parts.drop_first().map_values(
        |p: (TextChangeKind, Seq<T>, Seq<T>)| p.1,
    ));
    assert(parts.map_values(|p: (TextChangeKind, Seq<T>, Seq<T>)| p.2).drop_first() =~= parts.drop_first().map_values(
        |p: (TextChangeKind, Seq<T>, Seq<T>)| p.2,
    ));
}

proof fn lemma_sides_concat<T>(
    a: Seq<(TextChangeKind, Seq<T>, Seq<T>)>,
    b: Seq<(TextChangeKind, Seq<T>, Seq<T>)>,
)
    ensures
        left_lines(a + b) == left_lines(a) + left_lines(b),
        right_lines(a + b) == right_lines(a) + right_lines(b),
{
    let f1 = |p: (TextChangeKind, Seq<T>, Seq<T>)| p.1;
    let f2 = |p: (TextChangeKind, Seq<T>, Seq<T>)| p.2;
    assert((a + b).map_values(f1) =~= a.map_values(f1) + b.map_values(f1));
    assert((a + b).map_values(f2) =~= a.map_values(f2) + b.map_values(f2));
    lemma_flatten_concat(a.map_values(f1), b.map_values(f1));
    lemma_flatten_concat(a.map_values(f2), b.map_values(f2));
}

proof fn lemma_merge_from_sides<T>(parts: Seq<(TextChangeKind, Seq<T>, Seq<T>)>, l: Seq<T>, r: Seq<T>)
    ensures
        left_lines(merge_from(parts, l, r)) == l + left_lines(parts),
        right_lines(merge_from(parts, l, r)) == r + right_lines(parts),
    decreases parts.len(),
{
    let e = Seq::<T>::empty();
    if parts.len() == 0 {
        assert(left_lines(parts) =~= e);
        assert(right_lines(parts) =~= e);
        if l.len() > 0 || r.len() > 0 {
            lemma_sides_first(flush(l, r));
            assert(flush(l, r).drop_first() =~= Seq::empty());
            assert(left_lines(flush(l, r).drop_first()) =~= e);
            assert(right_lines(flush(l, r).drop_first()) =~= e);
        } else {
            assert(left_lines(flush(l, r)) =~= e);
            assert(right_lines(flush(l, r)) =~= e);
        }
        assert(l + e =~= l);
        assert(r + e =~= r);
    } else {
        let p = parts[0];
        lemma_sides_first(parts);
        match p.0 {
            TextChangeKind::Novel => {
                lemma_merge_from_sides(parts.drop_first(), l + p.1, r + p.2);
                assert(l + p.1 + left_lines(parts.drop_first()) =~= l + left_lines(parts));
                assert(r + p.2 + right_lines(parts.drop_first()) =~= r + right_lines(parts));
            },
            TextChangeKind::Unchanged => {
                lemma_merge_from_sides(parts.drop_first(), e, e);
                let rest = merge_from(parts.drop_first(), e, e);
                lemma_merge_from_sides(Seq::empty(), l, r);
                assert(merge_from(Seq::empty(), l, r) == flush(l, r));
                lemma_sides_concat(flush(l, r), seq![p]);
                lemma_sides_concat(flush(l, r) + seq![p], rest);
                lemma_sides_first(seq![p]);
                assert(seq![p].drop_first() =~= Seq::empty());
                assert(left_lines(Seq::<(TextChangeKind, Seq<T>, Seq<T>)>::empty()) =~= e);
                assert(right_lines(Seq::<(TextChangeKind, Seq<T>, Seq<T>)>::empty()) =~= e);
                assert(e + left_lines(parts.drop_first()) =~= left_lines(parts.drop_first()));
                assert(e + right_lines(parts.drop_first()) =~= right_lines(parts.drop_first()));
                assert(l + e =~= l);
                assert(r + e =~= r);
                assert(l + p.1 + left_lines(parts.drop_first()) =~= l + left_lines(parts));
                assert(r + p.2 + right_lines(parts.drop_first()) =~= r + right_lines(parts));
            },
        }
    }
}

/// Joining novel runs keeps every line of both sides, in order.
pub proof fn lemma_merge_sides<T>(parts: Seq<(TextChangeKind, Seq<T>, Seq<T>)>)
    ensures
        left_lines(merged(parts)) == left_lines(parts),
        right_lines(merged(parts)) == right_lines(parts),
{
    lemma_merge_from_sides(parts, Seq::empty(), Seq::empty());
    assert(Seq::<T>::empty() + left_lines(parts) =~= left_lines(parts));
    assert(Seq::<T>::empty() + right_lines(parts) =~= right_lines(parts));
}

/// No two novel runs follow each other, and no novel run is empty on both
/// sides.
pub open spec fn well_merged<T>(parts: Seq<(TextChangeKind, Seq<T>, Seq<T>)>) -> bool {
    &&& forall|i: int, j: int|
        #![trigger parts[i], parts[j]]
        0 <= i && j == i + 1 && j < parts.len() ==> !(parts[i].0 == TextChangeKind::Novel
            && parts[j].0 == TextChangeKind::Novel)
    &&& forall|i: int|
        0 <= i < parts.len() && (#[trigger] parts[i]).0 == TextChangeKind::Novel ==> parts[i].1.len()
            > 0 || parts[i].2.len() > 0
}

/// Every unchanged run of `out` is a run of `parts`.
pub open spec fn unchanged_from<T>(
    out: Seq<(TextChangeKind, Seq<T>, Seq<T>)>,
    parts: Seq<(TextChangeKind, Seq<T>, Seq<T>)>,
) -> bool {
    forall|i: int|
        0 <= i < out.len() && #[trigger] out[i].0 == TextChangeKind::Unchanged ==> exists|j: int|
            0 <= j < parts.len() && #[trigger] parts[j] == out[i]
}

proof fn lemma_merge_from_well_merged<T>(
    parts: Seq<(TextChangeKind, Seq<T>, Seq<T>)>,
    l: Seq<T>,
    r: Seq<T>,
)
    ensures
        well_merged(merge_from(parts, l, r)),
    decreases parts.len(),
{
    if parts.len() > 0 {
        let p = parts[0];
        let rest_parts = parts.drop_first();
        match p.0 {
            TextChangeKind::Novel => {
                lemma_merge_from_well_merged(rest_parts, l + p.1, r + p.2);
            },
            TextChangeKind::Unchanged => {
                let e = Seq::<T>::empty();
                lemma_merge_from_well_merged(rest_parts, e, e);
                lemma_well_merged_around(flush(l, r), p, merge_from(rest_parts, e, e));
            },
        }
    }
}

proof fn lemma_well_merged_around<T>(
    f: Seq<(TextChangeKind, Seq<T>, Seq<T>)>,
    p: (TextChangeKind, Seq<T>, Seq<T>),
    rest: Seq<(TextChangeKind, Seq<T>, Seq<T>)>,
)
    requires
        f.len() <= 1,
        well_merged(f),
        p.0 == TextChangeKind::Unchanged,
        well_merged(rest),
    ensures
        well_merged(f + seq![p] + rest),
{
    let out = f + seq![p] + rest;
    assert forall|i: int, j: int|
        #![trigger out[i], out[j]]
        0 <= i && j == i + 1 && j < out.len() implies !(out[i].0 == TextChangeKind::Novel
            && out[j].0 == TextChangeKind::Novel) by {
        if i < f.len() {
            assert(out[j] == p);
        } else if i > f.len() {
            assert(out[i] == rest[i - f.len() - 1]);
            assert(out[j] == rest[j - f.len() - 1]);
        }
    }
    assert forall|i: int|
        0 <= i < out.len() && (#[trigger] out[i]).0 == TextChangeKind::Novel implies out[i].1.len()
            > 0 || out[i].2.len() > 0 by {
        if i < f.len() {
            assert(out[i] == f[i]);
        } else if i > f.len() {
            assert(out[i] == rest[i - f.len() - 1]);
        }
    }
}

proof fn lemma_merge_from_unchanged<T>(
    parts: Seq<(TextChangeKind, Seq<T>, Seq<T>)>,
    l: Seq<T>,
    r: Seq<T>,
)
    ensures
        unchanged_from(merge_from(parts, l, r), parts),
    decreases parts.len(),
{
    let out = merge_from(parts, l, r);
    if parts.len() > 0 {
        let p = parts[0];
        let rest_parts = parts.drop_first();
        match p.0 {
            TextChangeKind::Novel => {
                lemma_merge_from_unchanged(rest_parts, l + p.1, r + p.2);
                assert forall|i: int|
                    0 <= i < out.len() && #[trigger] out[i].0
                        == TextChangeKind::Unchanged implies exists|j: int|
                    0 <= j < parts.len() && #[trigger] parts[j] == out[i] by {
                    let j = choose|j: int|
                        0 <= j < rest_parts.len() && #[trigger] rest_parts[j] == out[i];
                    assert(parts[j + 1] == rest_parts[j]);
                }
            },
            TextChangeKind::Unchanged => {
                let e = Seq::<T>::empty();
                lemma_merge_from_unchanged(rest_parts, e, e);
                let rest = merge_from(rest_parts, e, e);
                let f = flush(l, r);
                assert(out == f + seq![p] + rest);
                assert forall|i: int|
                    0 <= i < out.len() && #[trigger] out[i].0
                        == TextChangeKind::Unchanged implies exists|j: int|
                    0 <= j < parts.len() && #[trigger] parts[j] == out[i] by {
                    if i < f.len() {
                        assert(out[i] == f[i]);
                    } else if i == f.len() {
                        assert(parts[0] == out[i]);
                    } else {
                        assert(out[i] == rest[i - f.len() - 1]);
                        let j = choose|j: int|
                            0 <= j < rest_parts.len() && #[trigger] rest_parts[j] == rest[i
                                - f.len() - 1];
                        assert(parts[j + 1] == rest_parts[j]);
                    }
                }
            },
        }
    }
}

/// A run of lines made from a diff step is unchanged only for a step that
/// pairs two lines of the same text.
proof fn lemma_unchanged_pairs<'a>(steps: Seq<DiffStep<&'a str>>)
    requires
        forall|k: int|
            0 <= k < steps.len() ==> (#[trigger] steps[k] matches DiffStep::Both(l, r) ==> l@ == r@),
    ensures
        forall|i: int|
            0 <= i < merged(parts_of(steps)).len() && #[trigger] merged(parts_of(steps))[i].0
                == TextChangeKind::Unchanged ==> {
                &&& merged(parts_of(steps))[i].1.len() == 1
                &&& merged(parts_of(steps))[i].2.len() == 1
                &&& merged(parts_of(steps))[i].1[0]@ == merged(parts_of(steps))[i].2[0]@
            },
{
    let m = merged(parts_of(steps));
    lemma_merge_from_unchanged(parts_of(steps), Seq::empty(), Seq::empty());
    assert forall|i: int| 0 <= i < m.len() && #[trigger] m[i].0 == TextChangeKind::Unchanged implies {
        &&& m[i].1.len() == 1
        &&& m[i].2.len() == 1
        &&& m[i].1[0]@ == m[i].2[0]@
    } by {
        let j = choose|j: int| 0 <= j < parts_of(steps).len() && #[trigger] parts_of(steps)[j] == m[i];
        assert(parts_of(steps)[j] == part_of(steps[j]));
        assert(steps[j] matches DiffStep::Both(l, r) ==> l@ == r@);
    }
}

/// Joining novel runs keeps every line of both sides in order, leaves no two
/// novel runs next to each other and no novel run without lines, and takes
/// every unchanged run over as it was.
pub proof fn law_merge_novel<T>(parts: Seq<(TextChangeKind, Seq<T>, Seq<T>)>)
    ensures
        left_lines(merged(parts)) == left_lines(parts),
        right_lines(merged(parts)) == right_lines(parts),
        well_merged(merged(parts)),
        unchanged_from(merged(parts), parts),
        unchanged_runs(merged(parts)) == unchanged_runs(parts),
{
    lemma_merge_from_unchanged_runs(parts, Seq::empty(), Seq::empty());
    lemma_merge_sides(parts);
    lemma_merge_from_well_merged(parts, Seq::empty(), Seq::empty());
    lemma_merge_from_unchanged(parts, Seq::empty(), Seq::empty());
}

proof fn lemma_line_cuts(b: Seq<u8>)
    ensures
        line_cuts(b).len() >= 1,
        line_cuts(b)[0] == 0,
        line_cuts(b).last() == b.len(),
        forall|k: int, j: int|
            0 <= k < j < line_cuts(b).len() ==> #[trigger] line_cuts(b)[k] < #[trigger] line_cuts(
                b,
            )[j],
        forall|k: int|
            0 < k < line_cuts(b).len() && k <= newline_ends(b).len() ==> #[trigger] line_cuts(b)[k]
                == newline_ends(b)[k - 1],
        line_cuts(b).len() == newline_ends(b).len() + 1 || line_cuts(b).len()
            == newline_ends(b).len() + 2,
{
    lemma_newline_ends(b);
    let ne = newline_ends(b);
    let c0 = seq![0int] + ne;
    if ne.len() > 0 {
        assert(c0.last() == ne[ne.len() - 1]);
    }
    assert forall|k: int, j: int| 0 <= k < j < c0.len() implies #[trigger] c0[k] < #[trigger] c0[j] by {
        if k > 0 {
            assert(ne[k - 1] < ne[j - 1]);
        } else {
            assert(ne[j - 1] > 0);
        }
    }
}

/// The pieces of `b` between consecutive cuts make up `b` from the first cut
/// to the last.
proof fn lemma_pieces_flatten(b: Seq<u8>, c: Seq<int>, m: int)
    requires
        0 <= m < c.len(),
        forall|k: int| 0 <= k < c.len() ==> 0 <= #[trigger] c[k] <= b.len(),
        forall|k: int, j: int| 0 <= k < j < c.len() ==> #[trigger] c[k] < #[trigger] c[j],
    ensures
        Seq::new(m as nat, |k: int| b.subrange(c[k], c[k + 1])).flatten() == b.subrange(c[0], c[m]),
    decreases m,
{
    let pieces = Seq::new(m as nat, |k: int| b.subrange(c[k], c[k + 1]));
    if m == 0 {
        assert(b.subrange(c[0], c[0]) =~= Seq::<u8>::empty());
    } else {
        let before = Seq::new((m - 1) as nat, |k: int| b.subrange(c[k], c[k + 1]));
        lemma_pieces_flatten(b, c, m - 1);
        assert(pieces =~= before.push(b.subrange(c[m - 1], c[m])));
        before.lemma_flatten_push(b.subrange(c[m - 1], c[m]));
        if m - 1 > 0 {
            assert(c[0] < c[m - 1]);
        }
        assert(b.subrange(c[0], c[m - 1]) + b.subrange(c[m - 1], c[m]) =~= b.subrange(c[0], c[m]));
    }
}

/// The lines of a text make up the text; none is empty; each but the last
/// ends with a newline; and no line holds a newline before its end.
pub proof fn law_text_lines(b: Seq<u8>)
    ensures
        text_lines(b).flatten() == b,
        forall|k: int| 0 <= k < text_lines(b).len() ==> (#[trigger] text_lines(b)[k]).len() > 0,
        forall|k: int|
            0 <= k < text_lines(b).len() - 1 ==> (#[trigger] text_lines(b)[k]).last() == 10u8,
        forall|k: int, j: int|
            0 <= k < text_lines(b).len() && 0 <= j < text_lines(b)[k].len() - 1 ==> #[trigger] text_lines(
                b,
            )[k][j] != 10u8,
{
    let c = line_cuts(b);
    let ne = newline_ends(b);
    let lines = text_lines(b);
    lemma_line_cuts(b);
    lemma_newline_ends(b);
    assert forall|k: int| 0 <= k < c.len() implies 0 <= #[trigger] c[k] <= b.len() by {
        if k > 0 {
            assert(c[0] < c[k]);
        }
        if k < c.len() - 1 {
            assert(c[k] < c[c.len() - 1]);
        }
    }
    lemma_pieces_flatten(b, c, c.len() - 1);
    assert(lines =~= Seq::new((c.len() - 1) as nat, |k: int| b.subrange(c[k], c[k + 1])));
    assert(b.subrange(0, b.len() as int) =~= b);
    assert forall|k: int| 0 <= k < lines.len() implies (#[trigger] lines[k]).len() > 0 by {
        assert(c[k] < c[k + 1]);
    }
    assert forall|k: int| 0 <= k < lines.len() - 1 implies (#[trigger] lines[k]).last() == 10u8 by {
        assert(c[k + 1] == ne[k]);
        assert(c[k] < c[k + 1]);
    }
    assert forall|k: int, j: int| 0 <= k < lines.len() && 0 <= j < lines[k].len() - 1 implies #[trigger] lines[k][j]
        != 10u8 by {
        let i = c[k] + j;
        assert(lines[k][j] == b[i]);
        if b[i] == 10u8 {
            let m = choose|m: int| 0 <= m < ne.len() && #[trigger] ne[m] == i + 1;
            assert(c[m + 1] == ne[m]);
            if m + 1 <= k {
                if m + 1 < k {
                    assert(c[m + 1] < c[k]);
                }
            } else {
                assert(k + 1 <= m + 1);
                if k + 1 < m + 1 {
                    assert(c[k + 1] < c[m + 1]);
                }
            }
        }
    }
}

/// The unchanged runs of `parts`, in order.
pub open spec fn unchanged_runs<T>(parts: Seq<(TextChangeKind, Seq<T>, Seq<T>)>) -> Seq<
    (TextChangeKind, Seq<T>, Seq<T>),
>
    decreases parts.len(),
{
    if parts.len() == 0 {
        Seq::empty()
    } else {
        (if parts[0].0 == TextChangeKind::Unchanged {
            seq![parts[0]]
        } else {
            Seq::empty()
        }) + unchanged_runs(parts.drop_first())
    }
}

/// How many steps of `s` pair a line of the left with one of the right.
pub open spec fn both_count<T>(s: Seq<DiffStep<T>>) -> nat
    decreases s.len(),
{
    if s.len() == 0 {
        0
    } else {
        (if s[0] is Both {
            1nat
        } else {
            0nat
        }) + both_count(s.drop_first())
    }
}

proof fn lemma_unchanged_runs_concat<T>(
    a: Seq<(TextChangeKind, Seq<T>, Seq<T>)>,
    b: Seq<(TextChangeKind, Seq<T>, Seq<T>)>,
)
    ensures
        unchanged_runs(a + b) == unchanged_runs(a) + unchanged_runs(b),
    decreases a.len(),
{
    if a.len() == 0 {
        assert(a + b =~= b);
        assert(unchanged_runs(a) + unchanged_runs(b) =~= unchanged_runs(b));
    } else {
        lemma_unchanged_runs_concat(a.drop_first(), b);
        assert((a + b).drop_first() =~= a.drop_first() + b);
        assert((a + b)[0] == a[0]);
        let head = if a[0].0 == TextChangeKind::Unchanged {
            seq![a[0]]
        } else {
            Seq::empty()
        };
        assert(head + (unchanged_runs(a.drop_first()) + unchanged_runs(b)) =~= (head
            + unchanged_runs(a.drop_first())) + unchanged_runs(b));
    }
}

proof fn lemma_unchanged_runs_flush<T>(l: Seq<T>, r: Seq<T>)
    ensures
        unchanged_runs(flush(l, r)) == Seq::<(TextChangeKind, Seq<T>, Seq<T>)>::empty(),
{
    if l.len() > 0 || r.len() > 0 {
        let e = Seq::<(TextChangeKind, Seq<T>, Seq<T>)>::empty();
        assert(flush(l, r).drop_first() =~= e);
        assert(unchanged_runs(e) == e);
        assert(unchanged_runs(flush(l, r)) =~= Seq::<(TextChangeKind, Seq<T>, Seq<T>)>::empty());
    }
}

proof fn lemma_merge_from_unchanged_runs<T>(
    parts: Seq<(TextChangeKind, Seq<T>, Seq<T>)>,
    l: Seq<T>,
    r: Seq<T>,
)
    ensures
        unchanged_runs(merge_from(parts, l, r)) == unchanged_runs(parts),
    decreases parts.len(),
{
    if parts.len() == 0 {
        lemma_unchanged_runs_flush(l, r);
    } else {
        let p = parts[0];
        let e = Seq::<(TextChangeKind, Seq<T>, Seq<T>)>::empty();
        match p.0 {
            TextChangeKind::Novel => {
                lemma_merge_from_unchanged_runs(parts.drop_first(), l + p.1, r + p.2);
                assert(unchanged_runs(parts) =~= e + unchanged_runs(parts.drop_first()));
            },
            TextChangeKind::Unchanged => {
                let rest = merge_from(parts.drop_first(), Seq::empty(), Seq::empty());
                lemma_merge_from_unchanged_runs(parts.drop_first(), Seq::empty(), Seq::empty());
                lemma_unchanged_runs_flush(l, r);
                lemma_unchanged_runs_concat(flush(l, r), seq![p]);
                lemma_unchanged_runs_concat(flush(l, r) + seq![p], rest);
                assert(seq![p].drop_first() =~= e);
                assert(unchanged_runs(seq![p]) =~= seq![p] + unchanged_runs(e));
                assert(unchanged_runs(e) =~= e);
                assert(unchanged_runs(merge_from(parts, l, r)) =~= seq![p] + unchanged_runs(
                    parts.drop_first(),
                ));
            },
        }
    }
}

/// Each run made from a diff step depends on that step alone: it is
/// unchanged exactly for a step that pairs two lines, and holds the step's
/// lines; so there are as many unchanged runs as pairing steps.
pub proof fn law_parts_of<T>(s: Seq<DiffStep<T>>)
    ensures
        parts_of(s).len() == s.len(),
        forall|i: int|
            0 <= i < s.len() ==> {
                &&& (#[trigger] parts_of(s)[i]).0 == TextChangeKind::Unchanged <==> s[i] is Both
                &&& parts_of(s)[i].1 == left_of(s[i])
                &&& parts_of(s)[i].2 == right_of(s[i])
            },
        unchanged_runs(parts_of(s)).len() == both_count(s),
    decreases s.len(),
{
    if s.len() > 0 {
        law_parts_of(s.drop_first());
        assert(parts_of(s).drop_first() =~= parts_of(s.drop_first()));
        assert(parts_of(s)[0] == part_of(s[0]));
    }
}

} // verus!
