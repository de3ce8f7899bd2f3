//! Folds: where they start and end, how they nest, and how they follow edits and the cursor.

use helix_views::changes::{ChangeSet, Operation};
use helix_views::fold::{is_closing_bracket, nest, Fold};
use helix_views::fold_rows::{
    next_row, prev_row, row_end_line, row_line_range, row_lines, row_start_line, visible_ranges,
};
use helix_views::fold_toggle::Toggle;
use helix_views::folds::Folds;
use helix_views::selection::{Range, Selection};
use helix_views::text::{last_non_whitespace, line_end_char_index, line_first_non_whitespace};
use ropey::Rope;

/// The text without the marks, and the range between them.
fn region(text: &str) -> (Rope, std::ops::Range<usize>) {
    let start = text.chars().position(|c| c == '«').unwrap();
    let end = text.chars().position(|c| c == '»').unwrap() - 1;
    (Rope::from(text.replace(['«', '»'], "")), start..end)
}

/// Renders `text` with `folds` closed, drawing fold cells as `…`.
fn render(text: &Rope, folds: &Folds) -> String {
    let text = text.slice(..);
    let mut rendered = String::new();
    let mut pos = 0;
    for fold in folds.outermost() {
        rendered.extend(text.slice(pos..fold.start).chars());
        rendered.push('…');
        pos = fold.end;
    }
    rendered.extend(text.slice(pos..).chars());
    rendered
}

fn fold(text: &Rope, region: std::ops::Range<usize>) -> Fold {
    let text = text.slice(..);
    let last = last_non_whitespace(text, region.start, region.end).unwrap();
    let first = line_first_non_whitespace(text, text.char_to_line(last)).unwrap();
    let closer = (first == last && is_closing_bracket(text.char(last))).then_some(first);
    Fold::from_region(text, region, closer).unwrap()
}

fn folded(text: &str) -> String {
    let (text, region) = region(text);
    let mut folds = Folds::default();
    folds.close(vec![fold(&text, region)]);
    render(&text, &folds)
}

#[test]
fn region_rule() {
    // a closing bracket starting the last line is pulled up
    assert_eq!(
        folded("«fn new() -> Self {\n    Self { pos: 0 }\n}»\n"),
        "fn new() -> Self {…}\n"
    );
    // anything after the region on its last line stays visible
    assert_eq!(
        folded("class Lexer «{\n  int pos;\n}»;\n"),
        "class Lexer {…};\n"
    );
    // without a closer the rest of the region is hidden
    assert_eq!(
        folded("«main = do\n  putStrLn \"hi\"\n  pure ()»\nnext\n"),
        "main = do…\nnext\n"
    );
    // trailing whitespace and blank lines inside the region are not hidden
    assert_eq!(
        folded("«def f():\n    pass\n\n\n»x = 1\n"),
        "def f():…\n\n\nx = 1\n"
    );
    // CRLF: the fold cell is the whole line break
    assert_eq!(folded("«fn f() {\r\n    1\r\n}»\r\n"), "fn f() {…}\r\n");
}

#[test]
fn region_without_hidden_content() {
    let (text, range) = region("«fn f() {}»\n");
    assert_eq!(Fold::from_region(text.slice(..), range, None), None);
    let (text, range) = region("«fn f() {\n}»\n");
    let closer = Some(range.end - 1);
    assert_eq!(Fold::from_region(text.slice(..), range, closer), None);
    let (text, range) = region("«fn f() {\n    \n}»\n");
    let closer = Some(range.end - 1);
    assert_eq!(Fold::from_region(text.slice(..), range, closer), None);
}

fn if_else() -> (Rope, Fold, Fold) {
    let text = Rope::from("if a {\n    b\n} else {\n    c\n}\nd\n");
    let then = fold(&text, 5..14);
    let otherwise = fold(&text, 20..29);
    (text, then, otherwise)
}

#[test]
fn fold_chained_folds() {
    let (text, then, otherwise) = if_else();
    let mut folds = Folds::default();
    folds.close(vec![then, otherwise]);
    assert_eq!(render(&text, &folds), "if a {…} else {…}\nd\n");

    let slice = text.slice(..);
    let outermost = folds.outermost();
    for line in 0..=4 {
        assert_eq!(row_start_line(outermost, slice, line), 0, "line {line}");
    }
    assert_eq!(row_end_line(outermost, slice, 0), 4);
    assert_eq!(next_row(outermost, slice, 2, 1), 5);
    assert_eq!(prev_row(outermost, slice, 5, 1), 0);
    assert_eq!(folds.row(slice, 5), 1);
    assert_eq!(folds.row_start(slice, 1), 5);
    let target = |folds: &Folds, pos| {
        folds.toggle_target(slice, &Range::point(pos), || vec![then, otherwise])
    };
    assert_eq!(
        target(&folds, 0),
        Some(Toggle::Open(then)),
        "the first header"
    );
    assert_eq!(
        target(&folds, 14),
        Some(Toggle::Open(otherwise)),
        "`}} else {{` heads the second fold"
    );
    assert_eq!(
        target(&folds, 29),
        Some(Toggle::Open(otherwise)),
        "the final `}}` continues the second fold"
    );
    // with only the first fold closed, `} else {` folds the second block
    folds.open(&[otherwise]);
    assert_eq!(target(&folds, 14), Some(Toggle::Close(otherwise)));
    assert_eq!(target(&folds, 0), Some(Toggle::Open(then)));
}

#[test]
fn nesting() {
    let text = Rope::from("impl A {\n    fn f() {\n        1\n    }\n}\n");
    let outer = fold(&text, 0..40);
    let inner = fold(&text, 13..38);
    let mut folds = Folds::default();
    folds.close(vec![inner, outer]);
    assert_eq!(folds.closed(), [outer, inner]);
    assert_eq!(render(&text, &folds), "impl A {…}\n");
    folds.open(&[outer]);
    assert_eq!(render(&text, &folds), "impl A {\n    fn f() {…}\n}\n");
    folds.close(vec![outer]);
    folds.open_recursive(&[outer]);
    assert!(folds.is_empty());
}

#[test]
fn crossing_folds() {
    let old = Fold {
        start: 2,
        end: 10,
        pulled_up: false,
    };
    let new = Fold {
        start: 5,
        end: 20,
        pulled_up: false,
    };
    let mut folds = Folds::default();
    folds.close(vec![old]);
    folds.close(vec![new]);
    assert_eq!(folds.closed(), [new], "the new fold wins");
    let crossing = vec![(old, false), (new, false)];
    assert_eq!(nest(crossing), [old], "the earlier fold wins");
}

#[test]
fn closing_opens_only_what_crosses() {
    let fold = |start, end| Fold {
        start,
        end,
        pulled_up: false,
    };
    let mut folds = Folds::default();
    folds.close(vec![fold(0, 40), fold(2, 10), fold(12, 14), fold(25, 30)]);
    folds.close(vec![fold(5, 20)]);
    assert_eq!(
        folds.closed(),
        [fold(0, 40), fold(5, 20), fold(12, 14), fold(25, 30)]
    );
    // a fold of the same text is replaced
    let pulled_up = Fold {
        pulled_up: true,
        ..fold(12, 14)
    };
    folds.close(vec![pulled_up]);
    assert_eq!(
        folds.closed(),
        [fold(0, 40), fold(5, 20), pulled_up, fold(25, 30)]
    );
}

#[test]
fn closing_several_folds() {
    let fold = |start, end| Fold {
        start,
        end,
        pulled_up: false,
    };
    let mut folds = Folds::default();
    folds.close(vec![fold(0, 40), fold(2, 10), fold(12, 14), fold(25, 30)]);
    folds.close(vec![fold(28, 35), fold(5, 20), fold(6, 8), fold(12, 14)]);
    let closed = [
        fold(0, 40),
        fold(5, 20),
        fold(6, 8),
        fold(12, 14),
        fold(28, 35),
    ];
    assert_eq!(folds.closed(), closed);
    // opening undoes closing
    folds.close(vec![fold(4, 22)]);
    assert_eq!(folds.closed().len(), 6);
    folds.open(&[fold(4, 22)]);
    assert_eq!(folds.closed(), closed);
}

#[test]
fn snapped_selections_have_nothing_to_reveal() {
    for text in ["fn f() {\n    1\n}\nx\n", "fn f() {\r\n    1\r\n}\r\nx\r\n"] {
        let text = Rope::from(text);
        let slice = text.slice(..);
        let end = text.line_to_char(2) + 1;
        let mut folds = Folds::default();
        folds.close(vec![fold(&text, 0..end)]);
        let revision = folds.revision();
        let boundary = |pos: usize| pos == 0 || !(slice.char(pos - 1) == '\r');
        for anchor in (0..text.len_chars()).filter(|pos| boundary(*pos)) {
            for head in (0..text.len_chars()).filter(|pos| boundary(*pos)) {
                let snapped = folds.snap(slice, Selection::single(anchor, head));
                assert!(!folds.reveal_selection(slice, &snapped));
            }
        }
        assert_eq!(folds.revision(), revision);
        assert!(folds.reveal_selection(slice, &Selection::point(text.line_to_char(1))));
        assert_ne!(folds.revision(), revision);
    }
}

#[test]
fn selections_are_aligned_to_graphemes() {
    let text = Rope::from("a\r\ne\u{301}b");
    let aligned = |anchor, head| {
        let selection = Selection::single(anchor, head).ensure_invariants(text.slice(..));
        (selection.primary().anchor, selection.primary().head)
    };
    assert_eq!(aligned(0, 0), (0, 1));
    assert_eq!(aligned(2, 4), (1, 5));
    assert_eq!(aligned(4, 2), (5, 1));
    assert_eq!(aligned(4, 4), (3, 5));
    assert_eq!(aligned(6, 6), (6, 6));
    let selection = Selection::new(vec![Range::point(3), Range::point(4)], 0)
        .ensure_invariants(text.slice(..));
    assert_eq!(selection.ranges().len(), 1);
}

#[test]
fn rows_there_and_back() {
    let text = Rope::from("a {\n  1\n}\nb\nc {\n  2\n}\nd\n");
    let slice = text.slice(..);
    let folds = {
        let mut folds = Folds::default();
        folds.close(vec![fold(&text, 0..9), fold(&text, 12..21)]);
        folds
    };
    assert_eq!(render(&text, &folds), "a {…}\nb\nc {…}\nd\n");
    let outermost = folds.outermost();
    // the rows start on the lines 0, 3, 4, 7 and 8
    assert_eq!(next_row(outermost, slice, 2, 2), 4);
    assert_eq!(prev_row(outermost, slice, 4, 2), 0);
    assert_eq!(prev_row(outermost, slice, 6, 1), 3);
    assert_eq!(next_row(outermost, slice, 3, 1), 4);
    for line in 0..text.len_lines() {
        let row = folds.row(slice, line);
        assert_eq!(
            folds.row_start(slice, row),
            row_start_line(outermost, slice, line)
        );
        assert_eq!(folds.row(slice, folds.row_start(slice, row)), row);
    }
    assert_eq!(folds.row_start(slice, usize::MAX), 8);
    // the last row is in the way
    assert_eq!(next_row(outermost, slice, 4, 9), 8);
    assert_eq!(prev_row(outermost, slice, 8, 9), 0);
}

/// Applies changes from left to right: each replaces the chars from one index to another.
fn edited(text: &mut Rope, folds: &mut Folds, changes: Vec<(usize, usize, Option<&str>)>) {
    let mut operations = Vec::new();
    let mut last = 0;
    for &(from, to, insert) in &changes {
        operations.push(Operation::Retain(from - last));
        if let Some(insert) = insert {
            operations.push(Operation::Insert(insert.to_owned()));
        }
        if to > from {
            operations.push(Operation::Delete(to - from));
        }
        last = to;
    }
    operations.push(Operation::Retain(text.len_chars() - last));
    for &(from, to, insert) in changes.iter().rev() {
        text.remove(from..to);
        if let Some(insert) = insert {
            text.insert(from, insert);
        }
    }
    folds.map(text.slice(..), &ChangeSet::from_operations(operations));
}

fn function() -> (Rope, Folds) {
    let text = Rope::from("fn f() {\n    1\n}\nx\n");
    let mut folds = Folds::default();
    folds.close(vec![fold(&text, 0..16)]);
    (text, folds)
}

#[test]
fn edits() {
    // typing at the end of the header or before the closer stays outside the fold
    let (mut text, mut folds) = function();
    edited(
        &mut text,
        &mut folds,
        vec![(8, 8, Some(" // f")), (15, 15, Some("a "))],
    );
    assert_eq!(render(&text, &folds), "fn f() { // f…a }\nx\n");

    // re-indenting the closer keeps it pulled up
    let (mut text, mut folds) = function();
    edited(&mut text, &mut folds, vec![(15, 15, Some("  "))]);
    assert_eq!(text, "fn f() {\n    1\n  }\nx\n");
    assert_eq!(render(&text, &folds), "fn f() {…}\nx\n");

    // an edit inside the fold keeps it
    let (mut text, mut folds) = function();
    edited(&mut text, &mut folds, vec![(13, 14, Some("2\n    3"))]);
    assert_eq!(render(&text, &folds), "fn f() {…}\nx\n");

    // deleting the header's line break drops the fold
    let (mut text, mut folds) = function();
    edited(&mut text, &mut folds, vec![(8, 9, None)]);
    assert!(folds.is_empty());

    // deleting the hidden text drops the fold
    let (mut text, mut folds) = function();
    edited(&mut text, &mut folds, vec![(8, 15, None)]);
    assert_eq!(text, "fn f() {}\nx\n");
    assert!(folds.is_empty());

    // deleting everything drops the fold
    let (mut text, mut folds) = function();
    edited(&mut text, &mut folds, vec![(0, 19, None)]);
    assert!(folds.is_empty());

    // removing the `\r` of a CRLF header break keeps the fold on the `\n`
    let mut text = Rope::from("fn f() {\r\n    1\r\n}\r\n");
    let mut folds = Folds::default();
    folds.close(vec![fold(&text, 0..18)]);
    edited(&mut text, &mut folds, vec![(8, 9, None)]);
    assert_eq!(render(&text, &folds), "fn f() {…}\r\n");

    // typing `\r` right before a header's `\n` makes it a CRLF, which the fold must start at
    let (mut text, mut folds) = function();
    edited(&mut text, &mut folds, vec![(8, 8, Some("\r"))]);
    assert!(folds.is_empty());
}

#[test]
fn reveal_selection() {
    let (text, mut folds) = function();
    let text = text.slice(..);
    let reveals = |selection: Selection| {
        let (_, mut folds) = function();
        folds.reveal_selection(text, &selection)
    };
    // on the fold cell
    assert!(!reveals(Selection::single(8, 9)));
    // before and after the fold
    assert!(!reveals(Selection::single(0, 3)));
    assert!(!reveals(Selection::single(15, 16)));
    // the cursor inside the fold
    assert!(reveals(Selection::point(10)));
    // a range covering the whole fold
    assert!(!reveals(Selection::single(0, 17)));
    // a range covering part of it
    assert!(reveals(Selection::single(0, 12)));
    // a range covering all of it, with the cursor on the last hidden char
    assert!(reveals(Selection::single(9, 15)));
    assert!(folds.reveal_selection(text, &Selection::point(10)));
    assert!(folds.is_empty());
}

#[test]
fn reveal_nested() {
    let text = Rope::from("impl A {\n    fn f() {\n        1\n    }\n    fn g() {}\n}\n");
    let slice = text.slice(..);
    let outer = fold(&text, 0..54);
    let inner = fold(&text, 13..38);
    let mut folds = Folds::default();
    folds.close(vec![outer, inner]);
    // revealing `fn g` only opens the outer fold
    assert!(folds.reveal_selection(slice, &Selection::point(45)));
    assert_eq!(folds.closed(), [inner]);
    // revealing the body of `fn f` opens both
    folds.close(vec![outer]);
    assert!(folds.reveal_selection(slice, &Selection::point(30)));
    assert!(folds.is_empty());
}

#[test]
fn snap() {
    let (text, folds) = function();
    let text = text.slice(..);
    let snapped = |selection| folds.snap(text, selection);
    assert_eq!(snapped(Selection::point(10)), Selection::point(8));
    assert_eq!(snapped(Selection::single(2, 12)), Selection::single(2, 9));
    assert_eq!(snapped(Selection::single(12, 2)), Selection::single(15, 2));
    // a range covering the fold is unchanged
    assert_eq!(snapped(Selection::single(0, 17)), Selection::single(0, 17));
}

#[test]
fn widen_cells() {
    let (text, folds) = function();
    let text = text.slice(..);
    assert_eq!(
        folds.widen_cells(text, Selection::single(8, 9)),
        Selection::single(8, 15)
    );
    assert_eq!(
        folds.widen_cells(text, Selection::single(7, 9)),
        Selection::single(7, 9)
    );
}

#[test]
fn toggle_targets() {
    let text = Rope::from("impl A {\n    fn f() {\n        1\n    }\n}\n");
    let slice = text.slice(..);
    let outer = fold(&text, 0..40);
    let inner = fold(&text, 13..38);
    let regions = [outer, inner];
    let close = |range| match Folds::default().toggle_target(slice, &range, || regions.to_vec()) {
        Some(Toggle::Close(region)) => Some(region),
        _ => None,
    };
    assert_eq!(close(Range::point(0)), Some(outer), "header of the impl");
    assert_eq!(close(Range::point(13)), Some(inner), "header of fn f");
    assert_eq!(close(Range::point(9)), Some(inner), "indentation of fn f");
    assert_eq!(close(Range::point(30)), Some(inner), "body of fn f");
    assert_eq!(
        close(Range::point(39)),
        Some(outer),
        "closing brace of the impl"
    );
    assert_eq!(close(Range::new(9, 38)), Some(inner), "all of fn f");
    assert_eq!(
        close(Range::new(0, 30)),
        Some(outer),
        "impl header to fn body"
    );
    assert_eq!(
        Folds::default().toggle_target(slice, &Range::point(0), Vec::new),
        None
    );
}

#[test]
fn visible() {
    let (_, then, otherwise) = if_else();
    let folds = [then, otherwise];
    let ranges = |range| {
        visible_ranges(&folds, range)
            .into_iter()
            .map(|range| (range.start, range.end))
            .collect::<Vec<_>>()
    };
    assert_eq!(ranges(0..33), [(0, 6), (13, 21), (28, 33)]);
    assert_eq!(ranges(8..16), [(13, 16)]);
    assert_eq!(ranges(8..10), []);
    assert_eq!(ranges(30..33), [(30, 33)]);
}

#[test]
fn rows_cover_whole_ranges() {
    let (text, then, otherwise) = if_else();
    let folds = [then, otherwise];
    let slice = text.slice(..);
    assert_eq!(row_lines(&folds, slice, 2), (0, 4));
    assert_eq!(row_lines(&folds, slice, 5), (5, 5));
    // from the middle of the folded row to the line after it
    assert_eq!(row_line_range(&folds, slice, &Range::new(9, 31)), (0, 5));
    assert_eq!(line_end_char_index(slice, 0), 6);
}

/// Checks the row helpers against rows computed from the rendered text.
fn check_rows(text: &Rope, folds: &Folds) {
    let slice = text.slice(..);
    let outermost = folds.outermost();
    let mut row = 0;
    let mut row_starts = vec![0];
    for line in 1..text.len_lines() {
        let line_start = text.line_to_char(line);
        let continues = outermost
            .iter()
            .any(|fold| fold.start < line_start && line_start <= fold.end);
        if !continues {
            row += 1;
            row_starts.push(line);
        }
        assert_eq!(folds.row(slice, line), row, "row of line {line}");
        assert_eq!(
            row_start_line(outermost, slice, line),
            row_starts[row],
            "row start of line {line}"
        );
    }
    for (row, &line) in row_starts.iter().enumerate() {
        assert_eq!(folds.row_start(slice, row), line, "start of row {row}");
        let next = row_starts.get(row + 1).copied().unwrap_or(line);
        assert_eq!(next_row(outermost, slice, line, 1), next);
        let prev = row_starts[row.saturating_sub(1)];
        assert_eq!(prev_row(outermost, slice, line, 1), prev);
    }
}

/// Numbers below 256 that look random.
struct Numbers(u64);

impl Numbers {
    fn next(&mut self) -> usize {
        self.0 = self
            .0
            .wrapping_mul(6364136223846793005)
            .wrapping_add(1442695040888963407);
        (self.0 >> 40) as usize % 256
    }

    fn pairs(&mut self, count: usize) -> Vec<(usize, usize)> {
        (0..count).map(|_| (self.next(), self.next())).collect()
    }
}

/// Nested and chained folds over the lines of `text`.
fn random_folds(text: &Rope, seed: &[(usize, usize)]) -> Vec<Fold> {
    let lines = text.len_lines() - 1;
    seed.iter()
        .filter_map(|&(a, b)| {
            let (a, b) = (a % lines, b % lines);
            let (first, last) = (a.min(b), a.max(b));
            let region = text.line_to_char(first)..text.line_to_char(last) + 1;
            Fold::from_region(text.slice(..), region, None)
        })
        .collect()
}

fn lines_text(lines: usize) -> Rope {
    Rope::from(
        (0..lines)
            .map(|i| format!("line {i}\n"))
            .collect::<String>(),
    )
}

#[test]
fn rows_match_rendering() {
    let mut numbers = Numbers(1);
    for count in 0..40 {
        let text = lines_text(40);
        let mut folds = Folds::default();
        folds.close(random_folds(&text, &numbers.pairs(count)));
        check_rows(&text, &folds);
    }
}

#[test]
fn folds_stay_nested_through_edits() {
    let mut numbers = Numbers(2);
    for count in 0..20 {
        let mut text = lines_text(30);
        let mut folds = Folds::default();
        folds.close(random_folds(&text, &numbers.pairs(count)));
        for (a, b) in numbers.pairs(10) {
            let len = text.len_chars();
            let insert = (a + b) % 2 == 0;
            let a = a * len / 256;
            let b = (b * len / 256).max(a);
            edited(
                &mut text,
                &mut folds,
                vec![(a, b, insert.then_some("x\ny "))],
            );
            let closed = folds.closed();
            for (i, fold) in closed.iter().enumerate() {
                assert_eq!(fold.revalidate(text.slice(..)), Some(*fold));
                for other in &closed[i + 1..] {
                    let nested = other.end <= fold.end;
                    let disjoint = fold.end <= other.start;
                    assert!(fold.start <= other.start && (nested || disjoint));
                }
            }
            check_rows(&text, &folds);
        }
    }
}

#[test]
fn reveal_leaves_nothing_hidden() {
    let mut numbers = Numbers(3);
    for count in 0..30 {
        let text = lines_text(30);
        let slice = text.slice(..);
        let mut folds = Folds::default();
        folds.close(random_folds(&text, &numbers.pairs(count)));
        let len = text.len_chars();
        let ranges: Vec<Range> = numbers
            .pairs(count / 3 + 1)
            .into_iter()
            .map(|(a, b)| Range::new(a * len / 256, b * len / 256))
            .collect();
        let selection = Selection::new(ranges, 0);
        folds.reveal_selection(slice, &selection);
        for range in selection.ranges() {
            for fold in folds.outermost() {
                assert!(!fold.cuts(slice, range));
                assert!(!fold.interior(slice).contains(&range.cursor(slice)));
            }
        }
    }
}

#[test]
fn folds_count_their_changes() {
    let (_, mut folds) = function();
    let revision = folds.revision();
    folds.clear();
    assert!(folds.is_empty());
    assert_ne!(folds.revision(), revision);
    // the fold under a char
    let (_, folds) = function();
    assert_eq!(folds.fold_at(10).map(|fold| (fold.start, fold.end)), Some((8, 15)));
    assert_eq!(folds.fold_at(15), None);
}
