use wrap_map::{BackgroundWrapper, Edit, InputPoint, InputSnapshot, OutputPoint, Point, Snapshot, Transform, TransformSummary};
use wrap_map::wrap::wrap_boundaries;

fn make_input(text: &str, version: usize) -> InputSnapshot {
    InputSnapshot::new(text.as_bytes().to_vec(), version)
}

fn collect_from(snapshot: &Snapshot, point: OutputPoint) -> Vec<u8> {
    let mut chunks = snapshot.chunks_at(point);
    let mut out: Vec<u8> = Vec::new();
    while let Some(chunk) = chunks.next() {
        out.extend(chunk);
    }
    out
}

fn whole_document_edit(input: &InputSnapshot) -> Edit {
    let max = input.max_point();
    Edit {
        old_lines_start: InputPoint::zero(),
        old_lines_end: max,
        new_lines_start: InputPoint::zero(),
        new_lines_end: max,
    }
}

fn wrap_from_scratch(text: &str, width: u32, version: usize) -> BackgroundWrapper {
    let input = make_input(text, version);
    let snapshot = Snapshot::new(input.clone());
    let mut wrapper = BackgroundWrapper::new(snapshot, width);
    let edit = whole_document_edit(&input);
    wrapper.sync(input, vec![edit]);
    wrapper
}

#[test]
fn test_simple_wraps() {
    let text = "one two three four five six\n";
    let wrapper = wrap_from_scratch(text, 11, 1);
    assert_eq!(
        collect_from(&wrapper.snapshot, OutputPoint::new(0, 3)),
        b" two \nthree four \nfive six\n".to_vec()
    );
    assert_eq!(
        collect_from(&wrapper.snapshot, OutputPoint::zero()),
        b"one two \nthree four \nfive six\n".to_vec()
    );
}

#[test]
fn test_wrap_boundaries_exact() {
    let line: Vec<u8> = b"one two three four five six\n".to_vec();
    let n = line.len();
    assert_eq!(wrap_boundaries(&line, 0, n, 11), vec![8, 19]);
    assert_eq!(wrap_boundaries(&line, 0, n, 100), Vec::<usize>::new());
    // A word longer than the width overflows instead of being split.
    let long: Vec<u8> = b"a incomprehensibilities b\n".to_vec();
    let m = long.len();
    assert_eq!(wrap_boundaries(&long, 0, m, 5), vec![2, 24]);
}

#[test]
fn test_snapshot_new_is_unwrapped() {
    let input = make_input("alpha\nbeta\n", 7);
    let snapshot = Snapshot::new(input);
    assert_eq!(snapshot.version(), 7);
    assert_eq!(
        collect_from(&snapshot, OutputPoint::zero()),
        b"alpha\nbeta\n".to_vec()
    );
}

#[test]
fn test_empty_text() {
    let wrapper = wrap_from_scratch("", 8, 3);
    assert_eq!(collect_from(&wrapper.snapshot, OutputPoint::zero()), Vec::<u8>::new());
    assert_eq!(wrapper.snapshot.version(), 3);
}

#[test]
fn test_no_trailing_line_feed() {
    let wrapper = wrap_from_scratch("one two three", 7, 1);
    assert_eq!(
        collect_from(&wrapper.snapshot, OutputPoint::zero()),
        b"one two \nthree".to_vec()
    );
}

#[test]
fn test_empty_edit_batch_is_noop() {
    let text = "one two three four five six\n";
    let mut wrapper = wrap_from_scratch(text, 11, 1);
    let before = collect_from(&wrapper.snapshot, OutputPoint::zero());
    let version_before = wrapper.snapshot.version();
    let newer = make_input(text, 2);
    wrapper.sync(newer, vec![]);
    assert_eq!(collect_from(&wrapper.snapshot, OutputPoint::zero()), before);
    assert_eq!(wrapper.snapshot.version(), version_before);
}

#[test]
fn test_incremental_insert_matches_fresh_wrap() {
    // Insert a character in the middle of an already-wrapped line; only
    // that line's row range is named by the edit.
    let old_text = "aa bb cc dd\nsecond line\nthird one\n";
    let new_text = "aa bbx bb cc dd\nsecond line\nthird one\n";
    let mut wrapper = wrap_from_scratch(old_text, 6, 1);
    let new_input = make_input(new_text, 2);
    let edit = Edit {
        old_lines_start: InputPoint::new(0, 5),
        old_lines_end: InputPoint::new(0, 5),
        new_lines_start: InputPoint::new(0, 5),
        new_lines_end: InputPoint::new(0, 9),
    };
    wrapper.sync(new_input, vec![edit]);
    assert_eq!(wrapper.snapshot.version(), 2);
    let fresh = wrap_from_scratch(new_text, 6, 2);
    assert_eq!(
        collect_from(&wrapper.snapshot, OutputPoint::zero()),
        collect_from(&fresh.snapshot, OutputPoint::zero())
    );
}

#[test]
fn test_pure_deletion_reuses_suffix() {
    // Deleting a whole row emits no re-wrap transforms for the removed
    // span; the rows after it are reused.
    let old_text = "one\ntwo\nthree four five\n";
    let new_text = "one\nthree four five\n";
    let mut wrapper = wrap_from_scratch(old_text, 6, 1);
    let new_input = make_input(new_text, 2);
    let edit = Edit {
        old_lines_start: InputPoint::new(1, 0),
        old_lines_end: InputPoint::new(2, 0),
        new_lines_start: InputPoint::new(1, 0),
        new_lines_end: InputPoint::new(1, 0),
    };
    wrapper.sync(new_input, vec![edit]);
    let fresh = wrap_from_scratch(new_text, 6, 2);
    assert_eq!(
        collect_from(&wrapper.snapshot, OutputPoint::zero()),
        collect_from(&fresh.snapshot, OutputPoint::zero())
    );
    assert_eq!(
        collect_from(&wrapper.snapshot, OutputPoint::zero()),
        b"one\nthree \nfour \nfive\n".to_vec()
    );
}

#[test]
fn test_two_edits_in_one_batch() {
    let old_text = "aaa bbb\nkeep me\nccc ddd\nlast\n";
    let new_text = "aaa x bbb\nkeep me\nccc y ddd\nlast\n";
    let mut wrapper = wrap_from_scratch(old_text, 5, 1);
    let new_input = make_input(new_text, 2);
    let edits = vec![
        Edit {
            old_lines_start: InputPoint::new(0, 4),
            old_lines_end: InputPoint::new(0, 4),
            new_lines_start: InputPoint::new(0, 4),
            new_lines_end: InputPoint::new(0, 6),
        },
        Edit {
            old_lines_start: InputPoint::new(2, 4),
            old_lines_end: InputPoint::new(2, 4),
            new_lines_start: InputPoint::new(2, 4),
            new_lines_end: InputPoint::new(2, 6),
        },
    ];
    wrapper.sync(new_input, edits);
    let fresh = wrap_from_scratch(new_text, 5, 2);
    assert_eq!(
        collect_from(&wrapper.snapshot, OutputPoint::zero()),
        collect_from(&fresh.snapshot, OutputPoint::zero())
    );
}

#[test]
fn test_versions_follow_input() {
    let mut wrapper = wrap_from_scratch("a b c\n", 3, 1);
    assert_eq!(wrapper.snapshot.version(), 1);
    let second = make_input("a b c d\n", 5);
    let edit = Edit {
        old_lines_start: InputPoint::new(0, 5),
        old_lines_end: InputPoint::new(0, 5),
        new_lines_start: InputPoint::new(0, 5),
        new_lines_end: InputPoint::new(0, 7),
    };
    wrapper.sync(second, vec![edit]);
    assert_eq!(wrapper.snapshot.version(), 5);
}

#[test]
fn test_text_summary_values() {
    let input = make_input("ab\ncdef\ng", 1);
    let summary = input.text_summary();
    assert_eq!(summary.lines.row, 2);
    assert_eq!(summary.lines.column, 1);
    assert_eq!(summary.first_line_chars, 2);
    assert_eq!(summary.last_line_chars, 1);
    assert_eq!(summary.longest_row, 1);
    assert_eq!(summary.longest_row_chars, 4);
    // Additivity on row ranges: the parts' aggregates join into the whole.
    let head = input.text_summary_for_rows(0, 1);
    let tail = input.text_summary_for_rows(1, 3);
    assert_eq!(head.lines.row, 1);
    assert_eq!(head.last_line_chars, 0);
    assert_eq!(tail.lines.row, 1);
    assert_eq!(tail.lines.column, 1);
    assert_eq!(head.lines.row + tail.lines.row, summary.lines.row);
    assert_eq!(tail.lines.column, summary.lines.column);
    assert_eq!(head.first_line_chars, summary.first_line_chars);
}

#[test]
fn test_chunks_at_row_boundary() {
    let wrapper = wrap_from_scratch("one two three four five six\n", 11, 1);
    // Exactly at the start of the second output row.
    assert_eq!(
        collect_from(&wrapper.snapshot, OutputPoint::new(1, 0)),
        b"three four \nfive six\n".to_vec()
    );
    // Exactly at the end of the document: nothing remains.
    assert_eq!(
        collect_from(&wrapper.snapshot, OutputPoint::new(3, 0)),
        Vec::<u8>::new()
    );
}

#[test]
fn test_output_points() {
    let mut p = OutputPoint::new(2, 7);
    assert_eq!(p.row(), 2);
    assert_eq!(p.column(), 7);
    *p.row_mut() = 3;
    *p.column_mut() = 1;
    assert_eq!(p.row(), 3);
    assert_eq!(p.column(), 1);
    assert_eq!(OutputPoint::zero().row(), 0);
    let q = InputPoint::new(4, 2);
    assert_eq!(q.row(), 4);
    assert_eq!(q.column(), 2);
}

#[test]
fn test_edit_on_unwrapped_snapshot_fills_gaps() {
    // A snapshot fresh from `Snapshot::new` covers the whole text with a
    // single transform; an edit in the middle must split it: the rows
    // before and after the edit stay unwrapped, only the edited row is
    // wrapped.
    let old_text = "aaa bbb ccc
mid
xxx yyy zzz
";
    let new_text = "aaa bbb ccc
mid word more
xxx yyy zzz
";
    let input = make_input(old_text, 1);
    let snapshot = Snapshot::new(input);
    let mut wrapper = BackgroundWrapper::new(snapshot, 6);
    let new_input = make_input(new_text, 2);
    let edit = Edit {
        old_lines_start: InputPoint::new(1, 3),
        old_lines_end: InputPoint::new(1, 3),
        new_lines_start: InputPoint::new(1, 3),
        new_lines_end: InputPoint::new(1, 14),
    };
    wrapper.sync(new_input, vec![edit]);
    // Row 1 wraps at width 6: "mid word more\n" breaks before "word"
    // and "more"; rows 0 and 2 keep their old, unwrapped layout.
    assert_eq!(
        collect_from(&wrapper.snapshot, OutputPoint::zero()),
        b"aaa bbb ccc\nmid \nword \nmore\nxxx yyy zzz\n".to_vec()
    );
}

#[test]
fn test_multibyte_columns_count_bytes() {
    // Columns are byte counts, so two-byte characters advance by two.
    let text = "h\u{e9}llo w\u{f6}rld\n";
    let wrapper = wrap_from_scratch(text, 7, 1);
    assert_eq!(
        collect_from(&wrapper.snapshot, OutputPoint::zero()),
        "h\u{e9}llo \nw\u{f6}rld\n".as_bytes().to_vec()
    );
    // Round trip from the zero position keeps every byte.
    let plain = wrap_from_scratch(text, 100, 1);
    assert_eq!(
        collect_from(&plain.snapshot, OutputPoint::zero()),
        text.as_bytes().to_vec()
    );
}

#[test]
fn test_adjacent_edits() {
    let old_text = "one\ntwo\nthree\n";
    let new_text = "one more\ntwo more\nthree\n";
    let mut wrapper = wrap_from_scratch(old_text, 20, 1);
    let new_input = make_input(new_text, 2);
    let edits = vec![
        Edit {
            old_lines_start: InputPoint::new(0, 3),
            old_lines_end: InputPoint::new(0, 3),
            new_lines_start: InputPoint::new(0, 3),
            new_lines_end: InputPoint::new(0, 8),
        },
        Edit {
            old_lines_start: InputPoint::new(1, 3),
            old_lines_end: InputPoint::new(1, 3),
            new_lines_start: InputPoint::new(1, 3),
            new_lines_end: InputPoint::new(1, 8),
        },
    ];
    wrapper.sync(new_input, edits);
    assert_eq!(
        collect_from(&wrapper.snapshot, OutputPoint::zero()),
        new_text.as_bytes().to_vec()
    );
}

#[test]
fn test_point_arithmetic() {
    let a = Point::new(1, 4);
    let b = Point::new(0, 3);
    let c = a.plus(b);
    assert_eq!((c.row, c.column), (1, 7));
    let d = a.plus(Point::new(2, 5));
    assert_eq!((d.row, d.column), (3, 5));
    let e = d.minus(a);
    assert_eq!((e.row, e.column), (2, 5));
    assert!(b.lt(a) && b.le(a) && a.le(a));
    // A wrap point consumes no input and emits exactly one output row.
    let nl = Transform::newline().summary();
    assert_eq!((nl.input.lines.row, nl.input.lines.column), (0, 0));
    assert_eq!((nl.output.lines.row, nl.output.lines.column), (1, 0));
    let z = TransformSummary::zero();
    assert_eq!(z.input.lines.row, 0);
}

#[test]
fn test_chunks_at_mid_positions() {
    let wrapper = wrap_from_scratch("one two three four five six\n", 11, 1);
    // Inside the second output row.
    assert_eq!(
        collect_from(&wrapper.snapshot, OutputPoint::new(1, 6)),
        b"four \nfive six\n".to_vec()
    );
    // At the exact end of the first output row: the synthetic break is
    // yielded before the next row's text.
    assert_eq!(
        collect_from(&wrapper.snapshot, OutputPoint::new(0, 8)),
        b"\nthree four \nfive six\n".to_vec()
    );
    // Inside the last output row.
    assert_eq!(
        collect_from(&wrapper.snapshot, OutputPoint::new(2, 5)),
        b"six\n".to_vec()
    );
}
