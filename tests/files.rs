use codespan_reporting::files;
use codespan_reporting::files::{column_index, column_number, Files, SimpleFile, SimpleFiles};

const TEST_SOURCE: &str = "foo\nbar\r\n\nbaz";

#[test]
fn line_starts() {
    let file = SimpleFile::new("test", TEST_SOURCE);

    assert_eq!(
        *file.line_starts(),
        [
            0,  // "foo\n"
            4,  // "bar\r\n"
            9,  // ""
            10, // "baz"
        ],
    );
}

#[test]
fn line_span_sources() {
    let file = SimpleFile::new("test", TEST_SOURCE);

    let line_sources = (0..4)
        .map(|line| {
            let line_range = file.line_range(line).unwrap();
            &file.source()[line_range]
        })
        .collect::<Vec<_>>();

    assert_eq!(line_sources, ["foo\n", "bar\r\n", "\n", "baz"]);
}

#[test]
fn free_line_starts_of_text() {
    assert_eq!(files::line_starts(TEST_SOURCE), vec![0, 4, 9, 10]);
    assert_eq!(files::line_starts(""), vec![0]);
    assert_eq!(files::line_starts("a\n"), vec![0, 2]);
}

#[test]
fn column_index_unicode() {
    let line_start = 2;
    let line_source = "🗻∈🌏";
    assert_eq!(line_source.len(), 11);
    assert_eq!(column_index(line_source, line_start, 0), 0);
    assert_eq!(column_index(line_source, line_start, 2), 0);
    assert_eq!(column_index(line_source, line_start, 3), 0);
    assert_eq!(column_index(line_source, line_start, 6), 1);
    assert_eq!(column_index(line_source, line_start, 10), 2);
    assert_eq!(column_index(line_source, line_start, 13), 3);
    assert_eq!(column_index(line_source, line_start, 100), 3);
}

#[test]
fn column_number_unicode() {
    let line_start = 2;
    let line_source = "🗻∈🌏";
    assert_eq!(column_number(line_source, line_start, 0), 1);
    assert_eq!(column_number(line_source, line_start, line_start), 1);
    assert_eq!(column_number(line_source, line_start, line_start + 1), 1);
    assert_eq!(column_number(line_source, line_start, line_start + 4), 2);
    assert_eq!(column_number(line_source, line_start, line_start + 8), 3);
    assert_eq!(column_number(line_source, line_start, line_start + line_source.len()), 4);
}

#[test]
fn column_index_is_monotonic() {
    let line = "a∈b🌏c";
    let mut previous = column_index(line, 5, 5);
    assert_eq!(previous, 0);
    for b in 5..(5 + line.len() + 3) {
        let c = column_index(line, 5, b);
        assert!(c >= previous);
        previous = c;
    }
    assert_eq!(previous, 5);
}

#[test]
fn line_index_boundaries() {
    let file = SimpleFile::new("test", "foo\nbar\n");
    assert_eq!(file.line_index(0), Some(0));
    assert_eq!(file.line_index(3), Some(0));
    assert_eq!(file.line_index(4), Some(1));
    assert_eq!(file.line_index(7), Some(1));
    assert_eq!(file.line_index(8), Some(2));
    assert_eq!(file.line_index(9), None);

    let file = SimpleFile::new("test", "foo\nbar");
    assert_eq!(file.line_index(7), Some(1));
}

#[test]
fn every_offset_lies_in_its_line() {
    let file = SimpleFile::new("test", TEST_SOURCE);
    let len = TEST_SOURCE.len();
    for b in 0..=len {
        let k = file.line_index(b).unwrap();
        let range = file.line_range(k).unwrap();
        assert!(range.start <= b);
        assert!(b < range.end || (b == len && k == file.line_starts().len() - 1));
    }
}

#[test]
fn line_lookup() {
    let file = SimpleFile::new("test", TEST_SOURCE);
    let line = file.line(1).unwrap();
    assert_eq!(line.number, 2);
    assert_eq!(line.range, 4..9);
    let last = file.line(3).unwrap();
    assert_eq!(last.range, 10..13);
    assert!(file.line(4).is_none());
    assert_eq!(file.line_start(4), Some(13));
    assert_eq!(file.line_start(5), None);
    assert_eq!(file.line_source(1), Some("bar\r\n"));
    assert_eq!(file.line_source(4), None);
}

#[test]
fn simple_files_handles() {
    let mut db = SimpleFiles::new();
    let a = db.add("a.rs".to_string(), "fn a() {}\n");
    let b = db.add("b.rs".to_string(), "fn b() {}\n");
    assert_eq!(a, 0);
    assert_eq!(b, 1);
    assert_eq!(db.get(b).unwrap().origin(), "b.rs");
    assert_eq!(db.get(a).unwrap().source(), "fn a() {}\n");
    assert!(db.get(2).is_none());
}

#[test]
fn files_table_lookups() {
    let mut db = SimpleFiles::new();
    let id = db.add("lib.rs".to_string(), TEST_SOURCE);
    assert_eq!(Files::origin(&db, id), Some("lib.rs".to_string()));
    assert_eq!(Files::origin(&db, id + 1), None);
    assert_eq!(Files::source(&db, id), Some(TEST_SOURCE.to_string()));
    assert_eq!(Files::line_index(&db, id, 5), Some(1));
    assert_eq!(Files::line_index(&db, id, 13), Some(3));
    assert_eq!(Files::line_index(&db, id, 14), None);
    assert_eq!(Files::line_index(&db, id + 1, 0), None);
    let line = Files::line(&db, id, 2).unwrap();
    assert_eq!((line.number, line.range), (3, 9..10));
    assert!(Files::line(&db, id, 4).is_none());
    assert_eq!(Files::line_source(&db, id, 3), Some("baz".to_string()));
    assert_eq!(Files::line_source(&db, id, 0), Some("foo\n".to_string()));
}
