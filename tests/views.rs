use codespan_reporting::diagnostic::{Diagnostic, Label, Severity};
use codespan_reporting::files::SimpleFiles;
use codespan_reporting::views::{
    count_digits, group_labels, prefix_is_blank, Entry, InvalidLabel, Locus, Mark, RichDiagnostic,
    ShortDiagnostic,
};

fn locus(origin: &str, line_number: usize, column_number: usize) -> Locus {
    Locus { origin: origin.to_string(), line_number, column_number }
}

fn source_line(outer_padding: usize, line_number: usize, source: &str, mark: Mark) -> Entry {
    Entry::SourceLine {
        outer_padding,
        line_number,
        source: source.to_string(),
        severity: Some(Severity::Error),
        mark,
    }
}

#[test]
fn digits_of_numbers() {
    assert_eq!(count_digits(0), 0);
    assert_eq!(count_digits(9), 1);
    assert_eq!(count_digits(10), 2);
    assert_eq!(count_digits(12345), 5);
    assert_eq!(count_digits(usize::MAX), usize::MAX.to_string().len());
}

#[test]
fn grouping_orders_files_and_labels() {
    let labels = vec![
        Label::primary(0, 5..8),
        Label::primary(0, 1..3),
        Label::primary(1, 0..1),
    ];
    let groups = group_labels(&labels);
    assert_eq!(groups.len(), 2);
    assert_eq!(groups[0].file_id, 0);
    assert_eq!(groups[0].labels, vec![1, 0]);
    assert_eq!(groups[1].file_id, 1);
    assert_eq!(groups[1].labels, vec![2]);
}

#[test]
fn grouping_keeps_first_seen_file_order_and_ties() {
    let labels = vec![
        Label::primary(7, 4..9),
        Label::primary(3, 0..1),
        Label::secondary(7, 4..6),
        Label::secondary(7, 4..6),
        Label::primary(3, 0..0),
    ];
    let groups = group_labels(&labels);
    assert_eq!(groups.len(), 2);
    assert_eq!(groups[0].file_id, 7);
    assert_eq!(groups[0].labels, vec![2, 3, 0]);
    assert_eq!(groups[1].file_id, 3);
    assert_eq!(groups[1].labels, vec![4, 1]);
    assert!(group_labels(&Vec::new()).is_empty());
}

#[test]
fn single_line_label() {
    let mut files = SimpleFiles::new();
    let id = files.add("test".to_string(), "foo\nbar\n");
    let diagnostic = Diagnostic::new(Severity::Error)
        .with_message("bad")
        .with_label(Label::primary(id, 4..7).with_message("oops"));
    let entries = RichDiagnostic::new(&diagnostic).entries(&files).unwrap();
    assert_eq!(
        entries,
        vec![
            Entry::Header {
                locus: None,
                severity: Severity::Error,
                code: None,
                message: "bad".to_string()
            },
            Entry::Empty,
            Entry::SourceStart { outer_padding: 1, locus: locus("test", 2, 1) },
            Entry::SourceEmpty { outer_padding: 1 },
            source_line(1, 2, "bar\n", Mark::Single(0..3, "oops".to_string())),
            Entry::SourceEmpty { outer_padding: 1 },
            Entry::Empty,
        ]
    );
}

const MULTI: &str = "fn main() {\n    let x = (1 +\n        2 +\n        3);\n}\n";

#[test]
fn multi_line_label_after_code() {
    let mut files = SimpleFiles::new();
    let id = files.add("main.rs".to_string(), MULTI);
    // From `(1 +` on line 2 to the end of `3)` on line 4.
    let start = MULTI.find("(1").unwrap();
    let end = MULTI.find("3)").unwrap() + 2;
    let diagnostic = Diagnostic::new(Severity::Error)
        .with_code("E0308")
        .with_message("mismatched types")
        .with_label(Label::primary(id, start..end).with_message("expected `u8`"))
        .with_note("found `i32`");
    let entries = RichDiagnostic::new(&diagnostic).entries(&files).unwrap();
    assert_eq!(
        entries,
        vec![
            Entry::Header {
                locus: None,
                severity: Severity::Error,
                code: Some("E0308".to_string()),
                message: "mismatched types".to_string()
            },
            Entry::Empty,
            Entry::SourceStart { outer_padding: 1, locus: locus("main.rs", 2, 13) },
            Entry::SourceEmpty { outer_padding: 1 },
            source_line(1, 2, "    let x = (1 +\n", Mark::MultiTop(12)),
            source_line(1, 3, "        2 +\n", Mark::MultiLeft),
            source_line(1, 4, "        3);\n", Mark::MultiBottom(10, "expected `u8`".to_string())),
            Entry::SourceEmpty { outer_padding: 1 },
            Entry::SourceNote { outer_padding: 1, message: "found `i32`".to_string() },
            Entry::Empty,
        ]
    );
}

#[test]
fn multi_line_label_after_blank_prefix() {
    let mut files = SimpleFiles::new();
    let id = files.add("main.rs".to_string(), MULTI);
    // From `let` on line 2, preceded only by spaces, to line 4.
    let start = MULTI.find("let").unwrap();
    let end = MULTI.find("3)").unwrap() + 1;
    let diagnostic = Diagnostic::new(Severity::Error)
        .with_label(Label::primary(id, start..end).with_message("here"));
    let entries = RichDiagnostic::new(&diagnostic).entries(&files).unwrap();
    assert_eq!(entries[4], source_line(1, 2, "    let x = (1 +\n", Mark::MultiTopLeft));
    assert_eq!(entries[5], source_line(1, 3, "        2 +\n", Mark::MultiLeft));
    assert_eq!(entries[6], source_line(1, 4, "        3);\n", Mark::MultiBottom(9, "here".to_string())));
}

#[test]
fn blank_prefix_counts_unicode_whitespace() {
    assert!(prefix_is_blank("\u{3000}\tx", 2));
    assert!(!prefix_is_blank("\u{3000}\tx", 3));
    assert!(prefix_is_blank("", 4));
    assert!(!prefix_is_blank("a", 1));

    let source = "a\n\u{3000} b\nc\n";
    let mut files = SimpleFiles::new();
    let id = files.add("w".to_string(), source);
    let start = source.find('b').unwrap();
    let diagnostic = Diagnostic::new(Severity::Warning)
        .with_label(Label::secondary(id, start..source.len() - 1));
    let entries = RichDiagnostic::new(&diagnostic).entries(&files).unwrap();
    assert_eq!(
        entries[4],
        Entry::SourceLine {
            outer_padding: 1,
            line_number: 2,
            source: "\u{3000} b\n".to_string(),
            severity: None,
            mark: Mark::MultiTopLeft,
        }
    );
}

#[test]
fn rendering_is_deterministic() {
    let mut files = SimpleFiles::new();
    let id = files.add("main.rs".to_string(), MULTI);
    let diagnostic = Diagnostic::new(Severity::Bug)
        .with_label(Label::primary(id, 3..20))
        .with_label(Label::secondary(id, 0..2));
    let first = RichDiagnostic::new(&diagnostic).entries(&files).unwrap();
    let second = RichDiagnostic::new(&diagnostic).entries(&files).unwrap();
    assert_eq!(first, second);
    assert_eq!(first[3], Entry::SourceEmpty { outer_padding: 1 });
    assert_eq!(first[5], Entry::SourceBreak { outer_padding: 1 });
}

#[test]
fn padding_follows_largest_end_line() {
    let source = "0\n1\n2\n3\n4\n5\n6\n7\n8\n9\n10\n";
    let mut files = SimpleFiles::new();
    let a = files.add("a".to_string(), "x\n");
    let b = files.add("b".to_string(), source);
    let end = source.find("9").unwrap() + 1;
    let diagnostic = Diagnostic::new(Severity::Note)
        .with_label(Label::primary(a, 0..1))
        .with_label(Label::primary(b, end - 1..end + 1))
        .with_note("n");
    let entries = RichDiagnostic::new(&diagnostic).entries(&files).unwrap();
    assert_eq!(entries[2], Entry::SourceStart { outer_padding: 2, locus: locus("a", 1, 1) });
    for entry in &entries {
        match entry {
            Entry::SourceStart { outer_padding, .. }
            | Entry::SourceEmpty { outer_padding }
            | Entry::SourceBreak { outer_padding }
            | Entry::SourceLine { outer_padding, .. }
            | Entry::SourceNote { outer_padding, .. } => assert_eq!(*outer_padding, 2),
            Entry::Header { .. } | Entry::Empty => {}
        }
    }
}

#[test]
fn no_labels_gives_header_notes_and_empty() {
    let files: SimpleFiles<String> = SimpleFiles::new();
    let diagnostic = Diagnostic::new(Severity::Help).with_message("m").with_note("a").with_note("b");
    let entries = RichDiagnostic::new(&diagnostic).entries(&files).unwrap();
    assert_eq!(entries.len(), 4);
    assert_eq!(entries[1], Entry::SourceNote { outer_padding: 0, message: "a".to_string() });
    assert_eq!(entries[2], Entry::SourceNote { outer_padding: 0, message: "b".to_string() });
    assert_eq!(entries[3], Entry::Empty);
}

#[test]
fn unresolvable_labels_are_reported() {
    let mut files = SimpleFiles::new();
    let id = files.add("t".to_string(), "abc");
    let unknown_file = Diagnostic::new(Severity::Error)
        .with_label(Label::primary(id, 0..1))
        .with_label(Label::secondary(id + 1, 0..1));
    assert_eq!(
        RichDiagnostic::new(&unknown_file).entries(&files),
        Err(InvalidLabel { index: 1 })
    );
    let past_end = Diagnostic::new(Severity::Error).with_label(Label::primary(id, 2..4));
    assert_eq!(RichDiagnostic::new(&past_end).entries(&files), Err(InvalidLabel { index: 0 }));
    #[allow(clippy::reversed_empty_ranges)]
    let reversed = Diagnostic::new(Severity::Error).with_label(Label::primary(id, 2..1));
    assert_eq!(RichDiagnostic::new(&reversed).entries(&files), Err(InvalidLabel { index: 0 }));
    let at_end = Diagnostic::new(Severity::Error).with_label(Label::primary(id, 3..3));
    assert!(RichDiagnostic::new(&at_end).entries(&files).is_ok());
}

#[test]
fn short_form_headers() {
    let mut files = SimpleFiles::new();
    let id = files.add("test".to_string(), "foo\nbar\n");
    let diagnostic = Diagnostic::new(Severity::Warning)
        .with_message("w")
        .with_label(Label::secondary(id, 0..1))
        .with_label(Label::primary(id, 5..6))
        .with_label(Label::secondary(id + 9, 0..1));
    let entries = ShortDiagnostic::new(&diagnostic).entries(&files).unwrap();
    assert_eq!(
        entries,
        vec![Entry::Header {
            locus: Some(locus("test", 2, 2)),
            severity: Severity::Warning,
            code: None,
            message: "w".to_string()
        }]
    );

    let unlocated = Diagnostic::new(Severity::Error).with_label(Label::secondary(id, 0..1));
    let entries = ShortDiagnostic::new(&unlocated).entries(&files).unwrap();
    assert_eq!(
        entries,
        vec![Entry::Header {
            locus: None,
            severity: Severity::Error,
            code: None,
            message: String::new()
        }]
    );

    let bad = Diagnostic::new(Severity::Error).with_label(Label::primary(id, 0..99));
    assert_eq!(ShortDiagnostic::new(&bad).entries(&files), Err(InvalidLabel { index: 0 }));
}
