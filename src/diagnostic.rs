//! Diagnostic data: severities, labels and the diagnostic itself.

use std::ops::Range;
use vstd::prelude::*;

verus! {

/// How serious a diagnostic is.
#[derive(Clone, Copy, Debug, PartialEq, Eq, Structural)]
pub enum Severity {
    /// An unexpected bug.
    Bug,
    /// An error.
    Error,
    /// A warning.
    Warning,
    /// A note.
    Note,
    /// A help message.
    Help,
}

/// Whether a label marks the cause of a diagnostic or something related to it.
#[derive(Clone, Copy, Debug, PartialEq, Eq, Structural)]
pub enum LabelStyle {
    /// Labels that describe the primary cause of a diagnostic.
    Primary,
    /// Labels that provide additional context for a diagnostic.
    Secondary,
}

/// A byte range in a file, with a message anchoring the diagnostic to it.
#[derive(Debug, PartialEq, Eq)]
pub struct Label {
    /// The style of the label.
    pub style: LabelStyle,
    /// The file that the label refers to.
    pub file_id: usize,
    /// The half-open byte range of the label in the file's source.
    pub range: Range<usize>,
    /// A message describing the labelled code.
    pub message: String,
}

impl Label {
    /// Create a new label with an empty message.
    pub fn new(style: LabelStyle, file_id: usize, range: Range<usize>) -> (r: Label)
        ensures
            r.style == style,
            r.file_id == file_id,
            r.range == range,
            r.message@ == Seq::<char>::empty(),
    {
        Label { style, file_id, range, message: String::new() }
    }

    /// Create a new primary label.
    pub fn primary(file_id: usize, range: Range<usize>) -> (r: Label)
        ensures
            r.style == LabelStyle::Primary,
            r.file_id == file_id,
            r.range == range,
            r.message@ == Seq::<char>::empty(),
    {
        Label::new(LabelStyle::Primary, file_id, range)
    }

    /// Create a new secondary label.
    pub fn secondary(file_id: usize, range: Range<usize>) -> (r: Label)
        ensures
            r.style == LabelStyle::Secondary,
            r.file_id == file_id,
            r.range == range,
            r.message@ == Seq::<char>::empty(),
    {
        Label::new(LabelStyle::Secondary, file_id, range)
    }

    /// Set the message of the label.
    pub fn with_message(self, message: &str) -> (r: Label)
        ensures
            r.style == self.style,
            r.file_id == self.file_id,
            r.range == self.range,
            r.message@ == message@,
    {
        Label { message: message.to_owned(), ..self }
    }
}

/// A reported issue: a severity, an optional code, a message, the labels that
/// anchor it in source files, and free-text notes.
#[derive(Debug, PartialEq, Eq)]
pub struct Diagnostic {
    /// The overall severity of the diagnostic.
    pub severity: Severity,
    /// An optional code that identifies this diagnostic.
    pub code: Option<String>,
    /// The main message associated with this diagnostic.
    pub message: String,
    /// Source labels that describe the cause of the diagnostic.
    pub labels: Vec<Label>,
    /// Notes that are associated with the primary cause of the diagnostic.
    pub notes: Vec<String>,
}

impl Diagnostic {
    /// Create a new diagnostic with no code, message, labels or notes.
    pub fn new(severity: Severity) -> (r: Diagnostic)
        ensures
            r.severity == severity,
            r.code is None,
            r.message@ == Seq::<char>::empty(),
            r.labels@.len() == 0,
            r.notes@.len() == 0,
    {
        Diagnostic {
            severity,
            code: None,
            message: String::new(),
            labels: Vec::new(),
            notes: Vec::new(),
        }
    }

    /// Set the error code of the diagnostic.
    pub fn with_code(self, code: &str) -> (r: Diagnostic)
        ensures
            r.severity == self.severity,
            r.code is Some && r.code->0@ == code@,
            r.message == self.message,
            r.labels == self.labels,
            r.notes == self.notes,
    {
        Diagnostic { code: Some(code.to_owned()), ..self }
    }

    /// Set the message of the diagnostic.
    pub fn with_message(self, message: &str) -> (r: Diagnostic)
        ensures
            r.severity == self.severity,
            r.code == self.code,
            r.message@ == message@,
            r.labels == self.labels,
            r.notes == self.notes,
    {
        Diagnostic { message: message.to_owned(), ..self }
    }

    /// Add a label to the diagnostic.
    pub fn with_label(self, label: Label) -> (r: Diagnostic)
        ensures
            r.severity == self.severity,
            r.code == self.code,
            r.message == self.message,
            r.labels@ == self.labels@.push(label),
            r.notes == self.notes,
    {
        let mut labels = self.labels;
        labels.push(label);
        Diagnostic { labels, ..self }
    }

    /// Add a note to the diagnostic.
    pub fn with_note(self, note: &str) -> (r: Diagnostic)
        ensures
            r.severity == self.severity,
            r.code == self.code,
            r.message == self.message,
            r.labels == self.labels,
            r.notes@.len() == self.notes@.len() + 1,
            r.notes@.take(self.notes@.len() as int) == self.notes@,
            r.notes@.last()@ == note@,
    {
        let mut notes = self.notes;
        notes.push(note.to_owned());
        proof {
            assert(notes@.take(self.notes@.len() as int) =~= self.notes@);
        }
        Diagnostic { notes, ..self }
    }
}

} // verus!
