//! Layout of a diagnostic as a sequence of render entries.

use std::ops::Range;
use vstd::prelude::*;
use vstd::string::*;
use vstd::utf8::*;
use crate::diagnostic::{Diagnostic, Label, LabelStyle, Severity};
use crate::files::{
    FileModel,
    Files,
    column_index,
    column_number,
    column_of,
    is_line_of,
    lemma_line_starts_bounds,
};

verus! {

/// Count of decimal digits of `n` (zero has none).
pub open spec fn digit_count(n: nat) -> nat
    decreases n,
{
    if n == 0 {
        0
    } else {
        1 + digit_count(n / 10)
    }
}

proof fn lemma_digit_count_bound(n: nat)
    ensures
        digit_count(n) <= n,
    decreases n,
{
    if n > 0 {
        lemma_digit_count_bound(n / 10);
    }
}

/// Count the number of decimal digits in `n`.
pub fn count_digits(n: usize) -> (r: usize)
    ensures
        r == digit_count(n as nat),
{
    let mut n = n;
    let ghost n0 = n;
    let mut count: usize = 0;
    proof {
        lemma_digit_count_bound(n0 as nat);
    }
    while n != 0
        invariant
            count + digit_count(n as nat) == digit_count(n0 as nat),
            digit_count(n0 as nat) <= n0,
        decreases n,
    {
        count += 1;
        n /= 10;
    }
    count
}

/// Label `a` comes no later than label `b` in reading order: by start, then by end.
pub open spec fn key_le(labels: Seq<Label>, a: usize, b: usize) -> bool {
    labels[a as int].range.start < labels[b as int].range.start || (labels[a as int].range.start
        == labels[b as int].range.start && labels[a as int].range.end
        <= labels[b as int].range.end)
}

/// Insert label index `x` into `g`, after every label of `g` that does not come
/// after it, so that equal labels keep their order of insertion.
pub open spec fn sorted_insert(labels: Seq<Label>, g: Seq<usize>, x: usize) -> Seq<usize>
    decreases g.len(),
{
    if g.len() == 0 {
        seq![x]
    } else if key_le(labels, g.last(), x) {
        g.push(x)
    } else {
        sorted_insert(labels, g.drop_last(), x).push(g.last())
    }
}

/// The index of the first group for file `file_id`, if any.
pub open spec fn find_group(groups: Seq<(usize, Seq<usize>)>, file_id: usize, from: int) -> int
    decreases groups.len() - from,
{
    if from < 0 || from >= groups.len() {
        -1
    } else if groups[from].0 == file_id {
        from
    } else {
        find_group(groups, file_id, from + 1)
    }
}

/// The labels among the first `n`, grouped by file: files in the order their
/// first label appears, and each file's label indices in reading order.
pub open spec fn groups_of(labels: Seq<Label>, n: int) -> Seq<(usize, Seq<usize>)>
    decreases n,
{
    if n <= 0 {
        seq![]
    } else {
        let prev = groups_of(labels, n - 1);
        let f = labels[n - 1].file_id;
        let j = find_group(prev, f, 0);
        if j < 0 {
            prev.push((f, seq![(n - 1) as usize]))
        } else {
            prev.update(j, (f, sorted_insert(labels, prev[j].1, (n - 1) as usize)))
        }
    }
}

/// The labels of one file, as indices into the diagnostic's labels.
#[derive(Debug, PartialEq, Eq)]
pub struct FileLabels {
    /// The file the labels refer to.
    pub file_id: usize,
    /// The indices of the labels, in reading order.
    pub labels: Vec<usize>,
}

/// The groups as plain values.
pub open spec fn groups_view(groups: Seq<FileLabels>) -> Seq<(usize, Seq<usize>)> {
    groups.map_values(|g: FileLabels| (g.file_id, g.labels@))
}

proof fn lemma_sorted_insert_at(labels: Seq<Label>, g: Seq<usize>, x: usize, p: int)
    requires
        0 <= p <= g.len(),
        p == 0 || key_le(labels, g[p - 1], x),
        forall|q: int| p <= q < g.len() ==> !key_le(labels, #[trigger] g[q], x),
    ensures
        sorted_insert(labels, g, x) == g.take(p).push(x) + g.skip(p),
    decreases g.len(),
{
    if g.len() == 0 {
        assert(g.take(p).push(x) + g.skip(p) =~= seq![x]);
    } else if p == g.len() {
        assert(g.take(p).push(x) + g.skip(p) =~= g.push(x));
    } else {
        assert(!key_le(labels, g[g.len() - 1], x));
        lemma_sorted_insert_at(labels, g.drop_last(), x, p);
        assert(g.drop_last().take(p).push(x) + g.drop_last().skip(p) + seq![g.last()]
            =~= g.take(p).push(x) + g.skip(p));
    }
}

fn label_le(labels: &Vec<Label>, a: usize, b: usize) -> (r: bool)
    requires
        a < labels@.len(),
        b < labels@.len(),
    ensures
        r == key_le(labels@, a, b),
{
    let la = &labels[a];
    let lb = &labels[b];
    la.range.start < lb.range.start || (la.range.start == lb.range.start && la.range.end
        <= lb.range.end)
}

/// Insert label index `x` into the ordered group `g`.
fn insert_sorted(labels: &Vec<Label>, g: &Vec<usize>, x: usize) -> (r: Vec<usize>)
    requires
        x < labels@.len(),
        forall|q: int| 0 <= q < g@.len() ==> #[trigger] g@[q] < labels@.len(),
    ensures
        r@ == sorted_insert(labels@, g@, x),
{
    let mut p = g.len();
    while p > 0 && !label_le(labels, g[p - 1], x)
        invariant
            p <= g@.len(),
            x < labels@.len(),
            forall|q: int| 0 <= q < g@.len() ==> #[trigger] g@[q] < labels@.len(),
            forall|q: int| p <= q < g@.len() ==> !key_le(labels@, #[trigger] g@[q], x),
        decreases p,
    {
        p -= 1;
    }
    let mut r: Vec<usize> = Vec::new();
    let mut i: usize = 0;
    while i < p
        invariant
            i <= p <= g@.len(),
            r@ == g@.take(i as int),
        decreases p - i,
    {
        r.push(g[i]);
        i += 1;
        assert(r@ =~= g@.take(i as int));
    }
    r.push(x);
    let ghost mid = r@;
    while i < g.len()
        invariant
            p <= i <= g@.len(),
            mid == g@.take(p as int).push(x),
            r@ == mid + g@.subrange(p as int, i as int),
        decreases g@.len() - i,
    {
        r.push(g[i]);
        i += 1;
        assert(r@ =~= mid + g@.subrange(p as int, i as int));
    }
    proof {
        lemma_sorted_insert_at(labels@, g@, x, p as int);
        assert(g@.subrange(p as int, g@.len() as int) =~= g@.skip(p as int));
    }
    r
}

/// Every label index held by a group is below `n`.
pub open spec fn indices_below(groups: Seq<(usize, Seq<usize>)>, n: int) -> bool {
    forall|j: int, q: int|
        0 <= j < groups.len() && 0 <= q < groups[j].1.len() ==> #[trigger] groups[j].1[q] < n
}

proof fn lemma_sorted_insert_members(labels: Seq<Label>, g: Seq<usize>, x: usize, n: int)
    requires
        x < n,
        forall|q: int| 0 <= q < g.len() ==> #[trigger] g[q] < n,
    ensures
        forall|q: int|
            0 <= q < sorted_insert(labels, g, x).len() ==> #[trigger] sorted_insert(
                labels,
                g,
                x,
            )[q] < n,
    decreases g.len(),
{
    let r = sorted_insert(labels, g, x);
    if g.len() == 0 {
        assert(r =~= seq![x]);
    } else if key_le(labels, g.last(), x) {
        assert(r =~= g.push(x));
        assert forall|q: int| 0 <= q < r.len() implies #[trigger] r[q] < n by {
            if q < g.len() {
                assert(r[q] == g[q]);
            }
        }
    } else {
        let d = g.drop_last();
        lemma_sorted_insert_members(labels, d, x, n);
        let s = sorted_insert(labels, d, x);
        assert(r =~= s.push(g.last()));
        assert forall|q: int| 0 <= q < r.len() implies #[trigger] r[q] < n by {
            if q < s.len() {
                assert(r[q] == s[q]);
            }
        }
    }
}

/// Group the labels by file. Files come in the order in which their first label
/// appears; within a file, labels are sorted by start and then by end, and equal
/// ones keep their order.
pub fn group_labels(labels: &Vec<Label>) -> (r: Vec<FileLabels>)
    ensures
        groups_view(r@) == groups_of(labels@, labels@.len() as int),
        indices_below(groups_view(r@), labels@.len() as int),
{
    let mut groups: Vec<FileLabels> = Vec::new();
    let mut i: usize = 0;
    proof {
        assert(groups_view(groups@) =~= groups_of(labels@, 0));
    }
    while i < labels.len()
        invariant
            i <= labels@.len(),
            groups_view(groups@) == groups_of(labels@, i as int),
            indices_below(groups_view(groups@), i as int),
        decreases labels@.len() - i,
    {
        let ghost gv = groups_view(groups@);
        let f = labels[i].file_id;
        let mut j: usize = 0;
        while j < groups.len() && groups[j].file_id != f
            invariant
                j <= groups@.len(),
                gv == groups_view(groups@),
                find_group(gv, f, 0) == find_group(gv, f, j as int),
            decreases groups@.len() - j,
        {
            j += 1;
        }
        if j == groups.len() {
            let mut members: Vec<usize> = Vec::new();
            members.push(i);
            groups.push(FileLabels { file_id: f, labels: members });
            proof {
                assert(members@ =~= seq![i]);
                assert(groups_view(groups@) =~= gv.push((f, seq![i])));
            }
        } else {
            proof {
                assert(gv[j as int].1 == groups@[j as int].labels@);
                assert forall|q: int| 0 <= q < groups@[j as int].labels@.len() implies #[trigger] groups@[j as int].labels@[q] < labels@.len() by {
                    assert(gv[j as int].1[q] < i);
                }
            }
            let members = insert_sorted(labels, &groups[j].labels, i);
            proof {
                lemma_sorted_insert_members(labels@, gv[j as int].1, i, i + 1);
            }
            groups.set(j, FileLabels { file_id: f, labels: members });
            proof {
                assert(groups_view(groups@) =~= gv.update(j as int, (f, members@)));
            }
        }
        proof {
            let gv2 = groups_view(groups@);
            assert forall|a: int, q: int|
                0 <= a < gv2.len() && 0 <= q < gv2[a].1.len() implies #[trigger] gv2[a].1[q] < i
                + 1 by {
                if a < gv.len() && a != j {
                    assert(gv2[a] == gv[a]);
                }
            }
        }
        i += 1;
    }
    groups
}

/// A resolved display position: file origin, line number and column number.
#[derive(Debug, PartialEq, Eq)]
pub struct Locus {
    /// The user-facing name of the file.
    pub origin: String,
    /// The line number, from one.
    pub line_number: usize,
    /// The column number, from one.
    pub column_number: usize,
}

/// A locus as plain values.
pub struct LocusView {
    pub origin: Seq<char>,
    pub line_number: nat,
    pub column_number: nat,
}

impl View for Locus {
    type V = LocusView;

    open spec fn view(&self) -> LocusView {
        LocusView {
            origin: self.origin@,
            line_number: self.line_number as nat,
            column_number: self.column_number as nat,
        }
    }
}

/// The connector shape drawn for one label on one source line. Offsets are
/// byte offsets from the start of the line.
#[derive(Debug, PartialEq, Eq)]
pub enum Mark {
    /// A label within one line: an underline over the range, with the message.
    Single(Range<usize>, String),
    /// The first line of a multi-line label whose line is blank before it.
    MultiTopLeft,
    /// The first line of a multi-line label: an underline up to where it starts.
    MultiTop(usize),
    /// A line strictly inside a multi-line label.
    MultiLeft,
    /// The last line of a multi-line label: an underline up to where it ends,
    /// with the message.
    MultiBottom(usize, String),
}

/// A mark as plain values.
pub enum MarkView {
    Single { start: nat, end: nat, message: Seq<char> },
    MultiTopLeft,
    MultiTop { end: nat },
    MultiLeft,
    MultiBottom { end: nat, message: Seq<char> },
}

impl View for Mark {
    type V = MarkView;

    open spec fn view(&self) -> MarkView {
        match self {
            Mark::Single(range, message) => MarkView::Single {
                start: range.start as nat,
                end: range.end as nat,
                message: message@,
            },
            Mark::MultiTopLeft => MarkView::MultiTopLeft,
            Mark::MultiTop(end) => MarkView::MultiTop { end: *end as nat },
            Mark::MultiLeft => MarkView::MultiLeft,
            Mark::MultiBottom(end, message) => MarkView::MultiBottom {
                end: *end as nat,
                message: message@,
            },
        }
    }
}

/// One unit of rendered output, independent of how it is written.
#[derive(Debug, PartialEq, Eq)]
#[allow(inconsistent_fields)]
pub enum Entry {
    /// The diagnostic's header line, with a locus in the short form.
    Header { locus: Option<Locus>, severity: Severity, code: Option<String>, message: String },
    /// An empty line.
    Empty,
    /// The top border of a snippet, with the snippet's locus.
    SourceStart { outer_padding: usize, locus: Locus },
    /// A blank line of the left border.
    SourceEmpty { outer_padding: usize },
    /// A broken left border, between separate regions of one file.
    SourceBreak { outer_padding: usize },
    /// A numbered source line with the mark of a label on it. The severity is
    /// that of the diagnostic for a primary label, none for a secondary one.
    SourceLine {
        outer_padding: usize,
        line_number: usize,
        source: String,
        severity: Option<Severity>,
        mark: Mark,
    },
    /// A note below the snippets.
    SourceNote { outer_padding: usize, message: String },
}

/// An entry as plain values.
#[allow(inconsistent_fields)]
pub enum EntryView {
    Header {
        locus: Option<LocusView>,
        severity: Severity,
        code: Option<Seq<char>>,
        message: Seq<char>,
    },
    Empty,
    SourceStart { outer_padding: nat, locus: LocusView },
    SourceEmpty { outer_padding: nat },
    SourceBreak { outer_padding: nat },
    SourceLine {
        outer_padding: nat,
        line_number: nat,
        source: Seq<char>,
        severity: Option<Severity>,
        mark: MarkView,
    },
    SourceNote { outer_padding: nat, message: Seq<char> },
}

/// An optional string as plain values.
pub open spec fn opt_view(s: Option<String>) -> Option<Seq<char>> {
    match s {
        Some(s) => Some(s@),
        None => None,
    }
}

impl View for Entry {
    type V = EntryView;

    open spec fn view(&self) -> EntryView {
        match self {
            Entry::Header { locus, severity, code, message } => EntryView::Header {
                locus: match locus {
                    Some(l) => Some(l@),
                    None => None,
                },
                severity: *severity,
                code: opt_view(*code),
                message: message@,
            },
            Entry::Empty => EntryView::Empty,
            Entry::SourceStart { outer_padding, locus } => EntryView::SourceStart {
                outer_padding: *outer_padding as nat,
                locus: locus@,
            },
            Entry::SourceEmpty { outer_padding } => EntryView::SourceEmpty {
                outer_padding: *outer_padding as nat,
            },
            Entry::SourceBreak { outer_padding } => EntryView::SourceBreak {
                outer_padding: *outer_padding as nat,
            },
            Entry::SourceLine { outer_padding, line_number, source, severity, mark } =>
                EntryView::SourceLine {
                outer_padding: *outer_padding as nat,
                line_number: *line_number as nat,
                source: source@,
                severity: *severity,
                mark: mark@,
            },
            Entry::SourceNote { outer_padding, message } => EntryView::SourceNote {
                outer_padding: *outer_padding as nat,
                message: message@,
            },
        }
    }
}

/// A sequence of entries as plain values.
pub open spec fn entries_view(es: Seq<Entry>) -> Seq<EntryView> {
    es.map_values(|e: Entry| e@)
}

fn push_entry(out: &mut Vec<Entry>, e: Entry)
    ensures
        entries_view(final(out)@) == entries_view(old(out)@).push(e@),
{
    out.push(e);
    proof {
        assert(entries_view(out@) =~= entries_view(old(out)@).push(e@));
    }
}

/// Whether `char::is_whitespace` holds of a character.
pub uninterp spec fn whitespace(c: char) -> bool;

/// Relies on `char::is_whitespace`: whether the character has Unicode's
/// White_Space property, a function of the character alone.
#[verifier::external_body]
fn is_whitespace(c: char) -> (r: bool)
    ensures
        r == whitespace(c),
{
    c.is_whitespace()
}

/// Every character of `s` before position `n` is whitespace (true when there
/// is none).
pub open spec fn blank_before(s: Seq<char>, n: int) -> bool {
    forall|i: int| 0 <= i < s.len() && i < n ==> whitespace(#[trigger] s[i])
}

/// Whether the first `n` characters of `s` are all whitespace.
pub fn prefix_is_blank(s: &str, n: usize) -> (r: bool)
    ensures
        r == blank_before(s@, n as int),
{
    let mut blank = true;
    let mut i: usize = 0;
    for c in it: s.chars()
        invariant
            it.seq() == s@,
            i == if it.index() < n { it.index() } else { n as int },
            blank == (forall|q: int| 0 <= q < it.index() && q < n ==> whitespace(#[trigger] s@[q])),
    {
        if i < n {
            if !is_whitespace(c) {
                blank = false;
            }
            i = i + 1;
        }
    }
    blank
}

/// The file a label refers to.
pub open spec fn file_of<F: Files>(files: F, l: Label) -> FileModel {
    files.file_model(l.file_id)->0
}

/// The label refers to a known file, and its range is ordered and lies within
/// that file's source.
pub open spec fn label_ok<F: Files>(files: F, l: Label) -> bool {
    &&& files.file_model(l.file_id) is Some
    &&& l.range.start <= l.range.end
    &&& l.range.end <= file_of(files, l).bytes.len()
}

/// The index of the line of `f` that holds byte `b`.
pub open spec fn line_at(f: FileModel, b: int) -> int {
    choose|k: int| is_line_of(f.starts, b, k)
}

/// The text of line `k` of `f`.
pub open spec fn line_text(f: FileModel, k: int) -> Seq<char> {
    decode_utf8(f.line_bytes(k))
}

/// The severity a label is drawn with: the diagnostic's for a primary label,
/// none for a secondary one.
pub open spec fn label_severity(d: Diagnostic, l: Label) -> Option<Severity> {
    match l.style {
        LabelStyle::Primary => Some(d.severity),
        LabelStyle::Secondary => None,
    }
}

/// The mark on the first line of a multi-line label: flush left when the text
/// before the label's start column is blank, else an underline up to the start.
pub open spec fn top_mark(f: FileModel, l: Label) -> MarkView {
    let k = line_at(f, l.range.start as int);
    let b = f.line_begin(k);
    let col = column_of(f.line_bytes(k), b, l.range.start as int);
    if blank_before(line_text(f, k), col as int) {
        MarkView::MultiTopLeft
    } else {
        MarkView::MultiTop { end: (l.range.start - b) as nat }
    }
}

/// The entries that render one label: one line with an underline when the
/// label starts and ends on the same line; else its first line, each line in
/// between with a left connector, and its last line.
pub open spec fn label_model<F: Files>(files: F, d: Diagnostic, l: Label, p: nat) -> Seq<
    EntryView,
> {
    let f = file_of(files, l);
    let sev = label_severity(d, l);
    let k1 = line_at(f, l.range.start as int);
    let k2 = line_at(f, l.range.end as int);
    let b1 = f.line_begin(k1);
    let b2 = f.line_begin(k2);
    if k1 == k2 {
        seq![
            EntryView::SourceLine {
                outer_padding: p,
                line_number: (k1 + 1) as nat,
                source: line_text(f, k1),
                severity: sev,
                mark: MarkView::Single {
                    start: (l.range.start - b1) as nat,
                    end: (l.range.end - b1) as nat,
                    message: l.message@,
                },
            },
        ]
    } else {
        seq![
            EntryView::SourceLine {
                outer_padding: p,
                line_number: (k1 + 1) as nat,
                source: line_text(f, k1),
                severity: sev,
                mark: top_mark(f, l),
            },
        ] + Seq::new(
            (k2 - k1 - 1) as nat,
            |i: int|
                EntryView::SourceLine {
                    outer_padding: p,
                    line_number: (k1 + 2 + i) as nat,
                    source: line_text(f, k1 + 1 + i),
                    severity: sev,
                    mark: MarkView::MultiLeft,
                },
        ) + seq![
            EntryView::SourceLine {
                outer_padding: p,
                line_number: (k2 + 1) as nat,
                source: line_text(f, k2),
                severity: sev,
                mark: MarkView::MultiBottom {
                    end: (l.range.end - b2) as nat,
                    message: l.message@,
                },
            },
        ]
    }
}

proof fn lemma_line_at(f: FileModel, b: int, k: int)
    requires
        f.wf(),
        is_line_of(f.starts, b, k),
    ensures
        line_at(f, b) == k,
{
    let j = line_at(f, b);
    assert(is_line_of(f.starts, b, j));
    if j < k {
        assert(f.starts[j + 1] <= f.starts[k]);
    } else if k < j {
        assert(f.starts[k + 1] <= f.starts[j]);
    }
}

proof fn lemma_line_at_monotonic(f: FileModel, a: int, b: int, ka: int, kb: int)
    requires
        f.wf(),
        a <= b,
        is_line_of(f.starts, a, ka),
        is_line_of(f.starts, b, kb),
    ensures
        ka <= kb,
{
    if kb < ka {
        assert(f.starts[kb + 1] <= f.starts[ka]);
    }
}

/// Every file of the table is well formed.
pub open spec fn files_wf<F: Files>(files: F) -> bool {
    forall|id: usize| #[trigger] files.file_model(id) is Some ==> files.file_model(id)->0.wf()
}

/// Resolve line `k` of file `id`: its start offset and its text.
fn resolve_line<F: Files>(files: &F, id: usize, k: usize) -> (r: (usize, String))
    requires
        files.inv(),
        files.file_model(id) is Some,
        files.file_model(id)->0.wf(),
        k < files.file_model(id)->0.starts.len(),
    ensures
        r.0 == files.file_model(id)->0.line_begin(k as int),
        r.1@ == line_text(files.file_model(id)->0, k as int),
        encode_utf8(r.1@) == files.file_model(id)->0.line_bytes(k as int),
        encode_utf8(r.1@).len() <= files.file_model(id)->0.bytes.len(),
{
    let ghost f = files.file_model(id)->0;
    proof {
        lemma_line_starts_bounds(f.bytes, f.starts);
    }
    let line = files.line(id, k).unwrap();
    let text = files.line_source(id, k).unwrap();
    proof {
        encode_utf8_decode_utf8(text@);
    }
    (line.range.start, text)
}

/// Append the entries that render label `li` of `d`.
fn push_label<F: Files>(out: &mut Vec<Entry>, files: &F, d: &Diagnostic, li: usize, p: usize)
    requires
        files.inv(),
        files_wf(*files),
        li < d.labels@.len(),
        label_ok(*files, d.labels@[li as int]),
    ensures
        entries_view(final(out)@) == entries_view(old(out)@) + label_model(
            *files,
            *d,
            d.labels@[li as int],
            p as nat,
        ),
{
    let l = &d.labels[li];
    let severity = match l.style {
        LabelStyle::Primary => Some(d.severity),
        LabelStyle::Secondary => None,
    };
    let ghost f = file_of(*files, *l);
    proof {
        assert(f.wf());
    }
    let k1 = files.line_index(l.file_id, l.range.start).unwrap();
    let k2 = files.line_index(l.file_id, l.range.end).unwrap();
    proof {
        lemma_line_at(f, l.range.start as int, k1 as int);
        lemma_line_at(f, l.range.end as int, k2 as int);
        lemma_line_at_monotonic(f, l.range.start as int, l.range.end as int, k1 as int, k2 as int);
    }
    let ghost model = label_model(*files, *d, *l, p as nat);
    let ghost start = entries_view(out@);
    let (b1, line1) = resolve_line(files, l.file_id, k1);
    if k1 == k2 {
        push_entry(
            out,
            Entry::SourceLine {
                outer_padding: p,
                line_number: k1 + 1,
                source: line1,
                severity,
                mark: Mark::Single((l.range.start - b1)..(l.range.end - b1), l.message.clone()),
            },
        );
        proof {
            assert(entries_view(out@) =~= start + model);
        }
    } else {
        let col = column_index(line1.as_str(), b1, l.range.start);
        let top = if prefix_is_blank(line1.as_str(), col) {
            Mark::MultiTopLeft
        } else {
            Mark::MultiTop(l.range.start - b1)
        };
        push_entry(
            out,
            Entry::SourceLine {
                outer_padding: p,
                line_number: k1 + 1,
                source: line1,
                severity,
                mark: top,
            },
        );
        let ghost first = entries_view(out@);
        let ghost sev = label_severity(*d, *l);
        let mut k = k1 + 1;
        while k < k2
            invariant
                files.inv(),
                files_wf(*files),
                files.file_model(l.file_id) is Some,
                f == file_of(*files, *l),
                f.wf(),
                k1 < k <= k2,
                k2 < f.starts.len(),
                severity == sev,
                entries_view(out@) == first + Seq::new(
                    (k - k1 - 1) as nat,
                    |i: int|
                        EntryView::SourceLine {
                            outer_padding: p as nat,
                            line_number: (k1 + 2 + i) as nat,
                            source: line_text(f, k1 + 1 + i),
                            severity: sev,
                            mark: MarkView::MultiLeft,
                        },
                ),
            decreases k2 - k,
        {
            let (_, text) = resolve_line(files, l.file_id, k);
            push_entry(
                out,
                Entry::SourceLine {
                    outer_padding: p,
                    line_number: k + 1,
                    source: text,
                    severity,
                    mark: Mark::MultiLeft,
                },
            );
            k += 1;
            proof {
                assert(entries_view(out@) =~= first + Seq::new(
                    (k - k1 - 1) as nat,
                    |i: int|
                        EntryView::SourceLine {
                            outer_padding: p as nat,
                            line_number: (k1 + 2 + i) as nat,
                            source: line_text(f, k1 + 1 + i),
                            severity: sev,
                            mark: MarkView::MultiLeft,
                        },
                ));
            }
        }
        let (b2, line2) = resolve_line(files, l.file_id, k2);
        push_entry(
            out,
            Entry::SourceLine {
                outer_padding: p,
                line_number: k2 + 1,
                source: line2,
                severity,
                mark: Mark::MultiBottom(l.range.end - b2, l.message.clone()),
            },
        );
        proof {
            assert(entries_view(out@) =~= start + model);
        }
    }
}

/// The separator before the `i`-th label of a file: a blank border line before
/// the first, a broken border before each later one.
pub open spec fn separator(i: int, p: nat) -> EntryView {
    if i == 0 {
        EntryView::SourceEmpty { outer_padding: p }
    } else {
        EntryView::SourceBreak { outer_padding: p }
    }
}

/// The entries for the first `n` labels of group `g`, each after its separator.
pub open spec fn group_labels_model<F: Files>(
    files: F,
    d: Diagnostic,
    g: Seq<usize>,
    p: nat,
    n: int,
) -> Seq<EntryView>
    decreases n,
{
    if n <= 0 {
        seq![]
    } else {
        group_labels_model(files, d, g, p, n - 1) + seq![separator(n - 1, p)] + label_model(
            files,
            d,
            d.labels@[g[n - 1] as int],
            p,
        )
    }
}

/// Where a label starts: its file's origin, and the line and column numbers of
/// its start.
pub open spec fn locus_of<F: Files>(files: F, l: Label) -> LocusView {
    let f = file_of(files, l);
    let k = line_at(f, l.range.start as int);
    LocusView {
        origin: f.origin,
        line_number: (k + 1) as nat,
        column_number: column_of(f.line_bytes(k), f.line_begin(k), l.range.start as int) + 1,
    }
}

/// The snippet of one file: its top border with the locus of its first label,
/// the labels, and a closing blank border line.
pub open spec fn group_model<F: Files>(files: F, d: Diagnostic, g: Seq<usize>, p: nat) -> Seq<
    EntryView,
> {
    seq![EntryView::SourceStart { outer_padding: p, locus: locus_of(files, d.labels@[g[0] as int]) }]
        + group_labels_model(files, d, g, p, g.len() as int) + seq![
        EntryView::SourceEmpty { outer_padding: p },
    ]
}

/// The snippets of the first `n` groups, in order.
pub open spec fn groups_model<F: Files>(
    files: F,
    d: Diagnostic,
    gs: Seq<(usize, Seq<usize>)>,
    p: nat,
    n: int,
) -> Seq<EntryView>
    decreases n,
{
    if n <= 0 {
        seq![]
    } else {
        groups_model(files, d, gs, p, n - 1) + group_model(files, d, gs[n - 1].1, p)
    }
}

/// The largest number of a line on which one of the first `n` labels ends
/// (`0` when there is none).
pub open spec fn max_end_line<F: Files>(files: F, labels: Seq<Label>, n: int) -> nat
    decreases n,
{
    if n <= 0 {
        0
    } else {
        let l = labels[n - 1];
        let m = max_end_line(files, labels, n - 1);
        let x = (line_at(file_of(files, l), l.range.end as int) + 1) as nat;
        if x > m {
            x
        } else {
            m
        }
    }
}

/// The gutter width of a diagnostic: the digit count of the largest line
/// number on which any of its labels ends.
pub open spec fn outer_padding<F: Files>(files: F, d: Diagnostic) -> nat {
    digit_count(max_end_line(files, d.labels@, d.labels@.len() as int))
}

/// The header of a diagnostic, with the given locus.
pub open spec fn header_view(d: Diagnostic, locus: Option<LocusView>) -> EntryView {
    EntryView::Header { locus, severity: d.severity, code: opt_view(d.code), message: d.message@ }
}

/// The rich rendering of a diagnostic: its header, an empty line when it has
/// labels, one snippet per file, its notes, and a closing empty line.
pub open spec fn rich_model<F: Files>(files: F, d: Diagnostic) -> Seq<EntryView> {
    let gs = groups_of(d.labels@, d.labels@.len() as int);
    let p = outer_padding(files, d);
    seq![header_view(d, None)] + (if gs.len() > 0 {
        seq![EntryView::Empty]
    } else {
        seq![]
    }) + groups_model(files, d, gs, p, gs.len() as int) + Seq::new(
        d.notes@.len(),
        |i: int| EntryView::SourceNote { outer_padding: p, message: d.notes@[i]@ },
    ) + seq![EntryView::Empty]
}

/// The located headers of the primary labels among the first `n`.
pub open spec fn primary_headers<F: Files>(files: F, d: Diagnostic, n: int) -> Seq<
    EntryView,
>
    decreases n,
{
    if n <= 0 {
        seq![]
    } else {
        let l = d.labels@[n - 1];
        primary_headers(files, d, n - 1) + if l.style == LabelStyle::Primary {
            seq![header_view(d, Some(locus_of(files, l)))]
        } else {
            seq![]
        }
    }
}

/// The short rendering of a diagnostic: one located header per primary label,
/// or a single header without a locus when there is none.
pub open spec fn short_model<F: Files>(files: F, d: Diagnostic) -> Seq<EntryView> {
    let hs = primary_headers(files, d, d.labels@.len() as int);
    if hs.len() == 0 {
        seq![header_view(d, None)]
    } else {
        hs
    }
}

/// Whether a label must resolve: every label does, or only primary ones.
pub open spec fn needed(l: Label, primary_only: bool) -> bool {
    !primary_only || l.style == LabelStyle::Primary
}

/// Every label that must resolve does.
pub open spec fn labels_ok<F: Files>(files: F, labels: Seq<Label>, primary_only: bool) -> bool {
    forall|i: int|
        0 <= i < labels.len() && needed(labels[i], primary_only) ==> label_ok(
            files,
            #[trigger] labels[i],
        )
}

/// A label that the source files cannot resolve: its file is unknown, or its
/// range is reversed or reaches past the end of the file.
#[derive(Clone, Copy, Debug, PartialEq, Eq, Structural)]
pub struct InvalidLabel {
    /// The position of the label in the diagnostic.
    pub index: usize,
}

/// Find the first label that must resolve and does not.
fn check_labels<F: Files>(files: &F, labels: &Vec<Label>, primary_only: bool) -> (r: Result<
    (),
    InvalidLabel,
>)
    requires
        files.inv(),
        files_wf(*files),
    ensures
        r is Ok <==> labels_ok(*files, labels@, primary_only),
        r matches Err(e) ==> e.index < labels@.len() && needed(labels@[e.index as int], primary_only)
            && !label_ok(*files, labels@[e.index as int]) && labels_ok(
            *files,
            labels@.take(e.index as int),
            primary_only,
        ),
{
    let mut i: usize = 0;
    while i < labels.len()
        invariant
            files.inv(),
            files_wf(*files),
            i <= labels@.len(),
            labels_ok(*files, labels@.take(i as int), primary_only),
        decreases labels@.len() - i,
    {
        let l = &labels[i];
        let skip = primary_only && !matches!(l.style, LabelStyle::Primary);
        if !skip {
            let ok = l.range.start <= l.range.end && match files.line_index(
                l.file_id,
                l.range.end,
            ) {
                Some(_) => true,
                None => false,
            };
            assert(ok == label_ok(*files, *l));
            if !ok {
                return Err(InvalidLabel { index: i });
            }
        }
        proof {
            assert forall|j: int|
                0 <= j < i + 1 && needed(labels@.take(i + 1)[j], primary_only) implies label_ok(
                *files,
                #[trigger] labels@.take(i + 1)[j],
            ) by {
                if j < i {
                    assert(labels@.take(i + 1)[j] == labels@.take(i as int)[j]);
                }
            }
        }
        i += 1;
    }
    proof {
        assert(labels@.take(i as int) =~= labels@);
    }
    Ok(())
}

/// The gutter width for a diagnostic whose labels all resolve.
fn padding<F: Files>(files: &F, d: &Diagnostic) -> (r: usize)
    requires
        files.inv(),
        files_wf(*files),
        labels_ok(*files, d.labels@, false),
    ensures
        r == outer_padding(*files, *d),
{
    let mut max: usize = 0;
    let mut i: usize = 0;
    while i < d.labels.len()
        invariant
            files.inv(),
            files_wf(*files),
            labels_ok(*files, d.labels@, false),
            i <= d.labels@.len(),
            max == max_end_line(*files, d.labels@, i as int),
        decreases d.labels@.len() - i,
    {
        let l = &d.labels[i];
        proof {
            assert(label_ok(*files, d.labels@[i as int]));
        }
        let k = files.line_index(l.file_id, l.range.end).unwrap();
        proof {
            lemma_line_at(file_of(*files, *l), l.range.end as int, k as int);
        }
        let number = k + 1;
        if number > max {
            max = number;
        }
        i += 1;
    }
    count_digits(max)
}

/// The locus of label `li` of `d`.
fn label_locus<F: Files>(files: &F, d: &Diagnostic, li: usize) -> (r: Locus)
    requires
        files.inv(),
        files_wf(*files),
        li < d.labels@.len(),
        label_ok(*files, d.labels@[li as int]),
    ensures
        r@ == locus_of(*files, d.labels@[li as int]),
{
    let l = &d.labels[li];
    let origin = files.origin(l.file_id).unwrap();
    let k = files.line_index(l.file_id, l.range.start).unwrap();
    proof {
        lemma_line_at(file_of(*files, *l), l.range.start as int, k as int);
    }
    let (b, text) = resolve_line(files, l.file_id, k);
    Locus { origin, line_number: k + 1, column_number: column_number(text.as_str(), b, l.range.start) }
}

fn clone_code(code: &Option<String>) -> (r: Option<String>)
    ensures
        opt_view(r) == opt_view(*code),
{
    match code {
        Some(c) => Some(c.clone()),
        None => None,
    }
}

fn header(d: &Diagnostic, locus: Option<Locus>) -> (r: Entry)
    ensures
        r@ == header_view(
            *d,
            match locus {
                Some(l) => Some(l@),
                None => None,
            },
        ),
{
    Entry::Header {
        locus,
        severity: d.severity,
        code: clone_code(&d.code),
        message: d.message.clone(),
    }
}

proof fn lemma_sorted_insert_len(labels: Seq<Label>, g: Seq<usize>, x: usize)
    ensures
        sorted_insert(labels, g, x).len() == g.len() + 1,
    decreases g.len(),
{
    if g.len() > 0 && !key_le(labels, g.last(), x) {
        lemma_sorted_insert_len(labels, g.drop_last(), x);
    }
}

/// No group is empty.
pub proof fn lemma_groups_nonempty(labels: Seq<Label>, n: int)
    ensures
        forall|j: int|
            0 <= j < groups_of(labels, n).len() ==> (#[trigger] groups_of(labels, n)[j]).1.len()
                > 0,
    decreases n,
{
    if n > 0 {
        lemma_groups_nonempty(labels, n - 1);
        let prev = groups_of(labels, n - 1);
        let f = labels[n - 1].file_id;
        let j = find_group(prev, f, 0);
        if j >= 0 {
            lemma_find_group_range(prev, f, 0);
            lemma_sorted_insert_len(labels, prev[j].1, (n - 1) as usize);
        }
        assert forall|q: int| 0 <= q < groups_of(labels, n).len() implies (#[trigger] groups_of(
            labels,
            n,
        )[q]).1.len() > 0 by {
            if q < prev.len() && q != j {
                assert(groups_of(labels, n)[q] == prev[q]);
            }
        }
    }
}

proof fn lemma_find_group_range(groups: Seq<(usize, Seq<usize>)>, f: usize, from: int)
    requires
        from >= 0,
    ensures
        find_group(groups, f, from) < groups.len(),
        find_group(groups, f, from) >= 0 ==> groups[find_group(groups, f, from)].0 == f,
    decreases groups.len() - from,
{
    if from < groups.len() && groups[from].0 != f {
        lemma_find_group_range(groups, f, from + 1);
    }
}

/// Output a richly formatted diagnostic, with source code previews.
pub struct RichDiagnostic<'diagnostic> {
    diagnostic: &'diagnostic Diagnostic,
}

impl<'diagnostic> RichDiagnostic<'diagnostic> {
    /// The diagnostic to render.
    pub closed spec fn spec_diagnostic(&self) -> Diagnostic {
        *self.diagnostic
    }

    pub fn new(diagnostic: &'diagnostic Diagnostic) -> (r: RichDiagnostic<'diagnostic>)
        ensures
            r.spec_diagnostic() == *diagnostic,
    {
        RichDiagnostic { diagnostic }
    }

    /// Lay the diagnostic out as entries: its header, one snippet per file, its
    /// notes. Fails on the first label that `files` cannot resolve.
    pub fn entries<F: Files>(&self, files: &F) -> (r: Result<Vec<Entry>, InvalidLabel>)
        requires
            files.inv(),
        ensures
            r is Ok <==> labels_ok(*files, self.spec_diagnostic().labels@, false),
            r matches Err(e) ==> e.index < self.spec_diagnostic().labels@.len() && !label_ok(
                *files,
                self.spec_diagnostic().labels@[e.index as int],
            ) && labels_ok(*files, self.spec_diagnostic().labels@.take(e.index as int), false),
            r matches Ok(es) ==> entries_view(es@) == rich_model(*files, self.spec_diagnostic()),
    {
        let d = self.diagnostic;
        proof {
            files.lemma_models_wf();
        }
        match check_labels(files, &d.labels, false) {
            Err(e) => {
                return Err(e);
            },
            Ok(()) => {},
        }
        let p = padding(files, d);
        let groups = group_labels(&d.labels);
        let ghost gs = groups_view(groups@);
        proof {
            lemma_groups_nonempty(d.labels@, d.labels@.len() as int);
        }
        let mut out: Vec<Entry> = Vec::new();
        push_entry(&mut out, header(d, None));
        if groups.len() > 0 {
            push_entry(&mut out, Entry::Empty);
        }
        let ghost pre = entries_view(out@);
        let mut gi: usize = 0;
        while gi < groups.len()
            invariant
                files.inv(),
                files_wf(*files),
                labels_ok(*files, d.labels@, false),
                gs == groups_view(groups@),
                gs == groups_of(d.labels@, d.labels@.len() as int),
                indices_below(gs, d.labels@.len() as int),
                forall|j: int| 0 <= j < gs.len() ==> (#[trigger] gs[j]).1.len() > 0,
                gi <= groups@.len(),
                entries_view(out@) == pre + groups_model(*files, *d, gs, p as nat, gi as int),
            decreases groups@.len() - gi,
        {
            let g = &groups[gi];
            let ghost members = g.labels@;
            proof {
                assert(gs[gi as int].1 == members);
                assert(members[0] < d.labels@.len());
            }
            let first = g.labels[0];
            push_entry(
                &mut out,
                Entry::SourceStart { outer_padding: p, locus: label_locus(files, d, first) },
            );
            let ghost pre2 = entries_view(out@);
            let mut i: usize = 0;
            while i < g.labels.len()
                invariant
                    files.inv(),
                    files_wf(*files),
                    labels_ok(*files, d.labels@, false),
                    members == g.labels@,
                    forall|q: int| 0 <= q < members.len() ==> #[trigger] members[q] < d.labels@.len(),
                    i <= members.len(),
                    entries_view(out@) == pre2 + group_labels_model(
                        *files,
                        *d,
                        members,
                        p as nat,
                        i as int,
                    ),
                decreases members.len() - i,
            {
                if i == 0 {
                    push_entry(&mut out, Entry::SourceEmpty { outer_padding: p });
                } else {
                    push_entry(&mut out, Entry::SourceBreak { outer_padding: p });
                }
                let li = g.labels[i];
                proof {
                    assert(label_ok(*files, d.labels@[li as int]));
                }
                push_label(&mut out, files, d, li, p);
                i += 1;
            }
            push_entry(&mut out, Entry::SourceEmpty { outer_padding: p });
            gi += 1;
            proof {
                assert(entries_view(out@) =~= pre + groups_model(*files, *d, gs, p as nat, gi as int));
            }
        }
        let ghost pre3 = entries_view(out@);
        let mut ni: usize = 0;
        while ni < d.notes.len()
            invariant
                ni <= d.notes@.len(),
                entries_view(out@) == pre3 + Seq::new(
                    ni as nat,
                    |i: int| EntryView::SourceNote { outer_padding: p as nat, message: d.notes@[i]@ },
                ),
            decreases d.notes@.len() - ni,
        {
            push_entry(
                &mut out,
                Entry::SourceNote { outer_padding: p, message: d.notes[ni].clone() },
            );
            ni += 1;
            proof {
                assert(entries_view(out@) =~= pre3 + Seq::new(
                    ni as nat,
                    |i: int| EntryView::SourceNote { outer_padding: p as nat, message: d.notes@[i]@ },
                ));
            }
        }
        push_entry(&mut out, Entry::Empty);
        proof {
            assert(entries_view(out@) =~= rich_model(*files, *d));
        }
        Ok(out)
    }
}

/// Output a short diagnostic, with a line number, severity, and message.
pub struct ShortDiagnostic<'diagnostic> {
    diagnostic: &'diagnostic Diagnostic,
}

impl<'diagnostic> ShortDiagnostic<'diagnostic> {
    /// The diagnostic to render.
    pub closed spec fn spec_diagnostic(&self) -> Diagnostic {
        *self.diagnostic
    }

    pub fn new(diagnostic: &'diagnostic Diagnostic) -> (r: ShortDiagnostic<'diagnostic>)
        ensures
            r.spec_diagnostic() == *diagnostic,
    {
        ShortDiagnostic { diagnostic }
    }

    /// Lay the diagnostic out as headers alone: one located header per primary
    /// label, or one without a locus when there is none. Fails on the first
    /// primary label that `files` cannot resolve.
    pub fn entries<F: Files>(&self, files: &F) -> (r: Result<Vec<Entry>, InvalidLabel>)
        requires
            files.inv(),
        ensures
            r is Ok <==> labels_ok(*files, self.spec_diagnostic().labels@, true),
            r matches Err(e) ==> e.index < self.spec_diagnostic().labels@.len()
                && self.spec_diagnostic().labels@[e.index as int].style == LabelStyle::Primary
                && !label_ok(*files, self.spec_diagnostic().labels@[e.index as int]) && labels_ok(
                *files,
                self.spec_diagnostic().labels@.take(e.index as int),
                true,
            ),
            r matches Ok(es) ==> entries_view(es@) == short_model(*files, self.spec_diagnostic()),
    {
        let d = self.diagnostic;
        proof {
            files.lemma_models_wf();
        }
        match check_labels(files, &d.labels, true) {
            Err(e) => {
                return Err(e);
            },
            Ok(()) => {},
        }
        let mut out: Vec<Entry> = Vec::new();
        let mut i: usize = 0;
        while i < d.labels.len()
            invariant
                files.inv(),
                files_wf(*files),
                labels_ok(*files, d.labels@, true),
                i <= d.labels@.len(),
                entries_view(out@) == primary_headers(*files, *d, i as int),
            decreases d.labels@.len() - i,
        {
            if matches!(d.labels[i].style, LabelStyle::Primary) {
                proof {
                    assert(needed(d.labels@[i as int], true));
                }
                let locus = label_locus(files, d, i);
                push_entry(&mut out, header(d, Some(locus)));
            }
            i += 1;
            proof {
                assert(entries_view(out@) =~= primary_headers(*files, *d, i as int));
            }
        }
        if out.len() == 0 {
            push_entry(&mut out, header(d, None));
        }
        Ok(out)
    }
}

/// `g` lists label indices in reading order.
pub open spec fn in_reading_order(labels: Seq<Label>, g: Seq<usize>) -> bool {
    forall|q: int| 0 <= q < g.len() - 1 ==> key_le(labels, #[trigger] g[q], g[q + 1])
}

proof fn lemma_sorted_insert_order(labels: Seq<Label>, g: Seq<usize>, x: usize)
    requires
        in_reading_order(labels, g),
    ensures
        in_reading_order(labels, sorted_insert(labels, g, x)),
        sorted_insert(labels, g, x).last() == x || (g.len() > 0 && sorted_insert(labels, g, x).last()
            == g.last()),
    decreases g.len(),
{
    let r = sorted_insert(labels, g, x);
    if g.len() == 0 {
        assert(r =~= seq![x]);
    } else if key_le(labels, g.last(), x) {
        assert(r =~= g.push(x));
        assert forall|q: int| 0 <= q < r.len() - 1 implies key_le(labels, #[trigger] r[q], r[q + 1]) by {
            if q < g.len() - 1 {
                assert(r[q] == g[q] && r[q + 1] == g[q + 1]);
            }
        }
    } else {
        let d = g.drop_last();
        assert forall|q: int| 0 <= q < d.len() - 1 implies key_le(labels, #[trigger] d[q], d[q + 1]) by {
            assert(d[q] == g[q] && d[q + 1] == g[q + 1]);
        }
        lemma_sorted_insert_order(labels, d, x);
        let t = sorted_insert(labels, d, x);
        lemma_sorted_insert_len(labels, d, x);
        assert(r =~= t.push(g.last()));
        if t.last() != x {
            assert(d.len() > 0 && t.last() == d.last());
            assert(key_le(labels, g[g.len() - 2], g[g.len() - 1]));
        }
        assert forall|q: int| 0 <= q < r.len() - 1 implies key_le(labels, #[trigger] r[q], r[q + 1]) by {
            if q < t.len() - 1 {
                assert(r[q] == t[q] && r[q + 1] == t[q + 1]);
            } else {
                assert(r[q] == t.last() && r[q + 1] == g.last());
            }
        }
    }
}

proof fn lemma_sorted_insert_members_of(labels: Seq<Label>, g: Seq<usize>, x: usize, f: usize)
    requires
        labels[x as int].file_id == f,
        forall|q: int| 0 <= q < g.len() ==> labels[#[trigger] g[q] as int].file_id == f,
    ensures
        forall|q: int|
            0 <= q < sorted_insert(labels, g, x).len() ==> labels[#[trigger] sorted_insert(
                labels,
                g,
                x,
            )[q] as int].file_id == f,
    decreases g.len(),
{
    let r = sorted_insert(labels, g, x);
    if g.len() == 0 {
        assert(r =~= seq![x]);
    } else if key_le(labels, g.last(), x) {
        assert(r =~= g.push(x));
        assert forall|q: int| 0 <= q < r.len() implies labels[#[trigger] r[q] as int].file_id == f by {
            if q < g.len() {
                assert(r[q] == g[q]);
            }
        }
    } else {
        let d = g.drop_last();
        assert forall|q: int| 0 <= q < d.len() implies labels[#[trigger] d[q] as int].file_id == f by {
            assert(d[q] == g[q]);
        }
        lemma_sorted_insert_members_of(labels, d, x, f);
        let t = sorted_insert(labels, d, x);
        assert(r =~= t.push(g.last()));
        assert forall|q: int| 0 <= q < r.len() implies labels[#[trigger] r[q] as int].file_id == f by {
            if q < t.len() {
                assert(r[q] == t[q]);
            }
        }
    }
}

proof fn lemma_find_group_none(groups: Seq<(usize, Seq<usize>)>, f: usize, from: int)
    requires
        0 <= from,
        find_group(groups, f, from) < 0,
    ensures
        forall|j: int| from <= j < groups.len() ==> (#[trigger] groups[j]).0 != f,
    decreases groups.len() - from,
{
    if from < groups.len() {
        lemma_find_group_none(groups, f, from + 1);
    }
}

/// Grouping puts each label with the others of its file: every file has one
/// group, and the labels of each group belong to its file and are in reading
/// order (by start, then by end).
pub proof fn lemma_grouping(labels: Seq<Label>, n: int)
    requires
        0 <= n <= labels.len(),
        labels.len() <= usize::MAX,
    ensures
        indices_below(groups_of(labels, n), n),
        forall|j: int|
            0 <= j < groups_of(labels, n).len() ==> in_reading_order(
                labels,
                (#[trigger] groups_of(labels, n)[j]).1,
            ),
        forall|j: int, q: int|
            0 <= j < groups_of(labels, n).len() && 0 <= q < groups_of(labels, n)[j].1.len()
                ==> labels[#[trigger] groups_of(labels, n)[j].1[q] as int].file_id == groups_of(
                labels,
                n,
            )[j].0,
        forall|j1: int, j2: int|
            0 <= j1 < j2 < groups_of(labels, n).len() ==> (#[trigger] groups_of(labels, n)[j1]).0
                != (#[trigger] groups_of(labels, n)[j2]).0,
    decreases n,
{
    if n > 0 {
        lemma_grouping(labels, n - 1);
        let prev = groups_of(labels, n - 1);
        let gs = groups_of(labels, n);
        let f = labels[n - 1].file_id;
        let x = (n - 1) as usize;
        let j = find_group(prev, f, 0);
        lemma_find_group_range(prev, f, 0);
        if j < 0 {
            lemma_find_group_none(prev, f, 0);
            assert(gs =~= prev.push((f, seq![x])));
            assert forall|a: int, q: int|
                0 <= a < gs.len() && 0 <= q < gs[a].1.len() implies #[trigger] gs[a].1[q] < n by {
                if a < prev.len() {
                    assert(gs[a] == prev[a]);
                }
            }
            assert forall|a: int| 0 <= a < gs.len() implies in_reading_order(
                labels,
                (#[trigger] gs[a]).1,
            ) by {
                if a < prev.len() {
                    assert(gs[a] == prev[a]);
                }
            }
            assert forall|a: int, q: int|
                0 <= a < gs.len() && 0 <= q < gs[a].1.len() implies labels[#[trigger] gs[a].1[q] as int].file_id
                == gs[a].0 by {
                if a < prev.len() {
                    assert(gs[a] == prev[a]);
                    assert(labels[prev[a].1[q] as int].file_id == prev[a].0);
                } else {
                    assert(gs[a].1[q] == x);
                    assert(x as int == n - 1);
                }
            }
            assert forall|a: int, b: int| 0 <= a < b < gs.len() implies (#[trigger] gs[a]).0 != (
            #[trigger] gs[b]).0 by {
                assert(gs[a] == prev[a]);
                if b < prev.len() {
                    assert(gs[b] == prev[b]);
                }
            }
        } else {
            let old_g = prev[j].1;
            lemma_sorted_insert_order(labels, old_g, x);
            lemma_sorted_insert_members_of(labels, old_g, x, f);
            lemma_sorted_insert_members(labels, old_g, x, n);
            assert forall|q: int| 0 <= q < old_g.len() implies #[trigger] old_g[q] < n - 1 by {
                assert(prev[j].1[q] < n - 1);
            }
            assert(gs =~= prev.update(j, (f, sorted_insert(labels, old_g, x))));
            assert forall|a: int, q: int|
                0 <= a < gs.len() && 0 <= q < gs[a].1.len() implies #[trigger] gs[a].1[q] < n by {
                if a != j {
                    assert(gs[a] == prev[a]);
                }
            }
            assert forall|a: int| 0 <= a < gs.len() implies in_reading_order(
                labels,
                (#[trigger] gs[a]).1,
            ) by {
                if a != j {
                    assert(gs[a] == prev[a]);
                }
            }
            assert forall|a: int, q: int|
                0 <= a < gs.len() && 0 <= q < gs[a].1.len() implies labels[#[trigger] gs[a].1[q] as int].file_id
                == gs[a].0 by {
                if a != j {
                    assert(gs[a] == prev[a]);
                } else {
                    assert(gs[a].1[q] == sorted_insert(labels, old_g, x)[q]);
                }
            }
            assert forall|a: int, b: int| 0 <= a < b < gs.len() implies (#[trigger] gs[a]).0 != (
            #[trigger] gs[b]).0 by {
                assert(gs[a].0 == prev[a].0);
                assert(gs[b].0 == prev[b].0);
            }
        }
    }
}

/// Rendering is deterministic: any two entry sequences that render the same
/// diagnostic against the same files are the same.
pub proof fn lemma_rich_deterministic<F: Files>(
    files: F,
    d: Diagnostic,
    a: Seq<Entry>,
    b: Seq<Entry>,
)
    requires
        entries_view(a) == rich_model(files, d),
        entries_view(b) == rich_model(files, d),
    ensures
        entries_view(a) == entries_view(b),
{
}

/// The gutter width an entry is drawn with, for entries that have a gutter.
pub open spec fn gutter_of(e: EntryView) -> Option<nat> {
    match e {
        EntryView::Header { .. } => None,
        EntryView::Empty => None,
        EntryView::SourceStart { outer_padding, .. } => Some(outer_padding),
        EntryView::SourceEmpty { outer_padding } => Some(outer_padding),
        EntryView::SourceBreak { outer_padding } => Some(outer_padding),
        EntryView::SourceLine { outer_padding, .. } => Some(outer_padding),
        EntryView::SourceNote { outer_padding, .. } => Some(outer_padding),
    }
}

/// Every entry of `s` that has a gutter has width `p`.
pub open spec fn gutters_are(s: Seq<EntryView>, p: nat) -> bool {
    forall|i: int| 0 <= i < s.len() ==> (#[trigger] gutter_of(s[i]) is None || gutter_of(s[i]) == Some(p))
}

proof fn lemma_gutters_concat(a: Seq<EntryView>, b: Seq<EntryView>, p: nat)
    requires
        gutters_are(a, p),
        gutters_are(b, p),
    ensures
        gutters_are(a + b, p),
{
    assert forall|i: int| 0 <= i < (a + b).len() implies (#[trigger] gutter_of((a + b)[i]) is None
        || gutter_of((a + b)[i]) == Some(p)) by {
        if i < a.len() {
            assert((a + b)[i] == a[i]);
        } else {
            assert((a + b)[i] == b[i - a.len()]);
        }
    }
}

proof fn lemma_group_labels_gutters<F: Files>(
    files: F,
    d: Diagnostic,
    g: Seq<usize>,
    p: nat,
    n: int,
)
    ensures
        gutters_are(group_labels_model(files, d, g, p, n), p),
    decreases n,
{
    if n > 0 {
        lemma_group_labels_gutters(files, d, g, p, n - 1);
        let l = d.labels@[g[n - 1] as int];
        let m = label_model(files, d, l, p);
        assert(gutters_are(m, p)) by {
            assert forall|i: int| 0 <= i < m.len() implies (#[trigger] gutter_of(m[i]) is None
                || gutter_of(m[i]) == Some(p)) by {
                let f = file_of(files, l);
                let k1 = line_at(f, l.range.start as int);
                let k2 = line_at(f, l.range.end as int);
                if k1 != k2 {
                    let top = seq![m[0]];
                    if 0 < i < m.len() - 1 {
                        assert(m[i] == Seq::new(
                            (k2 - k1 - 1) as nat,
                            |q: int|
                                EntryView::SourceLine {
                                    outer_padding: p,
                                    line_number: (k1 + 2 + q) as nat,
                                    source: line_text(f, k1 + 1 + q),
                                    severity: label_severity(d, l),
                                    mark: MarkView::MultiLeft,
                                },
                        )[i - 1]);
                    }
                }
            }
        }
        lemma_gutters_concat(group_labels_model(files, d, g, p, n - 1), seq![separator(n - 1, p)], p);
        lemma_gutters_concat(
            group_labels_model(files, d, g, p, n - 1) + seq![separator(n - 1, p)],
            m,
            p,
        );
    }
}

proof fn lemma_groups_gutters<F: Files>(
    files: F,
    d: Diagnostic,
    gs: Seq<(usize, Seq<usize>)>,
    p: nat,
    n: int,
)
    ensures
        gutters_are(groups_model(files, d, gs, p, n), p),
    decreases n,
{
    if n > 0 {
        lemma_groups_gutters(files, d, gs, p, n - 1);
        let g = gs[n - 1].1;
        let start = seq![
            EntryView::SourceStart { outer_padding: p, locus: locus_of(files, d.labels@[g[0] as int]) },
        ];
        lemma_group_labels_gutters(files, d, g, p, g.len() as int);
        lemma_gutters_concat(start, group_labels_model(files, d, g, p, g.len() as int), p);
        lemma_gutters_concat(
            start + group_labels_model(files, d, g, p, g.len() as int),
            seq![EntryView::SourceEmpty { outer_padding: p }],
            p,
        );
        lemma_gutters_concat(groups_model(files, d, gs, p, n - 1), group_model(files, d, g, p), p);
    }
}

/// Every gutter of a rich rendering has the same width: the digit count of the
/// largest line number on which a label of the diagnostic ends.
pub proof fn lemma_uniform_gutter<F: Files>(files: F, d: Diagnostic)
    ensures
        gutters_are(
            rich_model(files, d),
            digit_count(max_end_line(files, d.labels@, d.labels@.len() as int)),
        ),
{
    let gs = groups_of(d.labels@, d.labels@.len() as int);
    let p = outer_padding(files, d);
    let head = seq![header_view(d, None)] + (if gs.len() > 0 {
        seq![EntryView::Empty]
    } else {
        seq![]
    });
    let notes = Seq::new(
        d.notes@.len(),
        |i: int| EntryView::SourceNote { outer_padding: p, message: d.notes@[i]@ },
    );
    assert(gutters_are(head, p));
    assert(gutters_are(notes, p));
    lemma_groups_gutters(files, d, gs, p, gs.len() as int);
    lemma_gutters_concat(head, groups_model(files, d, gs, p, gs.len() as int), p);
    lemma_gutters_concat(head + groups_model(files, d, gs, p, gs.len() as int), notes, p);
    lemma_gutters_concat(
        head + groups_model(files, d, gs, p, gs.len() as int) + notes,
        seq![EntryView::Empty],
        p,
    );
}

proof fn lemma_sorted_insert_contains(labels: Seq<Label>, g: Seq<usize>, x: usize)
    ensures
        sorted_insert(labels, g, x).contains(x),
        forall|q: int| 0 <= q < g.len() ==> sorted_insert(labels, g, x).contains(#[trigger] g[q]),
    decreases g.len(),
{
    let r = sorted_insert(labels, g, x);
    if g.len() == 0 {
        assert(r =~= seq![x]);
        assert(r[0] == x);
    } else if key_le(labels, g.last(), x) {
        assert(r =~= g.push(x));
        assert(r[g.len() as int] == x);
        assert forall|q: int| 0 <= q < g.len() implies r.contains(#[trigger] g[q]) by {
            assert(r[q] == g[q]);
        }
    } else {
        let d = g.drop_last();
        lemma_sorted_insert_contains(labels, d, x);
        let t = sorted_insert(labels, d, x);
        assert(r =~= t.push(g.last()));
        let w = choose|w: int| 0 <= w < t.len() && t[w] == x;
        assert(r[w] == x);
        assert forall|q: int| 0 <= q < g.len() implies r.contains(#[trigger] g[q]) by {
            if q == g.len() - 1 {
                assert(r[t.len() as int] == g[q]);
            } else {
                assert(d[q] == g[q]);
                let w2 = choose|w2: int| 0 <= w2 < t.len() && t[w2] == d[q];
                assert(r[w2] == g[q]);
            }
        }
    }
}

/// Label `i` is held by group `j` of `gs`.
pub open spec fn held_by(gs: Seq<(usize, Seq<usize>)>, j: int, i: int) -> bool {
    0 <= j < gs.len() && gs[j].1.contains(i as usize)
}

/// Grouping loses no label: each of the first `n` labels is held by some group.
pub proof fn lemma_grouping_keeps_labels(labels: Seq<Label>, n: int, i: int)
    requires
        0 <= i < n <= labels.len(),
        labels.len() <= usize::MAX,
    ensures
        exists|j: int| held_by(groups_of(labels, n), j, i),
    decreases n,
{
    let prev = groups_of(labels, n - 1);
    let gs = groups_of(labels, n);
    let f = labels[n - 1].file_id;
    let x = (n - 1) as usize;
    let jj = find_group(prev, f, 0);
    lemma_find_group_range(prev, f, 0);
    if jj < 0 {
        assert(gs =~= prev.push((f, seq![x])));
        if i < n - 1 {
            lemma_grouping_keeps_labels(labels, n - 1, i);
            let j = choose|j: int| held_by(prev, j, i);
            assert(gs[j] == prev[j]);
            assert(held_by(gs, j, i));
        } else {
            assert(gs[prev.len() as int].1[0] == x);
            assert(held_by(gs, prev.len() as int, i));
        }
    } else {
        let old_g = prev[jj].1;
        lemma_sorted_insert_contains(labels, old_g, x);
        assert(gs =~= prev.update(jj, (f, sorted_insert(labels, old_g, x))));
        if i < n - 1 {
            lemma_grouping_keeps_labels(labels, n - 1, i);
            let j = choose|j: int| held_by(prev, j, i);
            if j != jj {
                assert(gs[j] == prev[j]);
            } else {
                let q = choose|q: int| 0 <= q < old_g.len() && old_g[q] == i as usize;
                assert(sorted_insert(labels, old_g, x).contains(old_g[q]));
            }
            assert(held_by(gs, j, i));
        } else {
            assert(held_by(gs, jj, i));
        }
    }
}

/// Files are grouped in order of first appearance: when the group of one file
/// comes before the group of another, some label of the first file comes
/// before any label `i` of the second.
pub proof fn lemma_grouping_file_order(labels: Seq<Label>, n: int, j1: int, j2: int, i: int)
    requires
        0 <= i < n <= labels.len(),
        labels.len() <= usize::MAX,
        0 <= j1 < j2 < groups_of(labels, n).len(),
        labels[i].file_id == groups_of(labels, n)[j2].0,
    ensures
        exists|i2: int| 0 <= i2 < i && labels[i2].file_id == groups_of(labels, n)[j1].0,
    decreases n,
{
    let prev = groups_of(labels, n - 1);
    let gs = groups_of(labels, n);
    let f = labels[n - 1].file_id;
    let x = (n - 1) as usize;
    let jj = find_group(prev, f, 0);
    lemma_find_group_range(prev, f, 0);
    lemma_grouping(labels, n - 1);
    lemma_groups_nonempty(labels, n - 1);
    if jj < 0 {
        lemma_find_group_none(prev, f, 0);
        assert(gs =~= prev.push((f, seq![x])));
        assert(gs[j1] == prev[j1]);
        if j2 < prev.len() {
            assert(gs[j2] == prev[j2]);
            if i < n - 1 {
                lemma_grouping_file_order(labels, n - 1, j1, j2, i);
            } else {
                assert(prev[j2].0 != f);
            }
        } else {
            if i < n - 1 {
                lemma_grouping_keeps_labels(labels, n - 1, i);
                let j = choose|j: int| held_by(prev, j, i);
                let q = choose|q: int| 0 <= q < prev[j].1.len() && prev[j].1[q] == i as usize;
                assert(labels[prev[j].1[q] as int].file_id == prev[j].0);
                assert(prev[j].0 != f);
            }
            let i2 = prev[j1].1[0];
            assert(labels[i2 as int].file_id == prev[j1].0);
            assert(i2 < n - 1);
        }
    } else {
        assert(gs =~= prev.update(jj, (f, sorted_insert(labels, prev[jj].1, x))));
        assert(gs[j1].0 == prev[j1].0);
        assert(gs[j2].0 == prev[j2].0);
        if i < n - 1 {
            lemma_grouping_file_order(labels, n - 1, j1, j2, i);
        } else {
            let i0 = prev[j2].1[0];
            assert(labels[i0 as int].file_id == prev[j2].0);
            assert(i0 < n - 1);
            lemma_grouping_file_order(labels, n - 1, j1, j2, i0 as int);
        }
    }
}

} // verus!
