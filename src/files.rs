//! Source files: line starts, line lookup and Unicode-aware columns.

use std::ops::Range;
use vstd::prelude::*;
use vstd::utf8::*;
use vstd::string::*;

verus! {

/// True when byte offset `k` begins a line of `src`: the start of the text, or
/// the byte just after a newline.
pub open spec fn is_line_start(src: Seq<u8>, k: int) -> bool {
    k == 0 || (0 < k <= src.len() && src[k - 1] == 10u8)
}

/// `starts` lists the line starts of `src`, each once, in increasing order.
pub open spec fn are_line_starts(src: Seq<u8>, starts: Seq<usize>) -> bool {
    &&& forall|i: int, j: int| 0 <= i < j < starts.len() ==> starts[i] < starts[j]
    &&& forall|i: int| 0 <= i < starts.len() ==> is_line_start(src, #[trigger] starts[i] as int)
    &&& forall|k: int|
        0 <= k <= src.len() && #[trigger] is_line_start(src, k) ==> exists|i: int|
            0 <= i < starts.len() && starts[i] == k
}

/// Compute the line starts of a file: `0`, then the offset just after each newline.
pub fn line_starts(source: &str) -> (r: Vec<usize>)
    ensures
        are_line_starts(source.spec_bytes(), r@),
        r@.len() <= source.spec_bytes().len() + 1,
{
    let bytes = source.as_bytes();
    let mut r: Vec<usize> = Vec::new();
    r.push(0);
    let mut i: usize = 0;
    assert forall|k: int| 0 <= k <= 0 && #[trigger] is_line_start(bytes@, k) implies exists|
        a: int,
    |
        0 <= a < r.len() && r[a] == k by {
        assert(r[0] == k);
    }
    while i < bytes.len()
        invariant
            bytes@ == source.spec_bytes(),
            i <= bytes@.len(),
            1 <= r.len() <= i + 1,
            r[0] == 0,
            forall|a: int, b: int| 0 <= a < b < r.len() ==> r[a] < r[b],
            forall|a: int|
                0 <= a < r.len() ==> is_line_start(bytes@, #[trigger] r[a] as int) && r[a] <= i,
            forall|k: int|
                0 <= k <= i && #[trigger] is_line_start(bytes@, k) ==> exists|a: int|
                    0 <= a < r.len() && r[a] == k,
        decreases bytes@.len() - i,
    {
        let ghost old_r = r@;
        if bytes[i] == 10u8 {
            r.push(i + 1);
            assert(r[r.len() - 1] == i + 1);
        }
        i += 1;
        assert forall|k: int| 0 <= k <= i && #[trigger] is_line_start(bytes@, k) implies exists|
            a: int,
        |
            0 <= a < r.len() && r[a] == k by {
            if k < i {
                let a = choose|a: int| 0 <= a < old_r.len() && old_r[a] == k;
                assert(r[a] == k);
            } else if k == 0 {
                assert(r[0] == k);
            } else {
                assert(r[r.len() - 1] == k);
            }
        }
    }
    r
}

/// The number of character boundaries of `bytes` in `(0, k]`: how many
/// characters end at or before byte `k`.
pub open spec fn chars_ending_by(bytes: Seq<u8>, k: int) -> nat
    decreases k,
{
    if k <= 0 {
        0
    } else {
        chars_ending_by(bytes, k - 1) + if is_char_boundary(bytes, k) {
            1nat
        } else {
            0nat
        }
    }
}

/// The 0-based column of `byte_index` in a line whose text is `line` and which
/// begins at byte `line_start`: the number of characters of the line that end
/// at or before it. An index inside a character counts the characters before
/// that one; an index before the line gives `0`, one past its end the full count.
pub open spec fn column_of(line: Seq<u8>, line_start: int, byte_index: int) -> nat {
    if byte_index < line_start {
        0
    } else {
        chars_ending_by(line, byte_index - line_start)
    }
}

proof fn lemma_chars_ending_past_end(bytes: Seq<u8>, k: int)
    requires
        valid_utf8(bytes),
        k >= bytes.len(),
    ensures
        chars_ending_by(bytes, k) == chars_ending_by(bytes, bytes.len() as int),
    decreases k,
{
    if k > bytes.len() {
        lemma_chars_ending_past_end(bytes, k - 1);
    }
}

/// The count of characters ending by a byte offset never decreases as the
/// offset grows.
pub proof fn lemma_chars_ending_monotonic(bytes: Seq<u8>, a: int, b: int)
    requires
        a <= b,
    ensures
        chars_ending_by(bytes, a) <= chars_ending_by(bytes, b),
    decreases b - a,
{
    if a < b {
        lemma_chars_ending_monotonic(bytes, a, b - 1);
    }
}

/// The column index at the given byte index in the source file.
/// This is the number of characters to the given byte index.
///
/// If the byte index is smaller than the start of the line, then `0` is returned.
/// If the byte index is past the end of the line, the number of characters of
/// the line is returned.
pub fn column_index(line_source: &str, line_start: usize, byte_index: usize) -> (r: usize)
    ensures
        r == column_of(line_source.spec_bytes(), line_start as int, byte_index as int),
        r <= line_source.spec_bytes().len(),
{
    if byte_index < line_start {
        return 0;
    }
    let rel = byte_index - line_start;
    let bytes = line_source.as_bytes();
    let n = bytes.len();
    let limit = if rel < n {
        rel
    } else {
        n
    };
    proof {
        encode_utf8_valid_utf8(line_source@);
        is_char_boundary_start_end_of_seq(bytes@);
    }
    let mut count: usize = 0;
    let mut j: usize = 0;
    while j < limit
        invariant
            bytes@ == line_source.spec_bytes(),
            valid_utf8(bytes@),
            is_char_boundary(bytes@, n as int),
            n == bytes@.len(),
            limit <= n,
            j <= limit,
            count <= j,
            count == chars_ending_by(bytes@, j as int),
        decreases limit - j,
    {
        j += 1;
        let boundary = j == n || !(0x80u8 <= bytes[j] && bytes[j] <= 0xbfu8);
        proof {
            if j < n {
                is_char_boundary_iff_not_is_continuation_byte(bytes@, j as int);
            }
        }
        if boundary {
            count += 1;
        }
    }
    proof {
        if rel >= n {
            lemma_chars_ending_past_end(bytes@, rel as int);
        }
    }
    count
}

/// The 1-indexed column number at the given byte index.
pub fn column_number(line_source: &str, line_start: usize, byte_index: usize) -> (r: usize)
    requires
        line_source.spec_bytes().len() < usize::MAX,
    ensures
        r == column_of(line_source.spec_bytes(), line_start as int, byte_index as int) + 1,
{
    column_index(line_source, line_start, byte_index) + 1
}

/// A column at a line's own start is `0`, and columns never decrease as the
/// byte index moves forward.
pub proof fn lemma_column_monotonic(line: Seq<u8>, line_start: int, b1: int, b2: int)
    requires
        b1 <= b2,
    ensures
        column_of(line, line_start, line_start) == 0,
        column_of(line, line_start, b1) <= column_of(line, line_start, b2),
{
    if b1 >= line_start {
        lemma_chars_ending_monotonic(line, b1 - line_start, b2 - line_start);
    }
}

/// The start of line `index`: the listed start, or the end of the source for the
/// virtual line start just past the last line; `None` beyond that.
pub open spec fn line_start_of(starts: Seq<usize>, len: nat, index: int) -> Option<nat> {
    if 0 <= index < starts.len() {
        Some(starts[index] as nat)
    } else if index == starts.len() {
        Some(len)
    } else {
        None
    }
}

/// Line `k` is the one that holds byte `b`: the last line whose start is at or
/// before `b`.
pub open spec fn is_line_of(starts: Seq<usize>, b: int, k: int) -> bool {
    &&& 0 <= k < starts.len()
    &&& starts[k] <= b
    &&& (k + 1 == starts.len() || b < starts[k + 1])
}

/// Line starts begin with `0`, and none lies past the end of the source.
pub proof fn lemma_line_starts_bounds(src: Seq<u8>, starts: Seq<usize>)
    requires
        are_line_starts(src, starts),
    ensures
        starts.len() >= 1,
        starts[0] == 0,
        forall|i: int| 0 <= i < starts.len() ==> starts[i] <= src.len(),
{
    assert(is_line_start(src, 0));
    let i = choose|i: int| 0 <= i < starts.len() && starts[i] == 0;
    if i > 0 {
        assert(starts[0] < starts[i]);
    }
    assert forall|i: int| 0 <= i < starts.len() implies starts[i] <= src.len() by {
        assert(is_line_start(src, starts[i] as int));
    }
}

/// In valid UTF-8, the byte just after a newline starts a character (or ends the text).
proof fn lemma_after_newline_is_boundary(bytes: Seq<u8>, k: int)
    requires
        valid_utf8(bytes),
        0 < k <= bytes.len(),
        bytes[k - 1] == 10u8,
    ensures
        is_char_boundary(bytes, k),
    decreases bytes.len(),
{
    let l = length_of_first_scalar(bytes);
    let rest = pop_first_scalar(bytes);
    if k - 1 < l {
        assert(k == 1 && l == 1);
        assert(is_char_boundary(rest, 0));
    } else {
        assert(rest[k - l - 1] == bytes[k - 1]);
        lemma_after_newline_is_boundary(rest, k - l);
    }
}

/// A line start of valid UTF-8 text is a character boundary.
proof fn lemma_line_start_is_boundary(bytes: Seq<u8>, k: int)
    requires
        valid_utf8(bytes),
        0 <= k <= bytes.len(),
        is_line_start(bytes, k),
    ensures
        is_char_boundary(bytes, k),
{
    if k == 0 {
        is_char_boundary_start_end_of_seq(bytes);
    } else {
        lemma_after_newline_is_boundary(bytes, k);
    }
}

/// A line within a source file.
pub struct Line {
    /// The line number.
    pub number: usize,
    /// The byte range of the line in the source.
    pub range: Range<usize>,
}

/// A single source file.
pub struct SimpleFile<Origin> {
    /// The origin of the file.
    origin: Origin,
    /// The source code of the file.
    source: String,
    /// The starting byte indices in the source code.
    line_starts: Vec<usize>,
}

impl<Origin> SimpleFile<Origin> {
    /// The origin the file was created with.
    pub closed spec fn spec_origin(&self) -> Origin {
        self.origin
    }

    /// The text of the file.
    pub closed spec fn text(&self) -> Seq<char> {
        self.source@
    }

    /// The UTF-8 bytes of the file.
    pub open spec fn bytes(&self) -> Seq<u8> {
        encode_utf8(self.text())
    }

    /// The start offsets of the file's lines.
    pub closed spec fn starts(&self) -> Seq<usize> {
        self.line_starts@
    }

    /// The line starts are those of the source, and the source's length fits in
    /// a `usize` with room for a one-past-the-end position.
    pub open spec fn wf(&self) -> bool {
        &&& are_line_starts(self.bytes(), self.starts())
        &&& self.bytes().len() < usize::MAX
        &&& self.starts().len() <= self.bytes().len() + 1
    }

    /// Create a new source file.
    pub fn new(origin: Origin, source: &str) -> (r: SimpleFile<Origin>)
        requires
            source.spec_bytes().len() < usize::MAX,
        ensures
            r.wf(),
            r.spec_origin() == origin,
            r.text() == source@,
    {
        let line_starts = line_starts(source);
        SimpleFile { origin, source: source.to_owned(), line_starts }
    }

    /// Return the origin of the file.
    pub fn origin(&self) -> (r: &Origin)
        ensures
            *r == self.spec_origin(),
    {
        &self.origin
    }

    /// Return the source of the file.
    pub fn source(&self) -> (r: &String)
        ensures
            r@ == self.text(),
    {
        &self.source
    }

    /// Return the start offsets of the file's lines.
    pub fn line_starts(&self) -> (r: &Vec<usize>)
        ensures
            r@ == self.starts(),
    {
        &self.line_starts
    }

    /// The byte offset at which the line at `line_index` starts.
    pub fn line_start(&self, line_index: usize) -> (r: Option<usize>)
        requires
            self.wf(),
        ensures
            match line_start_of(self.starts(), self.bytes().len(), line_index as int) {
                Some(s) => r == Some(s as usize),
                None => r is None,
            },
    {
        if line_index < self.line_starts.len() {
            Some(self.line_starts[line_index])
        } else if line_index == self.line_starts.len() {
            Some(self.source.as_str().len())
        } else {
            None
        }
    }

    /// The byte range of the line at `line_index`, up to the next line's start.
    pub fn line_range(&self, line_index: usize) -> (r: Option<Range<usize>>)
        requires
            self.wf(),
        ensures
            line_index < self.starts().len() <==> r is Some,
            r is Some ==> r->0.start == line_start_of(self.starts(), self.bytes().len(), line_index as int)->0
                && r->0.end == line_start_of(self.starts(), self.bytes().len(), line_index + 1)->0,
    {
        let line_start = match self.line_start(line_index) {
            Some(s) => s,
            None => return None,
        };
        if line_index == self.line_starts.len() {
            return None;
        }
        let next_line_start = match self.line_start(line_index + 1) {
            Some(s) => s,
            None => return None,
        };
        Some(line_start..next_line_start)
    }

    /// The index of the line that holds `byte_index`; `None` past the end of the source.
    pub fn line_index(&self, byte_index: usize) -> (r: Option<usize>)
        requires
            self.wf(),
        ensures
            byte_index <= self.bytes().len() <==> r is Some,
            r is Some ==> is_line_of(self.starts(), byte_index as int, r->0 as int),
    {
        proof {
            lemma_line_starts_bounds(self.bytes(), self.starts());
        }
        if byte_index > self.source.as_str().len() {
            return None;
        }
        let starts = &self.line_starts;
        let mut lo: usize = 0;
        let mut hi: usize = starts.len();
        while hi - lo > 1
            invariant
                starts@ == self.starts(),
                are_line_starts(self.bytes(), self.starts()),
                lo < hi <= starts.len(),
                starts[lo as int] <= byte_index,
                hi < starts.len() ==> byte_index < starts[hi as int],
            decreases hi - lo,
        {
            let mid = lo + (hi - lo) / 2;
            if starts[mid] <= byte_index {
                lo = mid;
            } else {
                hi = mid;
            }
        }
        proof {
            if lo + 1 < starts.len() {
                assert(starts[hi as int] == starts[lo + 1]);
            }
        }
        Some(lo)
    }

    /// The bytes of line `k`, from its start up to the next line's start.
    pub open spec fn line_bytes(&self, k: int) -> Seq<u8> {
        self.bytes().subrange(
            line_start_of(self.starts(), self.bytes().len(), k)->0 as int,
            line_start_of(self.starts(), self.bytes().len(), k + 1)->0 as int,
        )
    }

    /// The text of the line at `line_index`, line terminator included.
    pub fn line_source(&self, line_index: usize) -> (r: Option<&str>)
        requires
            self.wf(),
        ensures
            line_index < self.starts().len() <==> r is Some,
            r is Some ==> r->0.spec_bytes() == self.line_bytes(line_index as int),
    {
        let range = match self.line_range(line_index) {
            Some(range) => range,
            None => return None,
        };
        let src = self.source.as_str();
        let ghost bytes = src.spec_bytes();
        proof {
            lemma_line_starts_bounds(self.bytes(), self.starts());
            encode_utf8_valid_utf8(self.source@);
            if line_index + 1 < self.starts().len() {
                assert(is_line_start(bytes, self.starts()[line_index + 1] as int));
                lemma_line_start_is_boundary(bytes, range.end as int);
            } else {
                is_char_boundary_start_end_of_seq(bytes);
            }
        }
        let (head, _) = src.split_at(range.end);
        proof {
            valid_utf8_split(bytes, range.end as int);
            assert(is_line_start(bytes, self.starts()[line_index as int] as int));
            if range.start > 0 {
                assert(head.spec_bytes()[range.start - 1] == bytes[range.start - 1]);
            }
            lemma_line_start_is_boundary(head.spec_bytes(), range.start as int);
        }
        let (_, line) = head.split_at(range.start);
        proof {
            assert(line.spec_bytes() =~= self.line_bytes(line_index as int));
        }
        Some(line)
    }

    /// The line at `line_index`, numbered from one.
    pub fn line(&self, line_index: usize) -> (r: Option<Line>)
        requires
            self.wf(),
        ensures
            line_index < self.starts().len() <==> r is Some,
            r is Some ==> r->0.number == line_index + 1
                && r->0.range.start == line_start_of(self.starts(), self.bytes().len(), line_index as int)->0
                && r->0.range.end == line_start_of(self.starts(), self.bytes().len(), line_index + 1)->0,
    {
        match self.line_range(line_index) {
            Some(range) => Some(Line { range, number: line_index + 1 }),
            None => None,
        }
    }
}

/// Every byte offset up to the end of the source lies in the range of the line
/// that holds it; the end of the source itself belongs to the final line.
pub proof fn lemma_line_holds_offset<Origin>(file: SimpleFile<Origin>, b: int, k: int)
    requires
        file.wf(),
        0 <= b <= file.bytes().len(),
        is_line_of(file.starts(), b, k),
    ensures
        line_start_of(file.starts(), file.bytes().len(), k)->0 <= b,
        b < line_start_of(file.starts(), file.bytes().len(), k + 1)->0
            || (b == file.bytes().len() && k == file.starts().len() - 1),
{
}

/// A file database that can store multiple source files.
pub struct SimpleFiles<Origin> {
    files: Vec<SimpleFile<Origin>>,
}

impl<Origin> SimpleFiles<Origin> {
    /// The files held, indexed by their handles.
    pub closed spec fn spec_files(&self) -> Seq<SimpleFile<Origin>> {
        self.files@
    }

    /// Every file held is well formed.
    pub open spec fn wf(&self) -> bool {
        forall|i: int| 0 <= i < self.spec_files().len() ==> (#[trigger] self.spec_files()[i]).wf()
    }

    /// Create a new files database.
    pub fn new() -> (r: SimpleFiles<Origin>)
        ensures
            r.wf(),
            r.spec_files().len() == 0,
    {
        SimpleFiles { files: Vec::new() }
    }

    /// Add a file to the database, returning the handle that can be used to
    /// refer to it again.
    pub fn add(&mut self, origin: Origin, source: &str) -> (file_id: usize)
        requires
            old(self).wf(),
            source.spec_bytes().len() < usize::MAX,
        ensures
            final(self).wf(),
            file_id == old(self).spec_files().len(),
            final(self).spec_files().len() == file_id + 1,
            final(self).spec_files().take(file_id as int) == old(self).spec_files(),
            final(self).spec_files()[file_id as int].spec_origin() == origin,
            final(self).spec_files()[file_id as int].text() == source@,
    {
        let file_id = self.files.len();
        self.files.push(SimpleFile::new(origin, source));
        proof {
            assert(self.files@.take(file_id as int) =~= old(self).files@);
            assert forall|i: int| 0 <= i < self.spec_files().len() implies (
            #[trigger] self.spec_files()[i]).wf() by {
                if i < file_id {
                    assert(self.spec_files()[i] == old(self).spec_files()[i]);
                }
            }
        }
        file_id
    }

    /// Get the file corresponding to the given id.
    pub fn get(&self, file_id: usize) -> (r: Option<&SimpleFile<Origin>>)
        ensures
            file_id < self.spec_files().len() <==> r is Some,
            r is Some ==> *r->0 == self.spec_files()[file_id as int],
    {
        if file_id < self.files.len() {
            Some(&self.files[file_id])
        } else {
            None
        }
    }

}

/// What a source table knows of one file: its origin, its UTF-8 bytes, and
/// the starts of its lines.
pub struct FileModel {
    pub origin: Seq<char>,
    pub bytes: Seq<u8>,
    pub starts: Seq<usize>,
}

impl FileModel {
    /// The bytes are valid UTF-8 whose length fits in a `usize` with room for a
    /// one-past-the-end position, and the starts are their line starts.
    pub open spec fn wf(&self) -> bool {
        &&& valid_utf8(self.bytes)
        &&& are_line_starts(self.bytes, self.starts)
        &&& self.bytes.len() < usize::MAX
        &&& self.starts.len() <= self.bytes.len() + 1
    }

    /// The byte offset at which line `k` begins.
    pub open spec fn line_begin(&self, k: int) -> int {
        line_start_of(self.starts, self.bytes.len(), k)->0 as int
    }

    /// The bytes of line `k`, from its start up to the next line's start.
    pub open spec fn line_bytes(&self, k: int) -> Seq<u8> {
        self.bytes.subrange(self.line_begin(k), self.line_begin(k + 1))
    }
}

/// The model of a file held as a `SimpleFile`.
pub open spec fn simple_model(f: SimpleFile<String>) -> FileModel {
    FileModel { origin: f.spec_origin()@, bytes: f.bytes(), starts: f.starts() }
}

/// A table of source files, addressed by id: the source storage that
/// rendering reads from.
pub trait Files {
    /// The table's own consistency condition.
    spec fn inv(&self) -> bool;

    /// The file with the given id, if the table has one.
    spec fn file_model(&self, id: usize) -> Option<FileModel>;

    /// Every file of a consistent table is well formed.
    proof fn lemma_models_wf(&self)
        requires
            self.inv(),
        ensures
            forall|id: usize| #[trigger] self.file_model(id) is Some ==> self.file_model(id)->0.wf(),
    ;

    /// The origin of a file.
    fn origin(&self, id: usize) -> (r: Option<String>)
        requires
            self.inv(),
        ensures
            self.file_model(id) is Some <==> r is Some,
            r is Some ==> r->0@ == self.file_model(id)->0.origin,
    ;

    /// The source of a file.
    fn source(&self, id: usize) -> (r: Option<String>)
        requires
            self.inv(),
        ensures
            self.file_model(id) is Some <==> r is Some,
            r is Some ==> encode_utf8(r->0@) == self.file_model(id)->0.bytes,
    ;

    /// The index of the line that holds a byte index; `None` for an unknown
    /// file or an index past the end of the source.
    fn line_index(&self, id: usize, byte_index: usize) -> (r: Option<usize>)
        requires
            self.inv(),
        ensures
            (self.file_model(id) is Some && byte_index <= self.file_model(id)->0.bytes.len())
                <==> r is Some,
            r is Some ==> is_line_of(self.file_model(id)->0.starts, byte_index as int, r->0 as int),
    ;

    /// The line at the given index, numbered from one.
    fn line(&self, id: usize, line_index: usize) -> (r: Option<Line>)
        requires
            self.inv(),
        ensures
            (self.file_model(id) is Some && line_index < self.file_model(id)->0.starts.len())
                <==> r is Some,
            r is Some ==> r->0.number == line_index + 1 && r->0.range.start
                == self.file_model(id)->0.line_begin(line_index as int) && r->0.range.end
                == self.file_model(id)->0.line_begin(line_index + 1),
    ;

    /// The text of the line at the given index, line terminator included.
    fn line_source(&self, id: usize, line_index: usize) -> (r: Option<String>)
        requires
            self.inv(),
        ensures
            (self.file_model(id) is Some && line_index < self.file_model(id)->0.starts.len())
                <==> r is Some,
            r is Some ==> encode_utf8(r->0@) == self.file_model(id)->0.line_bytes(line_index as int),
    ;
}

impl Files for SimpleFiles<String> {
    open spec fn inv(&self) -> bool {
        self.wf()
    }

    open spec fn file_model(&self, id: usize) -> Option<FileModel> {
        if id < self.spec_files().len() {
            Some(simple_model(self.spec_files()[id as int]))
        } else {
            None
        }
    }

    proof fn lemma_models_wf(&self) {
        assert forall|id: usize| #[trigger] self.file_model(id) is Some implies self.file_model(
            id,
        )->0.wf() by {
            let f = self.spec_files()[id as int];
            assert(f.wf());
            encode_utf8_valid_utf8(f.text());
        }
    }

    fn origin(&self, id: usize) -> (r: Option<String>) {
        match self.get(id) {
            Some(file) => Some(file.origin().clone()),
            None => None,
        }
    }

    fn source(&self, id: usize) -> (r: Option<String>) {
        match self.get(id) {
            Some(file) => Some(file.source().clone()),
            None => None,
        }
    }

    fn line_index(&self, id: usize, byte_index: usize) -> (r: Option<usize>) {
        match self.get(id) {
            Some(file) => {
                proof {
                    assert(self.spec_files()[id as int].wf());
                }
                file.line_index(byte_index)
            },
            None => None,
        }
    }

    fn line(&self, id: usize, line_index: usize) -> (r: Option<Line>) {
        match self.get(id) {
            Some(file) => {
                proof {
                    assert(self.spec_files()[id as int].wf());
                }
                file.line(line_index)
            },
            None => None,
        }
    }

    fn line_source(&self, id: usize, line_index: usize) -> (r: Option<String>) {
        match self.get(id) {
            Some(file) => {
                proof {
                    assert(self.spec_files()[id as int].wf());
                }
                match file.line_source(line_index) {
                    Some(text) => Some(text.to_owned()),
                    None => None,
                }
            },
            None => None,
        }
    }
}

} // verus!
