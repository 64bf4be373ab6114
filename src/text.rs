//! The text buffer: a piece table and a line index kept in step, addressed
//! by `(row, column)`.
use crate::btree::{BTreeLineIndex, LineRangeIter};
use crate::cursor::{pos_le, Cursor, Position};
use crate::enums::MathError;
use crate::errors::{TextBufferError, TextBufferResult};
use crate::lines::{
    lemma_insert_text, lemma_lines_len, lemma_lines_sum, lemma_remove_text, line_start, lines_of,
    sum, NEWLINE,
};
use crate::mapped::MmapFile;
use crate::piece_table::{clipped, cut_out, joined, lossy_text_is, spliced_in, utf8_lossy, PieceTable};
use vstd::prelude::*;
use vstd::string::StringSliceAdditionalSpecFns;

verus! {

#[verifier::external_type_specification]
#[verifier::external_body]
pub struct ExPathBuf(std::path::PathBuf);

/// The line ending a file uses.
#[derive(Clone, Copy, Debug, PartialEq, Eq, Structural)]
pub enum LineEnding {
    LF,
    CRLF,
}

impl LineEnding {
    pub fn as_str(self) -> (r: &'static str)
        ensures
            self == LineEnding::LF ==> r@ == seq!['\n'],
            self == LineEnding::CRLF ==> r@ == seq!['\r', '\n'],
    {
        match self {
            LineEnding::LF => {
                proof {
                    reveal_strlit("\n");
                }
                "\n"
            },
            LineEnding::CRLF => {
                proof {
                    reveal_strlit("\r\n");
                }
                "\r\n"
            },
        }
    }
}

/// The carriage-return byte.
pub const CARRIAGE_RETURN: u8 = 13;

/// Byte `i` is the first newline of `bytes`.
pub open spec fn first_newline_at(bytes: Seq<u8>, i: int) -> bool {
    0 <= i < bytes.len() && bytes[i] == NEWLINE && forall|j: int| 0 <= j < i ==> bytes[j] != NEWLINE
}

/// The line ending that `bytes` uses, judged by its first newline: CRLF
/// when that newline follows a `\r`, LF otherwise (also when there is no
/// newline at all; a lone `\r` counts as no line break).
pub open spec fn ending_of(bytes: Seq<u8>) -> LineEnding {
    if exists|i: int| #[trigger] first_newline_at(bytes, i) && 0 < i && bytes[i - 1] == CARRIAGE_RETURN {
        LineEnding::CRLF
    } else {
        LineEnding::LF
    }
}

pub fn detect_line_ending(bytes: &[u8]) -> (r: LineEnding)
    ensures
        r == ending_of(bytes@),
{
    match crate::scan::find_newline(bytes) {
        Some(i) => {
            proof {
                assert(first_newline_at(bytes@, i as int));
            }
            if i > 0 && bytes[i - 1] == CARRIAGE_RETURN {
                LineEnding::CRLF
            } else {
                proof {
                    assert forall|k: int| #[trigger] first_newline_at(bytes@, k) implies k == i by {
                        if k < i {
                            assert(bytes@[k] != NEWLINE);
                        } else if k > i {
                            assert(bytes@[i as int] != NEWLINE);
                        }
                    }
                }
                LineEnding::LF
            }
        },
        None => LineEnding::LF,
    }
}

/// The byte offset of `(row, col)` in a text with line lengths `l`, when
/// the row exists and the column is at most its length.
pub open spec fn offset_of(l: Seq<nat>, row: int, col: int) -> Option<int> {
    if 0 <= row < l.len() && 0 <= col <= l[row] {
        Some(line_start(l, row) + col)
    } else {
        None
    }
}

/// Where the cursor lands after inserting text with line lengths `n` at
/// `(row, col)`.
pub open spec fn landing(row: int, col: int, n: Seq<nat>) -> (int, int) {
    if n.len() <= 1 {
        (row, col + n[0])
    } else {
        (row + n.len() - 1, n.last() as int)
    }
}

/// A document held as a piece table, with a line index in step with it.
#[derive(Debug)]
pub struct TextBuffer {
    piece_table: PieceTable,
    line_index: BTreeLineIndex,
    pub line_ending: LineEnding,
    is_dirty: bool,
    filepath: Option<std::path::PathBuf>,
}

impl TextBuffer {
    /// The document's bytes.
    pub closed spec fn doc(self) -> Seq<u8> {
        self.piece_table.doc()
    }

    /// The lengths of the document's lines, as the line index holds them.
    pub closed spec fn line_lens(self) -> Seq<nat> {
        self.line_index.line_lens()
    }

    pub closed spec fn ending(self) -> LineEnding {
        self.line_ending
    }

    pub closed spec fn dirty(self) -> bool {
        self.is_dirty
    }

    pub closed spec fn has_path(self) -> bool {
        self.filepath is Some
    }

    /// Both structures are sound and the line index describes exactly the
    /// lines of the piece table's text.
    pub closed spec fn wf(self) -> bool {
        &&& self.piece_table.wf()
        &&& self.line_index.wf()
        &&& self.line_index.root.bounded()
        &&& self.line_index.line_lens() == lines_of(self.piece_table.doc())
    }

    /// The root of the line index.
    pub closed spec fn index_root(self) -> crate::node::Node {
        self.line_index.root
    }

    /// In every sound buffer the line index is a tree whose summaries match
    /// its lines and whose nodes hold at most `MAX_CHILDREN` entries each.
    pub proof fn lemma_index_tree(self)
        requires
            self.wf(),
        ensures
            self.index_root().wf(),
            self.index_root().bounded(),
            self.index_root().line_seq() == lines_of(self.doc()),
    {
    }

    /// The index always describes the text.
    pub proof fn lemma_index_matches(self)
        requires
            self.wf(),
        ensures
            self.line_lens() == lines_of(self.doc()),
            sum(self.line_lens()) == self.doc().len(),
            self.line_lens().len() >= 1,
            self.doc().len() <= u64::MAX,
    {
        lemma_lines_sum(self.doc());
        lemma_lines_len(self.doc());
    }

    /// A buffer over the bytes of `mapped`, tied to `path` if one is given.
    pub fn from_mapped(mapped: MmapFile, path: Option<std::path::PathBuf>) -> (r: TextBuffer)
        ensures
            r.wf(),
            r.add_len() == 0,
            r.doc() == mapped@,
            !r.dirty(),
            r.has_path() == path is Some,
            r.ending() == ending_of(mapped@),
    {
        let bytes = mapped.as_slice();
        let line_ending = detect_line_ending(bytes);
        let line_index = BTreeLineIndex::new(bytes).unwrap();
        let piece_table = PieceTable::new(mapped).unwrap();
        TextBuffer { piece_table, line_index, line_ending, is_dirty: false, filepath: path }
    }

    /// An empty buffer, not tied to a file.
    pub fn new() -> (r: TextBufferResult<TextBuffer>)
        ensures
            r matches Ok(b) ==> b.wf() && b.doc().len() == 0 && !b.dirty() && !b.has_path() && b.add_len() == 0,
            r matches Err(e) ==> e == TextBufferError::CreationError,
    {
        let empty: [u8; 0] = [];
        match MmapFile::from_bytes(empty.as_slice()) {
            Some(m) => Ok(TextBuffer::from_mapped(m, None)),
            None => Err(TextBufferError::CreationError),
        }
    }

    /// A buffer holding `text`, not tied to a file.
    pub fn new_with_text(text: &str) -> (r: TextBufferResult<TextBuffer>)
        ensures
            r matches Ok(b) ==> b.wf() && b.doc() == text.spec_bytes() && !b.dirty() && !b.has_path() && b.add_len() == 0
                && b.ending() == ending_of(text.spec_bytes()),
            r matches Err(e) ==> e == TextBufferError::CreationError,
    {
        match MmapFile::from_bytes(text.as_bytes()) {
            Some(m) => Ok(TextBuffer::from_mapped(m, None)),
            None => Err(TextBufferError::CreationError),
        }
    }

    /// Replaces the whole buffer by the bytes of `mapped`, tied to `path`.
    pub fn replace_with(&mut self, mapped: MmapFile, path: std::path::PathBuf)
        ensures
            final(self).wf(),
            final(self).doc() == mapped@,
            final(self).has_path(),
            !final(self).dirty(),
            final(self).add_len() == 0,
    {
        *self = TextBuffer::from_mapped(mapped, Some(path));
    }

    /// Sets the file that `save` writes to.
    pub fn set_path(&mut self, path: std::path::PathBuf)
        requires
            old(self).wf(),
        ensures
            final(self).wf(),
            final(self).doc() == old(self).doc(),
            final(self).has_path(),
            final(self).dirty() == old(self).dirty(),
    {
        self.filepath = Some(path);
    }

    /// After the text was written out and the written file mapped again:
    /// the mapped file becomes the original, the edit journals go, and the
    /// buffer is clean.
    pub fn finish_save(&mut self, saved: MmapFile)
        requires
            old(self).wf(),
        ensures
            final(self).wf(),
            final(self).doc() == saved@,
            !final(self).dirty(),
            final(self).has_path() == old(self).has_path(),
            final(self).add_len() == 0,
    {
        let size = saved.len();
        let line_index = BTreeLineIndex::new(saved.as_slice()).unwrap();
        proof {
            assert(saved@.len() == size);
        }
        self.piece_table.reset_to_mmap(saved);
        self.line_index = line_index;
        self.is_dirty = false;
    }

    /// The document as borrowed chunks, in order.
    pub fn iter_bytes(&self) -> (r: Vec<&[u8]>)
        requires
            self.wf(),
        ensures
            joined(r@) == self.doc(),
    {
        self.piece_table.iter_bytes()
    }

    /// Number of lines, counting the empty line after a final newline.
    pub fn line_count(&self) -> (r: usize)
        requires
            self.wf(),
        ensures
            r == self.line_lens().len(),
            r == 1 + crate::lines::count_newlines(self.doc()),
    {
        proof {
            lemma_lines_len(self.doc());
        }
        self.line_index.line_count()
    }

    /// Length of line `line_idx`, counting its newline.
    pub fn get_line_len_at(&self, line_idx: usize) -> (r: Option<u64>)
        requires
            self.wf(),
        ensures
            r.is_some() <==> line_idx < self.line_lens().len(),
            r matches Some(v) ==> v == self.line_lens()[line_idx as int],
    {
        self.line_index.get_line_length_at(line_idx)
    }

    /// Length of the document in bytes.
    pub fn byte_length(&self) -> (r: u64)
        requires
            self.wf(),
        ensures
            r == self.doc().len(),
    {
        proof {
            lemma_lines_sum(self.doc());
        }
        self.line_index.byte_len()
    }

    pub fn is_dirty(&self) -> (r: bool)
        ensures
            r == self.dirty(),
    {
        self.is_dirty
    }

    pub fn path(&self) -> (r: Option<&std::path::PathBuf>)
        ensures
            r is Some == self.has_path(),
    {
        self.filepath.as_ref()
    }

    /// The file that `save` writes to; refused when the buffer has none.
    pub fn save_target(&self) -> (r: TextBufferResult<&std::path::PathBuf>)
        ensures
            r is Ok <==> self.has_path(),
            r is Err ==> r == Err::<&std::path::PathBuf, TextBufferError>(TextBufferError::MissingPath),
    {
        match &self.filepath {
            Some(p) => Ok(p),
            None => Err(TextBufferError::MissingPath),
        }
    }

    /// Byte offset of `(row, col)`, when the row exists and the column is at
    /// most the row's length (its newline included).
    pub fn point_to_abs_offset(&self, row: usize, col: usize) -> (r: Option<u64>)
        requires
            self.wf(),
        ensures
            r matches Some(v) ==> offset_of(self.line_lens(), row as int, col as int) == Some(v as int),
            r is None ==> offset_of(self.line_lens(), row as int, col as int) is None,
    {
        proof {
            lemma_lines_sum(self.doc());
        }
        let start = self.line_index.root.line_idx_to_abs_idx(row)?;
        let len = self.line_index.root.get_line_length_at(row)?;
        if col as u64 > len {
            return None;
        }
        proof {
            crate::lines::lemma_sum_take_step(self.line_lens(), row as int);
            crate::lines::lemma_sum_take_le(self.line_lens(), row + 1);
        }
        Some(start + col as u64)
    }

    /// The bytes of line `line_idx` (its newline included).
    fn line_bytes(&self, line_idx: usize) -> (r: Option<Vec<u8>>)
        requires
            self.wf(),
        ensures
            line_idx >= self.line_lens().len() ==> r is None,
            line_idx < self.line_lens().len() ==> (r matches Some(v) && v@ == line_text(self.doc(), self.line_lens(), line_idx as int)),
    {
        let len = self.line_index.root.get_line_length_at(line_idx)?;
        let start = self.line_index.root.line_idx_to_abs_idx(line_idx)?;
        proof {
            lemma_lines_sum(self.doc());
            crate::lines::lemma_sum_take_step(self.line_lens(), line_idx as int);
            crate::lines::lemma_sum_take_le(self.line_lens(), line_idx + 1);
        }
        let bytes = self.piece_table.get_bytes_at(start, len).unwrap();
        Some(bytes)
    }

    /// The whole document as text, with invalid UTF-8 replaced.
    pub fn contents(&self) -> (r: String)
        requires
            self.wf(),
        ensures
            lossy_text_is(r@, self.doc()),
    {
        let len = self.piece_table.len();
        let s = self.piece_table.get_string(0, len).unwrap();
        proof {
            assert(clipped(self.doc(), 0, len as int) =~= self.doc());
        }
        s
    }

    /// Line `line_idx` as text, its newline included.
    pub fn get_line(&self, line_idx: usize) -> (r: Option<String>)
        requires
            self.wf(),
        ensures
            line_idx >= self.line_lens().len() ==> r is None,
            line_idx < self.line_lens().len() ==> (r matches Some(s) && lossy_text_is(s@, 
                line_text(self.doc(), self.line_lens(), line_idx as int),
            )),
    {
        let bytes = self.line_bytes(line_idx)?;
        Some(crate::piece_table::lossy_string(bytes.as_slice()))
    }

    /// Line `line_idx` as text, without a trailing `\r\n` or `\n`.
    pub fn get_line_stripped(&self, line_idx: usize) -> (r: Option<String>)
        requires
            self.wf(),
        ensures
            line_idx >= self.line_lens().len() ==> r is None,
            line_idx < self.line_lens().len() ==> (r matches Some(s) && lossy_text_is(s@, 
                strip_line_end(
                    line_text(self.doc(), self.line_lens(), line_idx as int),
                ),
            )),
    {
        let bytes = self.line_bytes(line_idx)?;
        let n = bytes.len();
        let keep: usize = if n >= 2 && bytes[n - 2] == CARRIAGE_RETURN && bytes[n - 1] == NEWLINE {
            n - 2
        } else if n >= 1 && bytes[n - 1] == NEWLINE {
            n - 1
        } else {
            n
        };
        let body = vstd::slice::slice_subrange(bytes.as_slice(), 0, keep);
        proof {
            assert(body@ =~= strip_line_end(bytes@));
        }
        Some(crate::piece_table::lossy_string(body))
    }

    /// All lines with their byte ranges.
    pub fn iter(&self) -> (r: LineRangeIter)
        requires
            self.wf(),
        ensures
            r.next_idx == 0,
            r.items@ == crate::node::line_triples(self.line_lens(), 0, 0, 0, self.line_lens().len() as int),
    {
        let count = self.line_index.line_count();
        self.line_index.lines(0, count)
    }

    /// Lines `start_line..end_line` with their byte ranges.
    pub fn lines(&self, start_line: usize, end_line: usize) -> (r: LineRangeIter)
        requires
            self.wf(),
        ensures
            r.next_idx == 0,
            r.items@ == crate::node::line_triples(self.line_lens(), 0, 0, start_line as int, end_line as int),
    {
        self.line_index.lines(start_line, end_line)
    }
}

/// The bytes of line `i` of `d`, whose line lengths are `l`.
pub open spec fn line_text(d: Seq<u8>, l: Seq<nat>, i: int) -> Seq<u8> {
    d.subrange(line_start(l, i) as int, (line_start(l, i) + l[i]) as int)
}

/// The lines of a text with part of `b` inserted are no more than with
/// all of `b` inserted.
proof fn lemma_partial_insert_lines(d: Seq<u8>, off: int, b: Seq<u8>, s: int)
    requires
        0 <= off <= d.len(),
        0 <= s <= b.len(),
    ensures
        lines_of(spliced_in(d, off, b.take(s))).len() <= lines_of(d).len() + lines_of(b).len() - 1,
        lines_of(spliced_in(d, off, b.take(s))).len() == lines_of(d).len() + lines_of(b.take(s)).len() - 1,
{
    lemma_insert_text(d, off, b.take(s));
    lemma_lines_sum(d);
    lemma_lines_len(d);
    lemma_lines_len(b.take(s));
    crate::lines::lemma_insert_lines_size(lines_of(d), off, lines_of(b.take(s)));
    assert(b.take(s) + b.skip(s) =~= b);
    crate::lines::lemma_lines_concat(b.take(s), b.skip(s));
    lemma_lines_len(b.skip(s));
}

/// Inserts the line structure of `bytes` into `index` one line at a time,
/// so that every node keeps at most `MAX_CHILDREN` entries.
fn insert_by_lines(index: &mut BTreeLineIndex, Ghost(d): Ghost<Seq<u8>>, off: u64, bytes: &[u8])
    requires
        old(index).wf(),
        old(index).root.bounded(),
        old(index).line_lens() == lines_of(d),
        off <= d.len(),
        d.len() + bytes@.len() <= u64::MAX,
        lines_of(d).len() + lines_of(bytes@).len() - 1 <= usize::MAX,
    ensures
        final(index).wf(),
        final(index).root.bounded(),
        final(index).line_lens() == lines_of(spliced_in(d, off as int, bytes@)),
{
    let n = bytes.len();
    let mut start: usize = 0;
    proof {
        assert(spliced_in(d, off as int, bytes@.take(0)) =~= d);
    }
    while start < n
        invariant
            n == bytes@.len(),
            start <= n,
            off <= d.len(),
            d.len() + bytes@.len() <= u64::MAX,
            lines_of(d).len() + lines_of(bytes@).len() - 1 <= usize::MAX,
            index.wf(),
            index.root.bounded(),
            index.line_lens() == lines_of(spliced_in(d, off as int, bytes@.take(start as int))),
        decreases n - start,
    {
        let rest = vstd::slice::slice_subrange(bytes, start, n);
        let end: usize = match crate::scan::find_newline(rest) {
            Some(i) => start + i + 1,
            None => n,
        };
        let chunk = vstd::slice::slice_subrange(bytes, start, end);
        let ghost cur = spliced_in(d, off as int, bytes@.take(start as int));
        proof {
            let c = chunk@;
            if c.len() > 0 && c.last() == crate::lines::NEWLINE && forall|j: int| 0 <= j < c.len() - 1 ==> c[j]
                != crate::lines::NEWLINE {
                crate::lines::lemma_lines_one_newline(c);
            } else {
                crate::lines::lemma_lines_no_newline(c);
            }
            lemma_lines_len(c);
            lemma_partial_insert_lines(d, off as int, bytes@, end as int);
            lemma_partial_insert_lines(d, off as int, bytes@, start as int);
            lemma_lines_sum(cur);
            assert(spliced_in(cur, off + start, c) =~= spliced_in(d, off as int, bytes@.take(end as int)));
            lemma_insert_text(cur, off + start, c);
            assert(cur.len() == d.len() + start);
            lemma_lines_len(cur);
            crate::lines::lemma_insert_lines_size(lines_of(cur), off + start, lines_of(c));
        }
        let _ = index.insert(off + start as u64, chunk);
        start = end;
    }
    proof {
        assert(bytes@.take(n as int) =~= bytes@);
    }
}

/// A line without its trailing `\r\n` or `\n`.
pub open spec fn strip_line_end(b: Seq<u8>) -> Seq<u8> {
    if b.len() >= 2 && b[b.len() - 2] == CARRIAGE_RETURN && b[b.len() - 1] == NEWLINE {
        b.take(b.len() - 2)
    } else if b.len() >= 1 && b[b.len() - 1] == NEWLINE {
        b.take(b.len() - 1)
    } else {
        b
    }
}


/// The offsets that a selection spans, when both of its ends name places
/// in the text.
pub open spec fn span_of(l: Seq<nat>, c: Cursor) -> Option<(int, int)> {
    match (
        offset_of(l, c.spec_start().row as int, c.spec_start().col as int),
        offset_of(l, c.spec_end().row as int, c.spec_end().col as int),
    ) {
        (Some(a), Some(b)) => Some((a, b)),
        _ => None,
    }
}

/// A named place lies inside the text.
pub proof fn lemma_offset_in_text(l: Seq<nat>, row: int, col: int)
    requires
        offset_of(l, row, col) is Some,
    ensures
        offset_of(l, row, col).unwrap() <= sum(l),
{
    crate::lines::lemma_sum_take_step(l, row);
    crate::lines::lemma_sum_take_le(l, row + 1);
}

/// Positions in document order name offsets in the same order.
pub proof fn lemma_offsets_ordered(l: Seq<nat>, p: Position, q: Position)
    requires
        pos_le(p, q),
        offset_of(l, p.row as int, p.col as int) is Some,
        offset_of(l, q.row as int, q.col as int) is Some,
    ensures
        offset_of(l, p.row as int, p.col as int).unwrap() <= offset_of(l, q.row as int, q.col as int).unwrap(),
{
    if p.row < q.row {
        crate::lines::lemma_sum_take_step(l, p.row as int);
        crate::lines::lemma_sum_take_le(l.take(q.row as int), p.row + 1);
        assert(l.take(q.row as int).take(p.row + 1) =~= l.take(p.row + 1));
    }
}

/// Where an insertion at `(row, col)` of text with line lengths `n` leaves
/// the cursor, if it fits in `usize`.
pub(crate) fn landing_position(row: usize, col: usize, nl: &Vec<u64>) -> (r: Option<Position>)
    requires
        nl@.len() >= 1,
    ensures
        ({
            let (lr, lc) = landing(row as int, col as int, crate::node::nats(nl@));
            &&& (lr <= usize::MAX && lc <= usize::MAX) ==> r == Some(Position { row: lr as usize, col: lc as usize })
            &&& !(lr <= usize::MAX && lc <= usize::MAX) ==> r is None
        }),
{
    let m = nl.len();
    if m == 1 {
        let add = nl[0];
        if add > (usize::MAX - col) as u64 {
            return None;
        }
        Some(Position { row, col: col + add as usize })
    } else {
        let last = nl[m - 1];
        if m - 1 > usize::MAX - row || last > usize::MAX as u64 {
            return None;
        }
        Some(Position { row: row + (m - 1), col: last as usize })
    }
}

impl TextBuffer {
    /// Room in the add buffer and in the length counters for `n` more bytes.
    /// Bytes held by the add buffer.
    pub closed spec fn add_len(self) -> nat {
        self.piece_table.buf@.len()
    }

    /// What `room_for` asks, in terms of the add buffer and the text.
    pub proof fn lemma_room_for(self, n: nat)
        ensures
            self.room_for(n) == (self.add_len() + n <= u64::MAX && self.doc().len() + n <= u64::MAX),
    {
    }

    pub closed spec fn room_for(self, n: nat) -> bool {
        &&& self.piece_table.buf@.len() + n <= u64::MAX
        &&& self.doc().len() + n <= u64::MAX
    }

    /// The selected text, `None` when nothing is selected.
    #[verifier::rlimit(80)]
    pub fn get_cursor_selection(&self, cursor: &Cursor) -> (r: TextBufferResult<Option<String>>)
        requires
            self.wf(),
        ensures
            !cursor.has_selection() ==> r == Ok::<Option<String>, TextBufferError>(None),
            cursor.has_selection() ==> match span_of(self.line_lens(), *cursor) {
                None => r == Err::<Option<String>, TextBufferError>(TextBufferError::PositionToAbsIdxError),
                Some((a, b)) => r matches Ok(Some(s)) && lossy_text_is(s@, self.doc().subrange(a, b)),
            },
    {
        if cursor.no_selection() {
            return Ok(None);
        }
        let (start, end) = cursor.range();
        let a = match self.point_to_abs_offset(start.row, start.col) {
            Some(v) => v,
            None => {
                return Err(TextBufferError::PositionToAbsIdxError);
            },
        };
        let b = match self.point_to_abs_offset(end.row, end.col) {
            Some(v) => v,
            None => {
                return Err(TextBufferError::PositionToAbsIdxError);
            },
        };
        proof {
            lemma_offsets_ordered(self.line_lens(), start, end);
            lemma_offset_in_text(self.line_lens(), end.row as int, end.col as int);
            self.lemma_index_matches();
        }
        let text = self.piece_table.get_string(a, b - a).unwrap();
        proof {
            assert(clipped(self.doc(), a as int, (b - a) as int) =~= self.doc().subrange(a as int, b as int));
        }
        Ok(Some(text))
    }

    /// Removes `[a, b)` from both structures; the line index goes first, as
    /// it is the one that can refuse.
    #[verifier::rlimit(80)]
    fn remove_span(&mut self, a: u64, b: u64) -> (r: Result<(), MathError>)
        requires
            old(self).wf(),
            a <= b <= old(self).doc().len(),
        ensures
            final(self).wf(),
            final(self).has_path() == old(self).has_path(),
            r is Ok <==> (b == a || crate::btree::remove_ok(old(self).line_lens(), a as int, b - a)),
            r is Ok ==> final(self).doc() == cut_out(old(self).doc(), a as int, b - a),
            r is Ok && b > a ==> final(self).dirty(),
            r is Ok && b == a ==> final(self).dirty() == old(self).dirty(),
            r is Err ==> final(self).doc() == old(self).doc() && final(self).dirty() == old(self).dirty(),
            final(self).add_len() == old(self).add_len(),
    {
        proof {
            self.lemma_index_matches();
            lemma_remove_text(self.doc(), a as int, (b - a) as int);
        }
        if b == a {
            proof {
                assert(cut_out(self.doc(), a as int, 0) =~= self.doc());
            }
            return Ok(());
        }
        let len = b - a;
        match self.line_index.remove(a, len) {
            Err(e) => {
                return Err(e);
            },
            Ok(()) => {},
        }
        let _ = self.piece_table.delete(a, len);
        self.is_dirty = true;
        Ok(())
    }

    /// Deletes the selected text; returns where the cursor collapses to
    /// (the start of the selection) and the text that went.
    #[verifier::rlimit(80)]
    pub fn delete_selection(&mut self, cursor: &Cursor) -> (r: TextBufferResult<(Position, String)>)
        requires
            old(self).wf(),
        ensures
            final(self).wf(),
            final(self).has_path() == old(self).has_path(),
            r is Err ==> final(self).doc() == old(self).doc(),
            final(self).add_len() == old(self).add_len(),
            r is Err ==> final(self).dirty() == old(self).dirty(),
            !cursor.has_selection() ==> (r matches Ok((p, t)) && p == cursor.head && t@.len() == 0)
                && final(self).doc() == old(self).doc() && final(self).dirty() == old(self).dirty(),
            cursor.has_selection() ==> match span_of(old(self).line_lens(), *cursor) {
                None => r == Err::<(Position, String), TextBufferError>(TextBufferError::PositionToAbsIdxError),
                Some((a, b)) => {
                    &&& a <= b
                    &&& r is Ok && a < b ==> final(self).dirty()
                    &&& r is Ok <==> (b == a || crate::btree::remove_ok(old(self).line_lens(), a, b - a))
                    &&& r matches Ok((p, t)) ==> p == cursor.spec_start() && lossy_text_is(t@, 
                        old(self).doc().subrange(a, b),
                    ) && final(self).doc() == cut_out(old(self).doc(), a, b - a)
                },
            },
    {
        if cursor.no_selection() {
            return Ok((cursor.head, String::new()));
        }
        let text = match self.get_cursor_selection(cursor) {
            Ok(Some(t)) => t,
            Ok(None) => String::new(),
            Err(e) => {
                return Err(e);
            },
        };
        let (top_left, bottom_right) = cursor.range();
        let a = self.point_to_abs_offset(top_left.row, top_left.col).unwrap();
        let b = self.point_to_abs_offset(bottom_right.row, bottom_right.col).unwrap();
        proof {
            lemma_offsets_ordered(self.line_lens(), top_left, bottom_right);
            lemma_offset_in_text(self.line_lens(), bottom_right.row as int, bottom_right.col as int);
            self.lemma_index_matches();
        }
        match self.remove_span(a, b) {
            Ok(()) => Ok((top_left, text)),
            Err(e) => Err(TextBufferError::from_math(e)),
        }
    }
}


/// Where a backspace at `head` starts deleting: one column back, or on
/// the previous row's last byte (its newline) from column 0.
pub open spec fn back_start(l: Seq<nat>, head: Position) -> Option<Position> {
    if head.col > 0 {
        Some(Position { row: head.row, col: (head.col - 1) as usize })
    } else if 0 < head.row && head.row - 1 < l.len() && l[head.row - 1] <= usize::MAX {
        Some(Position { row: (head.row - 1) as usize, col: if l[head.row - 1] > 0 { (l[head.row - 1] - 1) as usize } else { 0 } })
    } else {
        None
    }
}

/// Where a forward delete at `head` stops: one column on, or at the start
/// of the next row from the row's last byte; `None` at the end of the text
/// or when `head` names no place.
pub open spec fn forward_end(l: Seq<nat>, head: Position) -> Option<Position> {
    if head.row >= l.len() {
        None
    } else if head.row + 1 >= l.len() {
        if head.col < l[head.row as int] {
            Some(Position { row: head.row, col: (head.col + 1) as usize })
        } else {
            None
        }
    } else if head.col + 1 >= l[head.row as int] {
        Some(Position { row: (head.row + 1) as usize, col: 0 })
    } else {
        Some(Position { row: head.row, col: (head.col + 1) as usize })
    }
}

/// Whether deleting from `p` to `q` in a text with lines `l` goes through:
/// both name places, in order, and the line index accepts the removal.
pub open spec fn erase_goes_through(l: Seq<nat>, p: Position, q: Position) -> bool {
    match (offset_of(l, p.row as int, p.col as int), offset_of(l, q.row as int, q.col as int)) {
        (Some(a), Some(b)) => a <= b && (a == b || crate::btree::remove_ok(l, a, b - a)),
        _ => false,
    }
}

/// What deleting from `p` to `q` does to text `d` with lines `l`: the new
/// text and the removed bytes, when both ends name places in order.
pub open spec fn erase(d: Seq<u8>, l: Seq<nat>, p: Position, q: Position) -> Option<(Seq<u8>, Seq<u8>)> {
    match (offset_of(l, p.row as int, p.col as int), offset_of(l, q.row as int, q.col as int)) {
        (Some(a), Some(b)) => if a <= b {
            Some((cut_out(d, a, b - a), d.subrange(a, b)))
        } else {
            None
        },
        _ => None,
    }
}

impl TextBuffer {
    /// Inserts `text` at the cursor, first deleting the selection if there
    /// is one; returns where the cursor lands after the inserted text.
    #[verifier::rlimit(80)]
    pub fn insert(&mut self, cursor: &Cursor, text: &str) -> (r: TextBufferResult<Position>)
        requires
            old(self).wf(),
        ensures
            final(self).wf(),
            final(self).has_path() == old(self).has_path(),
            ({
                let l = old(self).line_lens();
                let d = old(self).doc();
                let n = lines_of(text.spec_bytes());
                &&& !cursor.has_selection() ==> match offset_of(l, cursor.head.row as int, cursor.head.col as int) {
                    None => r == Err::<Position, TextBufferError>(
                        TextBufferError::IndexOutOfBounds(cursor.head.row),
                    ) && final(self).doc() == d,
                    Some(o) => {
                        &&& r is Err ==> final(self).doc() == d
                        &&& r matches Ok(p) ==> final(self).doc() == spliced_in(d, o, text.spec_bytes())
                            && (p.row as int, p.col as int) == landing(
                            cursor.head.row as int,
                            cursor.head.col as int,
                            n,
                        )
                        &&& (old(self).room_for(text.spec_bytes().len()) && l.len() + n.len() - 1 <= usize::MAX
                            && landing(cursor.head.row as int, cursor.head.col as int, n).0 <= usize::MAX
                            && landing(cursor.head.row as int, cursor.head.col as int, n).1 <= usize::MAX)
                            ==> r is Ok
                    },
                }
                &&& cursor.has_selection() ==> match span_of(l, *cursor) {
                    None => r == Err::<Position, TextBufferError>(TextBufferError::PositionToAbsIdxError)
                        && final(self).doc() == d,
                    Some((a, b)) => {
                        &&& r matches Ok(p) ==> final(self).doc() == spliced_in(
                            cut_out(d, a, b - a),
                            a,
                            text.spec_bytes(),
                        ) && (p.row as int, p.col as int) == landing(
                            cursor.spec_start().row as int,
                            cursor.spec_start().col as int,
                            n,
                        )
                        &&& ((b == a || crate::btree::remove_ok(l, a, b - a)) && old(self).room_for(
                            text.spec_bytes().len(),
                        ) && l.len() + n.len() - 1 <= usize::MAX && landing(
                            cursor.spec_start().row as int,
                            cursor.spec_start().col as int,
                            n,
                        ).0 <= usize::MAX && landing(
                            cursor.spec_start().row as int,
                            cursor.spec_start().col as int,
                            n,
                        ).1 <= usize::MAX) ==> r is Ok
                    },
                }
            }),
            r is Ok && text.spec_bytes().len() > 0 ==> final(self).dirty(),
            final(self).add_len() <= old(self).add_len() + text.spec_bytes().len(),
    {
        let ghost l0 = self.line_lens();
        let ghost d0 = self.doc();
        let mut at = cursor.head;
        if !cursor.no_selection() {
            match self.delete_selection(cursor) {
                Ok(_) => {},
                Err(e) => {
                    return Err(e);
                },
            }
            at = cursor.start();
            proof {
                let (a, b) = span_of(l0, *cursor).unwrap();
                lemma_offsets_ordered(l0, cursor.spec_start(), cursor.spec_end());
                lemma_offset_in_text(l0, cursor.spec_end().row as int, cursor.spec_end().col as int);
                lemma_lines_sum(d0);
                lemma_remove_text(d0, a, b - a);
                crate::lines::lemma_offset_survives_remove(l0, at.row as int, at.col as int, a, b - a);
                crate::btree::lemma_remove_lines_size(l0, a, b - a);
            }
        }
        let off = match self.point_to_abs_offset(at.row, at.col) {
            Some(v) => v,
            None => {
                return Err(TextBufferError::IndexOutOfBounds(at.row));
            },
        };
        let bytes = text.as_bytes();
        let nl = crate::scan::newline_lengths(bytes);
        proof {
            assert(crate::node::nats(nl@) =~= lines_of(bytes@));
            lemma_lines_len(bytes@);
            lemma_lines_sum(bytes@);
            self.lemma_index_matches();
            lemma_offset_in_text(self.line_lens(), at.row as int, at.col as int);
        }
        let landed = match landing_position(at.row, at.col, &nl) {
            Some(p) => p,
            None => {
                return Err(TextBufferError::Overflow);
            },
        };
        let n = bytes.len() as u64;
        if n == 0 {
            proof {
                assert(spliced_in(self.doc(), off as int, bytes@) =~= self.doc());
            }
            return Ok(landed);
        }
        let total = self.piece_table.len();
        let used = self.piece_table.buf.len() as u64;
        if n > u64::MAX - used || n > u64::MAX - total {
            return Err(TextBufferError::Overflow);
        }
        let ghost dm = self.doc();
        if self.line_index.line_count() > usize::MAX - (nl.len() - 1) {
            return Err(TextBufferError::Overflow);
        }
        proof {
            lemma_insert_text(dm, off as int, bytes@);
            lemma_lines_sum(dm);
        }
        insert_by_lines(&mut self.line_index, Ghost(dm), off, bytes);
        let _ = self.piece_table.insert(off, bytes);
        self.is_dirty = true;
        Ok(landed)
    }
}


impl TextBuffer {
    /// Deletes from `p` to `q` through a selection cursor.
    fn erase_between(&mut self, p: Position, q: Position) -> (r: TextBufferResult<(Position, String)>)
        requires
            old(self).wf(),
            pos_le(p, q),
            p != q,
        ensures
            final(self).wf(),
            final(self).has_path() == old(self).has_path(),
            r is Err ==> final(self).doc() == old(self).doc(),
            match erase(old(self).doc(), old(self).line_lens(), p, q) {
                None => r is Err,
                Some((nd, gone)) => r matches Ok((at, t)) ==> at == p && final(self).doc() == nd && lossy_text_is(t@, 
                    gone,
                ),
            },
            erase_goes_through(old(self).line_lens(), p, q) ==> r is Ok,
            r is Ok && (erase(old(self).doc(), old(self).line_lens(), p, q) matches Some((nd, gone)) && gone.len()
                > 0) ==> final(self).dirty(),
            r is Err ==> final(self).dirty() == old(self).dirty(),
            final(self).add_len() == old(self).add_len(),
    {
        let c = Cursor::new_selection(p, q);
        proof {
            if offset_of(old(self).line_lens(), p.row as int, p.col as int) is Some && offset_of(
                old(self).line_lens(),
                q.row as int,
                q.col as int,
            ) is Some {
                lemma_offsets_ordered(old(self).line_lens(), p, q);
                let a = offset_of(old(self).line_lens(), p.row as int, p.col as int).unwrap();
                let b = offset_of(old(self).line_lens(), q.row as int, q.col as int).unwrap();
                assert(span_of(old(self).line_lens(), c) == Some((a, b)));
                lemma_offset_in_text(old(self).line_lens(), q.row as int, q.col as int);
                self.lemma_index_matches();
                assert(old(self).doc().subrange(a, b).len() == b - a);
            }
        }
        self.delete_selection(&c)
    }

    /// The Backspace key: deletes the selection, or the byte before the
    /// cursor (the previous row's newline from column 0). Nothing happens
    /// at the very start.
    #[verifier::rlimit(80)]
    pub fn backspace(&mut self, cursor: &Cursor) -> (r: TextBufferResult<(Position, String)>)
        requires
            old(self).wf(),
        ensures
            final(self).wf(),
            final(self).add_len() == old(self).add_len(),
            final(self).has_path() == old(self).has_path(),
            r is Err ==> final(self).doc() == old(self).doc(),
            cursor.has_selection() ==> match span_of(old(self).line_lens(), *cursor) {
                None => r is Err,
                Some((a, b)) => {
                    &&& r matches Ok((p, t)) ==> p == cursor.spec_start() && final(self).doc() == cut_out(
                        old(self).doc(),
                        a,
                        b - a,
                    ) && lossy_text_is(t@, old(self).doc().subrange(a, b))
                    &&& (b == a || crate::btree::remove_ok(old(self).line_lens(), a, b - a)) ==> r is Ok
                    &&& r is Ok && a < b ==> final(self).dirty()
                },
            },
            r is Err ==> final(self).dirty() == old(self).dirty(),
            !cursor.has_selection() && cursor.head.row == 0 && cursor.head.col == 0 ==> (r matches Ok((p, t))
                && p == cursor.head && t@.len() == 0) && final(self).doc() == old(self).doc(),
            !cursor.has_selection() && !(cursor.head.row == 0 && cursor.head.col == 0) ==> match back_start(
                old(self).line_lens(),
                cursor.head,
            ) {
                None => r is Err,
                Some(s) => {
                    &&& match erase(old(self).doc(), old(self).line_lens(), s, cursor.head) {
                        None => r is Err,
                        Some((nd, gone)) => r matches Ok((p, t)) ==> p == s && final(self).doc() == nd && lossy_text_is(t@, gone) && (gone.len() > 0 ==> final(self).dirty()),
                    }
                    &&& erase_goes_through(old(self).line_lens(), s, cursor.head) ==> r is Ok
                },
            },
    {
        if !cursor.no_selection() {
            return self.delete_selection(cursor);
        }
        let head = cursor.head;
        if head.row == 0 && head.col == 0 {
            return Ok((head, String::new()));
        }
        let start = if head.col > 0 {
            Position { row: head.row, col: head.col - 1 }
        } else {
            let prev_row = head.row - 1;
            let prev_len = match self.line_index.get_line_length_at(prev_row) {
                Some(v) => v,
                None => {
                    return Err(TextBufferError::IndexOutOfBounds(prev_row));
                },
            };
            if prev_len > usize::MAX as u64 {
                return Err(TextBufferError::Overflow);
            }
            let col: usize = if prev_len > 0 { (prev_len - 1) as usize } else { 0 };
            Position { row: prev_row, col }
        };
        self.erase_between(start, head)
    }

    /// The Delete key: deletes the selection, or the byte after the cursor
    /// (the row's newline from its last column, joining the next row).
    /// Nothing happens at the end of the text.
    #[verifier::rlimit(80)]
    pub fn delete_forward(&mut self, cursor: &Cursor) -> (r: TextBufferResult<(Position, String)>)
        requires
            old(self).wf(),
        ensures
            final(self).wf(),
            final(self).add_len() == old(self).add_len(),
            final(self).has_path() == old(self).has_path(),
            r is Err ==> final(self).doc() == old(self).doc(),
            cursor.has_selection() ==> match span_of(old(self).line_lens(), *cursor) {
                None => r is Err,
                Some((a, b)) => {
                    &&& r matches Ok((p, t)) ==> p == cursor.spec_start() && final(self).doc() == cut_out(
                        old(self).doc(),
                        a,
                        b - a,
                    ) && lossy_text_is(t@, old(self).doc().subrange(a, b))
                    &&& (b == a || crate::btree::remove_ok(old(self).line_lens(), a, b - a)) ==> r is Ok
                    &&& r is Ok && a < b ==> final(self).dirty()
                },
            },
            r is Err ==> final(self).dirty() == old(self).dirty(),
            !cursor.has_selection() && cursor.head.row >= old(self).line_lens().len() ==> r == Err::<
                (Position, String),
                TextBufferError,
            >(TextBufferError::IndexOutOfBounds(cursor.head.row)),
            !cursor.has_selection() && cursor.head.row < old(self).line_lens().len() && cursor.head.col
                < usize::MAX ==> match forward_end(
                old(self).line_lens(),
                cursor.head,
            ) {
                None => (r matches Ok((p, t)) && p == cursor.head && t@.len() == 0) && final(self).doc() == old(
                    self,
                ).doc(),
                Some(e) => {
                    &&& match erase(old(self).doc(), old(self).line_lens(), cursor.head, e) {
                        None => r is Err,
                        Some((nd, gone)) => r matches Ok((p, t)) ==> p == cursor.head && final(self).doc() == nd
                            && lossy_text_is(t@, gone) && (gone.len() > 0 ==> final(self).dirty()),
                    }
                    &&& erase_goes_through(old(self).line_lens(), cursor.head, e) ==> r is Ok
                },
            },
    {
        if !cursor.no_selection() {
            return self.delete_selection(cursor);
        }
        let head = cursor.head;
        let row_len = match self.line_index.get_line_length_at(head.row) {
            Some(v) => v,
            None => {
                return Err(TextBufferError::IndexOutOfBounds(head.row));
            },
        };
        let count = self.line_index.line_count();
        if head.col == usize::MAX {
            return Err(TextBufferError::Overflow);
        }
        let end = if head.row + 1 >= count {
            if (head.col as u64) < row_len {
                Position { row: head.row, col: head.col + 1 }
            } else {
                return Ok((head, String::new()));
            }
        } else if head.col as u64 + 1 >= row_len {
            Position { row: head.row + 1, col: 0 }
        } else {
            Position { row: head.row, col: head.col + 1 }
        };
        self.erase_between(head, end)
    }
}


/// In every sound buffer the piece table and the line index agree on the
/// length of the text.
pub proof fn lemma_length_agreement(b: TextBuffer)
    requires
        b.wf(),
    ensures
        sum(b.line_lens()) == b.doc().len(),
{
    b.lemma_index_matches();
}

/// The line index counts one line more than the text has newlines.
pub proof fn lemma_line_count_law(b: TextBuffer)
    requires
        b.wf(),
    ensures
        b.line_lens().len() == 1 + crate::lines::count_newlines(b.doc()),
{
    b.lemma_index_matches();
    lemma_lines_len(b.doc());
}

/// The byte offset where a line starts maps back to that line, for every
/// line except an empty last one (which starts at the end of the text,
/// where no byte lies).
pub proof fn lemma_offset_line_round_trip(b: TextBuffer, line: int)
    requires
        b.wf(),
        0 <= line < b.line_lens().len(),
        line + 1 < b.line_lens().len() || b.line_lens()[line] > 0,
    ensures
        line_start(b.line_lens(), line) < sum(b.line_lens()),
        crate::lines::line_at(b.line_lens(), line_start(b.line_lens(), line) as int).0 == line,
{
    b.lemma_index_matches();
    let l = b.line_lens();
    if line + 1 < l.len() {
        crate::lines::lemma_inner_lines_pos(b.doc(), line);
    }
    crate::lines::lemma_sum_take_step(l, line);
    crate::lines::lemma_sum_take_le(l, line + 1);
    crate::btree::lemma_line_at_of_start(l, line);
}


/// Where `(row, col)` names byte `o` as the line that holds it (the column
/// lies before the row's end, or the row is the last one).
pub open spec fn names_in_line(l: Seq<nat>, row: int, col: int) -> bool {
    &&& 0 <= row < l.len()
    &&& 0 <= col <= l[row]
    &&& (col < l[row] || row == l.len() - 1)
}

/// After inserting `x` at the place `(row, col)` names, that place still
/// names the same offset, and the landing position names the offset right
/// after the inserted bytes.
pub proof fn lemma_landing_offset(d: Seq<u8>, row: int, col: int, x: Seq<u8>)
    requires
        names_in_line(lines_of(d), row, col),
    ensures
        ({
            let l = lines_of(d);
            let o = line_start(l, row) + col;
            let l1 = lines_of(spliced_in(d, o, x));
            let (er, ec) = landing(row, col, lines_of(x));
            &&& offset_of(l1, row, col) == Some(o)
            &&& offset_of(l1, er, ec) == Some(o + x.len())
        }),
{
    let l = lines_of(d);
    let o = line_start(l, row) + col;
    lemma_lines_sum(d);
    crate::lines::lemma_sum_take_step(l, row);
    crate::lines::lemma_sum_take_le(l, row + 1);
    if col < l[row] {
        crate::lines::lemma_line_at_within(l, row, o);
    } else {
        assert(l.take(row + 1) =~= l);
        crate::lines::lemma_line_at_end(l);
    }
    let pre = d.take(o);
    let post = d.skip(o);
    let a = lines_of(pre);
    let b = lines_of(post);
    let n = lines_of(x);
    crate::lines::lemma_cut_point(d, o);
    lemma_lines_len(x);
    lemma_lines_sum(x);
    lemma_lines_sum(pre);
    lemma_lines_len(post);
    let d1 = spliced_in(d, o, x);
    assert(d1 =~= (pre + x) + post);
    crate::lines::lemma_lines_concat(pre + x, post);
    crate::lines::lemma_lines_concat(pre, x);
    let l1 = lines_of(d1);
    let j = crate::lines::join(a, n);
    assert(l1 == crate::lines::join(j, b));
    // The lines before `row` are untouched.
    assert(a.drop_last() =~= l1.take(row));
    assert(a =~= a.drop_last().push(a.last()));
    crate::lines::lemma_sum_concat(a.drop_last(), seq![a.last()]);
    crate::lines::lemma_sum_single(a.last());
    assert(line_start(l1, row) == o - col);
    if n.len() == 1 {
        assert(l1[row] == a.last() + n[0] + b[0]);
        crate::lines::lemma_sum_single(n[0]);
        assert(n =~= seq![n[0]]);
    } else {
        let er = row + n.len() - 1;
        assert(l1.take(er) =~= a.drop_last() + seq![(a.last() + n[0]) as nat] + n.subrange(1, n.len() - 1));
        assert(l1[er] == n.last() + b[0]);
        assert(l1[row] == a.last() + n[0]);
        crate::lines::lemma_sum_concat(a.drop_last() + seq![(a.last() + n[0]) as nat], n.subrange(1, n.len() - 1));
        crate::lines::lemma_sum_concat(a.drop_last(), seq![(a.last() + n[0]) as nat]);
        crate::lines::lemma_sum_single((a.last() + n[0]) as nat);
        assert(n =~= seq![n[0]] + n.subrange(1, n.len() - 1) + seq![n.last()]);
        crate::lines::lemma_sum_concat(seq![n[0]] + n.subrange(1, n.len() - 1), seq![n.last()]);
        crate::lines::lemma_sum_concat(seq![n[0]], n.subrange(1, n.len() - 1));
        crate::lines::lemma_sum_single(n[0]);
        crate::lines::lemma_sum_single(n.last());
    }
}


/// Deleting from where an insertion started to where it landed the cursor
/// gives back the text from before the insertion, and the deleted bytes
/// are the inserted ones. This is what undoing a typed insertion does;
/// it needs the start to name its offset inside its line (a column just
/// past a row's newline names the start of the next row instead).
pub proof fn lemma_undo_of_insert_restores(d: Seq<u8>, p: Position, x: Seq<u8>)
    requires
        names_in_line(lines_of(d), p.row as int, p.col as int),
        landing(p.row as int, p.col as int, lines_of(x)).0 <= usize::MAX,
        landing(p.row as int, p.col as int, lines_of(x)).1 <= usize::MAX,
    ensures
        ({
            let o = line_start(lines_of(d), p.row as int) + p.col;
            let d1 = spliced_in(d, o, x);
            let (er, ec) = landing(p.row as int, p.col as int, lines_of(x));
            &&& pos_le(p, Position { row: er as usize, col: ec as usize })
            &&& erase(d1, lines_of(d1), p, Position { row: er as usize, col: ec as usize }) == Some((d, x))
        }),
{
    lemma_landing_offset(d, p.row as int, p.col as int, x);
    let l = lines_of(d);
    let o = line_start(l, p.row as int) + p.col;
    lemma_offset_in_text(l, p.row as int, p.col as int);
    lemma_lines_sum(d);
    let d1 = spliced_in(d, o, x);
    lemma_lines_len(x);
    assert(cut_out(d1, o, o + x.len() - o) =~= d);
    assert(d1.subrange(o, o + x.len()) =~= x);
}

} // verus!
