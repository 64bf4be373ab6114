//! The document: a text buffer, its undo history and the cursor.
use crate::cursor::{Cursor, Position};
use crate::enums::EditAction;
use crate::errors::TextBufferResult;
use crate::history::{action_view, text_bytes, tx_view, ActionView, History, Transaction, TxView};
use crate::lines::lines_of;
use crate::text::{erase, erase_goes_through, landing, offset_of, span_of, TextBuffer};
use vstd::prelude::*;
use vstd::string::StringSliceAdditionalSpecFns;

verus! {

/// An open document.
#[derive(Debug)]
pub struct Document {
    pub text_buffer: TextBuffer,
    pub history: History,
    pub cursor: Cursor,
    /// Off while a transaction is being replayed, so that the replay is not
    /// recorded again.
    pub is_recording: bool,
}

/// The undo stack after a deletion of `[start, end)` that removed `text`:
/// recorded when something was removed, unchanged otherwise.
pub open spec fn recorded(u: Seq<TxView>, start: Position, end: Position, text: Seq<char>, cb: Cursor, ca: Cursor) -> Seq<
    TxView,
> {
    if crate::history::text_bytes(text).len() > 0 {
        crate::history::after_record_delete(u, start, end, text, cb, ca)
    } else {
        u
    }
}

/// The recorded text of deleted bytes `b` is their decoding when they are
/// valid UTF-8.
pub open spec fn decodes(b: Seq<u8>) -> bool {
    vstd::utf8::valid_utf8(b) ==> crate::piece_table::utf8_lossy(b) == vstd::utf8::decode_utf8(b)
}

/// Where a forward deletion of `text` at `head` is recorded to end.
pub open spec fn forward_record_end(head: Position, text: Seq<char>) -> Position {
    let (lr, lc) = landing(head.row as int, head.col as int, lines_of(vstd::utf8::encode_utf8(text)));
    if lr <= usize::MAX && lc <= usize::MAX {
        Position { row: lr as usize, col: lc as usize }
    } else {
        head
    }
}

/// Inserting bytes `x` at `p` into `d`: the new text, when `p` names a
/// place and the line count and landing position fit.
pub open spec fn insert_step(d: Seq<u8>, p: Position, x: Seq<u8>) -> Option<Seq<u8>> {
    let l = lines_of(d);
    let n = lines_of(x);
    match offset_of(l, p.row as int, p.col as int) {
        Some(o) => if l.len() + n.len() - 1 <= usize::MAX && landing(p.row as int, p.col as int, n).0 <= usize::MAX
            && landing(p.row as int, p.col as int, n).1 <= usize::MAX {
            Some(crate::piece_table::spliced_in(d, o, x))
        } else {
            None
        },
        None => None,
    }
}

/// Deleting from `p` to where bytes `x` would end if they started at `p`:
/// the new text, when that deletion goes through.
pub open spec fn erase_step(d: Seq<u8>, p: Position, x: Seq<u8>) -> Option<Seq<u8>> {
    let l = lines_of(d);
    let (er, ec) = landing(p.row as int, p.col as int, lines_of(x));
    let e = Position { row: er as usize, col: ec as usize };
    if er <= usize::MAX && ec <= usize::MAX && erase_goes_through(l, p, e) {
        match erase(d, l, p, e) {
            Some((nd, gone)) => Some(nd),
            None => None,
        }
    } else {
        None
    }
}

/// Replaying one action: an insertion is deleted again on undo and
/// inserted on redo; a deletion is inserted back on undo and deleted
/// again on redo.
pub open spec fn replay_step(d: Seq<u8>, a: ActionView, is_undo: bool) -> Option<Seq<u8>> {
    if a.0 == is_undo {
        erase_step(d, a.1, text_bytes(a.3))
    } else {
        insert_step(d, a.1, text_bytes(a.3))
    }
}

/// The text after replaying the first `k` steps of `acts` (backwards for
/// an undo, forwards for a redo), when each step goes through.
pub open spec fn replay(d: Seq<u8>, acts: Seq<ActionView>, is_undo: bool, k: nat) -> Option<Seq<u8>>
    decreases k,
{
    if k == 0 {
        Some(d)
    } else {
        match replay(d, acts, is_undo, (k - 1) as nat) {
            Some(d1) => replay_step(d1, acts[if is_undo { acts.len() - k } else { k - 1 }], is_undo),
            None => None,
        }
    }
}

/// Bytes of all texts of `acts`, added from the back.
pub open spec fn bytes_back(acts: Seq<ActionView>) -> nat
    decreases acts.len(),
{
    if acts.len() == 0 {
        0
    } else {
        bytes_back(acts.drop_last()) + text_bytes(acts.last().3).len()
    }
}

/// Bytes of all texts of `acts`, added from the front.
pub open spec fn bytes_front(acts: Seq<ActionView>) -> nat
    decreases acts.len(),
{
    if acts.len() == 0 {
        0
    } else {
        text_bytes(acts[0].3).len() + bytes_front(acts.drop_first())
    }
}

/// Bytes a replay may add: the texts it has yet to handle.
pub open spec fn bytes_left(acts: Seq<ActionView>, is_undo: bool, k: int) -> nat {
    if is_undo {
        bytes_back(acts.take(acts.len() - k))
    } else {
        bytes_front(acts.skip(k))
    }
}

/// Deletes from `pos` to where `text` would end if it started there.
fn replay_erase(tb: &mut TextBuffer, pos: Position, text: &str)
    requires
        old(tb).wf(),
    ensures
        final(tb).wf(),
        final(tb).add_len() == old(tb).add_len(),
        final(tb).doc().len() <= old(tb).doc().len(),
        erase_step(old(tb).doc(), pos, text.spec_bytes()) matches Some(nd) ==> final(tb).doc() == nd,
{
    proof {
        old(tb).lemma_index_matches();
    }
    if let Some(end_pos) = calculate_end_position(pos, text) {
        let temp = Cursor::new_selection(pos, end_pos);
        proof {
            assert(crate::cursor::pos_le(pos, end_pos));
            let l = old(tb).line_lens();
            if let Some(a) = offset_of(l, pos.row as int, pos.col as int) {
                crate::text::lemma_offset_in_text(l, pos.row as int, pos.col as int);
                assert(crate::piece_table::cut_out(old(tb).doc(), a, 0) =~= old(tb).doc());
                if let Some(b) = offset_of(l, end_pos.row as int, end_pos.col as int) {
                    crate::text::lemma_offset_in_text(l, end_pos.row as int, end_pos.col as int);
                    crate::text::lemma_offsets_ordered(l, pos, end_pos);
                    assert(span_of(l, temp) == Some((a, b)) || pos == end_pos);
                }
            }
        }
        let _ = tb.delete_selection(&temp);
    }
}

/// Inserts `text` at `pos`.
fn replay_insert(tb: &mut TextBuffer, pos: Position, text: &str)
    requires
        old(tb).wf(),
    ensures
        final(tb).wf(),
        final(tb).add_len() <= old(tb).add_len() + text.spec_bytes().len(),
        final(tb).doc().len() <= old(tb).doc().len() + text.spec_bytes().len(),
        old(tb).room_for(text.spec_bytes().len()) ==> match insert_step(old(tb).doc(), pos, text.spec_bytes()) {
            Some(nd) => final(tb).doc() == nd,
            None => true,
        },
{
    proof {
        old(tb).lemma_index_matches();
        let l = old(tb).line_lens();
        if offset_of(l, pos.row as int, pos.col as int) is Some {
            crate::text::lemma_offset_in_text(l, pos.row as int, pos.col as int);
        }
    }
    let temp = Cursor::new(pos.row, pos.col);
    let _ = tb.insert(&temp, text);
}

/// Where text `text` ends when it starts at `start`.
pub fn calculate_end_position(start: Position, text: &str) -> (r: Option<Position>)
    ensures
        ({
            let (lr, lc) = landing(start.row as int, start.col as int, lines_of(text.spec_bytes()));
            &&& (lr <= usize::MAX && lc <= usize::MAX) ==> r == Some(Position { row: lr as usize, col: lc as usize })
            &&& !(lr <= usize::MAX && lc <= usize::MAX) ==> r is None
        }),
{
    let nl = crate::scan::newline_lengths(text.as_bytes());
    proof {
        assert(crate::node::nats(nl@) =~= lines_of(text.spec_bytes()));
        crate::lines::lemma_lines_len(text.spec_bytes());
    }
    crate::text::landing_position(start.row, start.col, &nl)
}

impl Document {
    pub open spec fn wf(self) -> bool {
        self.text_buffer.wf() && self.is_recording
    }

    /// A document over `text_buffer`, with an empty history and the cursor
    /// at the start.
    pub fn new(text_buffer: TextBuffer) -> (r: Document)
        requires
            text_buffer.wf(),
        ensures
            r.wf(),
            r.text_buffer == text_buffer,
            r.history.undo_view().len() == 0,
            r.history.redo_view().len() == 0,
            r.cursor.anchor == (Position { row: 0, col: 0 }) && r.cursor.head == (Position { row: 0, col: 0 }),
    {
        Document { text_buffer, history: History::new(), cursor: Cursor::default(), is_recording: true }
    }

    /// Switches to another buffer: the history starts over and the cursor
    /// goes to the start.
    pub fn open_buffer(&mut self, text_buffer: TextBuffer)
        requires
            text_buffer.wf(),
        ensures
            final(self).wf(),
            final(self).text_buffer == text_buffer,
            final(self).history.undo_view().len() == 0,
            final(self).history.redo_view().len() == 0,
            final(self).cursor.anchor == (Position { row: 0, col: 0 }) && final(self).cursor.head == (Position {
                row: 0,
                col: 0,
            }),
    {
        *self = Document::new(text_buffer);
    }

    /// Types `text` at the cursor, replacing the selection if there is one,
    /// and records the edit: a replacement as one transaction of its own, a
    /// plain insertion batched with the previous one where that applies.
    #[verifier::rlimit(80)]
    pub fn insert(&mut self, text: &str) -> (r: TextBufferResult<()>)
        requires
            old(self).wf(),
        ensures
            final(self).wf(),
            r is Err ==> final(self).cursor == old(self).cursor,
            final(self).text_buffer.add_len() <= old(self).text_buffer.add_len() + text.spec_bytes().len(),
            r is Ok ==> final(self).history.redo_view().len() == 0,
            r is Ok ==> final(self).cursor.anchor == final(self).cursor.head,
            ({
                let c = old(self).cursor;
                let l = old(self).text_buffer.line_lens();
                let d = old(self).text_buffer.doc();
                let n = lines_of(text.spec_bytes());
                &&& r is Ok && !c.has_selection() ==> match crate::text::offset_of(l, c.head.row as int, c.head.col as int) {
                    Some(o) => {
                        &&& final(self).text_buffer.doc() == crate::piece_table::spliced_in(d, o, text.spec_bytes())
                        &&& (final(self).cursor.head.row as int, final(self).cursor.head.col as int) == landing(
                            c.head.row as int,
                            c.head.col as int,
                            n,
                        )
                        &&& final(self).history.undo_view() == crate::history::after_record_insert(
                            old(self).history.undo_view(),
                            c.head,
                            text@,
                            c,
                            final(self).cursor,
                        )
                    },
                    None => false,
                }
                &&& r is Ok && c.has_selection() ==> match span_of(l, c) {
                    Some((a, b)) => {
                        &&& final(self).text_buffer.doc() == crate::piece_table::spliced_in(
                            crate::piece_table::cut_out(d, a, b - a),
                            a,
                            text.spec_bytes(),
                        )
                        &&& final(self).history.undo_view() == old(self).history.undo_view().push(
                            (
                                seq![
                                    (false, c.spec_start(), c.spec_end(), crate::piece_table::utf8_lossy(
                                        d.subrange(a, b),
                                    )),
                                    (true, c.spec_start(), c.spec_start(), text@),
                                ],
                                c,
                                final(self).cursor,
                            ),
                        )
                    },
                    None => false,
                }
                &&& (!c.has_selection() && crate::text::offset_of(l, c.head.row as int, c.head.col as int) is Some
                    && old(self).text_buffer.room_for(text.spec_bytes().len()) && l.len() + n.len() - 1 <= usize::MAX
                    && landing(c.head.row as int, c.head.col as int, n).0 <= usize::MAX && landing(
                    c.head.row as int,
                    c.head.col as int,
                    n,
                ).1 <= usize::MAX) ==> r is Ok
                &&& c.has_selection() ==> match span_of(l, c) {
                    Some((a, b)) => ((a == b || crate::btree::remove_ok(l, a, b - a)) && old(
                        self,
                    ).text_buffer.room_for(text.spec_bytes().len()) && l.len() + n.len() - 1 <= usize::MAX
                        && landing(c.spec_start().row as int, c.spec_start().col as int, n).0 <= usize::MAX
                        && landing(c.spec_start().row as int, c.spec_start().col as int, n).1 <= usize::MAX)
                        ==> r is Ok,
                    None => true,
                }
            }),
    {
        let cursor_before = self.cursor;
        let selection_text = self.text_buffer.get_cursor_selection(&self.cursor);
        let selection_text = match selection_text {
            Ok(t) => t,
            Err(e) => {
                return Err(e);
            },
        };
        let (range_start, range_end) = self.cursor.range();
        let end_pos = match self.text_buffer.insert(&cursor_before, text) {
            Ok(p) => p,
            Err(e) => {
                return Err(e);
            },
        };
        let cursor_after = Cursor::new(end_pos.row, end_pos.col);
        if self.is_recording {
            match selection_text {
                Some(deleted_text) => {
                    self.history.record_replace(
                        range_start,
                        range_end,
                        deleted_text.as_str(),
                        text,
                        cursor_before,
                        cursor_after,
                    );
                },
                None => {
                    let _ = self.history.record_insert(range_start, text, cursor_before, cursor_after);
                },
            }
        }
        self.cursor = cursor_after;
        Ok(())
    }
}



impl Document {
    /// Deletes the selection, or one byte: behind the cursor when
    /// `is_backspace`, after it otherwise. Records the deletion when
    /// something was removed, batching runs of single deletions.
    #[verifier::rlimit(80)]
    pub fn delete(&mut self, is_backspace: bool) -> (r: TextBufferResult<()>)
        requires
            old(self).wf(),
        ensures
            final(self).wf(),
            final(self).text_buffer.add_len() == old(self).text_buffer.add_len(),
            r is Err ==> final(self).cursor == old(self).cursor && final(self).text_buffer.doc() == old(
                self,
            ).text_buffer.doc() && final(self).history == old(self).history,
            r is Ok ==> final(self).cursor.anchor == final(self).cursor.head,
            ({
                let c = old(self).cursor;
                let l = old(self).text_buffer.line_lens();
                let d = old(self).text_buffer.doc();
                let u = old(self).history.undo_view();
                let h = final(self).history.undo_view();
                let ca = final(self).cursor;
                &&& c.has_selection() ==> match span_of(l, c) {
                    Some((a, b)) => {
                        &&& r is Ok ==> final(self).text_buffer.doc() == crate::piece_table::cut_out(d, a, b - a)
                            && ca.head == c.spec_start() && h == recorded(
                            u,
                            c.spec_start(),
                            c.spec_end(),
                            crate::piece_table::utf8_lossy(d.subrange(a, b)),
                            c,
                            ca,
                        ) && decodes(d.subrange(a, b))
                        &&& (a == b || crate::btree::remove_ok(l, a, b - a)) ==> r is Ok
                    },
                    None => r is Err,
                }
                &&& !c.has_selection() && is_backspace && c.head.row == 0 && c.head.col == 0 ==> r is Ok
                    && final(self).text_buffer.doc() == d && ca.head == c.head && h == u
                &&& !c.has_selection() && is_backspace && !(c.head.row == 0 && c.head.col == 0) ==> match crate::text::back_start(l, c.head) {
                    Some(s) => {
                        &&& match erase(d, l, s, c.head) {
                            Some((nd, gone)) => r is Ok ==> final(self).text_buffer.doc() == nd && ca.head == s
                                && h == recorded(u, s, c.head, crate::piece_table::utf8_lossy(gone), c, ca)
                                && decodes(gone),
                            None => r is Err,
                        }
                        &&& crate::text::erase_goes_through(l, s, c.head) ==> r is Ok
                    },
                    None => r is Err,
                }
                &&& !c.has_selection() && !is_backspace && c.head.row < l.len() && c.head.col < usize::MAX ==> match crate::text::forward_end(l, c.head) {
                    None => r is Ok && final(self).text_buffer.doc() == d && ca.head == c.head && h == u,
                    Some(e) => {
                        &&& match erase(d, l, c.head, e) {
                            Some((nd, gone)) => r is Ok ==> final(self).text_buffer.doc() == nd && ca.head == c.head
                                && h == recorded(
                                u,
                                c.head,
                                forward_record_end(c.head, crate::piece_table::utf8_lossy(gone)),
                                crate::piece_table::utf8_lossy(gone),
                                c,
                                ca,
                            ) && decodes(gone),
                            None => r is Err,
                        }
                        &&& crate::text::erase_goes_through(l, c.head, e) ==> r is Ok
                    },
                }
            }),
    {
        let cursor_before = self.cursor;
        let res = if is_backspace {
            self.text_buffer.backspace(&cursor_before)
        } else {
            self.text_buffer.delete_forward(&cursor_before)
        };
        let (new_pos, deleted_text) = match res {
            Ok(v) => v,
            Err(e) => {
                return Err(e);
            },
        };
        let cursor_after = Cursor::new(new_pos.row, new_pos.col);
        if self.is_recording && deleted_text.as_str().as_bytes().len() > 0 {
            let (start, end) = if !cursor_before.no_selection() {
                cursor_before.range()
            } else if !cursor_before.head.le(&new_pos) {
                (new_pos, cursor_before.head)
            } else {
                let e = match calculate_end_position(cursor_before.head, deleted_text.as_str()) {
                    Some(p) => p,
                    None => cursor_before.head,
                };
                (cursor_before.head, e)
            };
            let _ = self.history.record_delete(start, end, deleted_text.as_str(), cursor_before, cursor_after);
        }
        self.cursor = cursor_after;
        Ok(())
    }

    /// Undoes the last transaction: replays its actions backwards and puts
    /// the cursor back where it was before it.
    #[verifier::rlimit(80)]
    pub fn undo(&mut self)
        requires
            old(self).wf(),
        ensures
            final(self).wf(),
            old(self).history.undo_view().len() == 0 ==> final(self).history.undo_view() == old(
                self,
            ).history.undo_view() && final(self).cursor == old(self).cursor,
            old(self).history.undo_view().len() > 0 ==> final(self).history.undo_view() == old(
                self,
            ).history.undo_view().drop_last() && final(self).history.redo_view() == old(self).history.redo_view().push(
                old(self).history.undo_view().last(),
            ) && final(self).cursor == old(self).history.undo_view().last().1,
            old(self).history.undo_view().len() > 0 ==> final(self).text_buffer.add_len() <= old(
                self,
            ).text_buffer.add_len() + bytes_back(old(self).history.undo_view().last().0),
            old(self).history.undo_view().len() == 0 ==> final(self).text_buffer.add_len() == old(
                self,
            ).text_buffer.add_len(),
            old(self).history.undo_view().len() > 0 && old(self).text_buffer.room_for(
                bytes_back(old(self).history.undo_view().last().0),
            ) ==> match replay(
                old(self).text_buffer.doc(),
                old(self).history.undo_view().last().0,
                true,
                old(self).history.undo_view().last().0.len(),
            ) {
                Some(nd) => final(self).text_buffer.doc() == nd,
                None => true,
            },
    {
        if let Some(transaction) = self.history.undo() {
            proof {
                let acts = tx_view(transaction).0;
                assert(acts.take(acts.len() - 0) =~= acts);
            }
            self.execute_transaction(transaction, true);
        }
    }

    /// Redoes the last undone transaction: replays its actions in order and
    /// puts the cursor where it was after it.
    pub fn redo(&mut self)
        requires
            old(self).wf(),
        ensures
            final(self).wf(),
            old(self).history.redo_view().len() == 0 ==> final(self).history.redo_view() == old(
                self,
            ).history.redo_view() && final(self).cursor == old(self).cursor,
            old(self).history.redo_view().len() > 0 ==> final(self).history.redo_view() == old(
                self,
            ).history.redo_view().drop_last() && final(self).history.undo_view() == old(self).history.undo_view().push(
                old(self).history.redo_view().last(),
            ) && final(self).cursor == old(self).history.redo_view().last().2,
            old(self).history.redo_view().len() > 0 ==> final(self).text_buffer.add_len() <= old(
                self,
            ).text_buffer.add_len() + bytes_front(old(self).history.redo_view().last().0),
            old(self).history.redo_view().len() == 0 ==> final(self).text_buffer.add_len() == old(
                self,
            ).text_buffer.add_len(),
            old(self).history.redo_view().len() > 0 && old(self).text_buffer.room_for(
                bytes_front(old(self).history.redo_view().last().0),
            ) ==> match replay(
                old(self).text_buffer.doc(),
                old(self).history.redo_view().last().0,
                false,
                old(self).history.redo_view().last().0.len(),
            ) {
                Some(nd) => final(self).text_buffer.doc() == nd,
                None => true,
            },
    {
        if let Some(transaction) = self.history.redo() {
            proof {
                let acts = tx_view(transaction).0;
                assert(acts.skip(0) =~= acts);
            }
            self.execute_transaction(transaction, false);
        }
    }

    /// Replays a transaction without recording it: backwards and inverted
    /// for an undo, forwards for a redo; then restores the matching cursor.
    #[verifier::rlimit(80)]
    fn execute_transaction(&mut self, transaction: Transaction, is_undo: bool)
        requires
            old(self).text_buffer.wf(),
        ensures
            final(self).wf(),
            final(self).history == old(self).history,
            final(self).cursor == (if is_undo { transaction.cursor_before } else { transaction.cursor_after }),
            final(self).text_buffer.add_len() <= old(self).text_buffer.add_len() + bytes_left(
                tx_view(transaction).0,
                is_undo,
                0,
            ),
            old(self).text_buffer.room_for(bytes_left(tx_view(transaction).0, is_undo, 0)) ==> match replay(
                old(self).text_buffer.doc(),
                tx_view(transaction).0,
                is_undo,
                tx_view(transaction).0.len(),
            ) {
                Some(nd) => final(self).text_buffer.doc() == nd,
                None => true,
            },
    {
        self.is_recording = false;
        let n = transaction.actions.len();
        let mut k: usize = 0;
        let ghost d0 = self.text_buffer.doc();
        let ghost acts = tx_view(transaction).0;
        let ghost room = old(self).text_buffer.room_for(bytes_left(acts, is_undo, 0));
        proof {
            assert(acts.take(acts.len() - 0) =~= acts);
            assert(acts.skip(0) =~= acts);
            old(self).text_buffer.lemma_room_for(bytes_left(acts, is_undo, 0));
        }
        while k < n
            invariant
                self.text_buffer.wf(),
                self.history == old(self).history,
                n == transaction.actions@.len(),
                acts == tx_view(transaction).0,
                acts.len() == n,
                k <= n,
                d0 == old(self).text_buffer.doc(),
                room == old(self).text_buffer.room_for(bytes_left(acts, is_undo, 0)),
                self.text_buffer.add_len() + bytes_left(acts, is_undo, k as int) <= old(self).text_buffer.add_len()
                    + bytes_left(acts, is_undo, 0),
                room ==> self.text_buffer.add_len() + bytes_left(acts, is_undo, k as int) <= u64::MAX
                    && self.text_buffer.doc().len() + bytes_left(acts, is_undo, k as int) <= u64::MAX,
                room ==> match replay(d0, acts, is_undo, k as nat) {
                    Some(dk) => self.text_buffer.doc() == dk,
                    None => true,
                },
            decreases n - k,
        {
            let idx = if is_undo { n - 1 - k } else { k };
            let ghost a = acts[idx as int];
            proof {
                assert(a == action_view(transaction.actions@[idx as int]));
                if is_undo {
                    assert(acts.take(n - k).drop_last() =~= acts.take(n - k - 1));
                    assert(acts.take(n - k).last() == a);
                } else {
                    assert(acts.skip(k as int).drop_first() =~= acts.skip(k + 1));
                    assert(acts.skip(k as int)[0] == a);
                }
                assert(bytes_left(acts, is_undo, k as int) == bytes_left(acts, is_undo, k + 1) + text_bytes(a.3).len());
                self.text_buffer.lemma_room_for(text_bytes(a.3).len());
            }
            match &transaction.actions[idx] {
                EditAction::Insert { pos, text } => {
                    if is_undo {
                        replay_erase(&mut self.text_buffer, *pos, text.as_str());
                    } else {
                        replay_insert(&mut self.text_buffer, *pos, text.as_str());
                    }
                },
                EditAction::Delete { pos, end, text } => {
                    if is_undo {
                        replay_insert(&mut self.text_buffer, *pos, text.as_str());
                    } else {
                        replay_erase(&mut self.text_buffer, *pos, text.as_str());
                    }
                },
            }
            k = k + 1;
        }
        self.cursor = if is_undo { transaction.cursor_before } else { transaction.cursor_after };
        self.is_recording = true;
    }
}


/// Undoing a typed insertion gives the text back: if text `t` was inserted
/// at `p` into `d` and recorded as a transaction of its own, undoing that
/// transaction restores `d`. It needs `p` to name its offset inside its
/// line, the landing position to fit in `usize`, and the longer text to
/// stay within `i64::MAX` bytes (the line index carries length changes as
/// signed 64-bit numbers).
pub proof fn lemma_typed_insertion_round_trip(d: Seq<u8>, p: Position, t: Seq<char>, cb: Cursor, ca: Cursor)
    requires
        crate::text::names_in_line(lines_of(d), p.row as int, p.col as int),
        landing(p.row as int, p.col as int, lines_of(vstd::utf8::encode_utf8(t))).0 <= usize::MAX,
        landing(p.row as int, p.col as int, lines_of(vstd::utf8::encode_utf8(t))).1 <= usize::MAX,
        d.len() + vstd::utf8::encode_utf8(t).len() <= i64::MAX,
    ensures
        ({
            let o = crate::lines::line_start(lines_of(d), p.row as int) + p.col;
            let d1 = crate::piece_table::spliced_in(d, o, vstd::utf8::encode_utf8(t));
            replay(d1, seq![(true, p, p, t)], true, 1) == Some(d)
        }),
{
    let x = vstd::utf8::encode_utf8(t);
    let l = lines_of(d);
    let o = crate::lines::line_start(l, p.row as int) + p.col;
    let d1 = crate::piece_table::spliced_in(d, o, x);
    let l1 = lines_of(d1);
    crate::text::lemma_landing_offset(d, p.row as int, p.col as int, x);
    crate::text::lemma_undo_of_insert_restores(d, p, x);
    crate::text::lemma_offset_in_text(l, p.row as int, p.col as int);
    crate::lines::lemma_lines_sum(d);
    crate::lines::lemma_lines_sum(d1);
    crate::lines::lemma_lines_len(d1);
    crate::btree::lemma_remove_lines_size(l1, o, x.len() as int);
    crate::lines::lemma_line_at_bounds(l1, o);
    let s = crate::lines::line_at(l1, o).0;
    crate::node::lemma_sum_update(l1, s, 0);
    let (er, ec) = landing(p.row as int, p.col as int, lines_of(x));
    let e = Position { row: er as usize, col: ec as usize };
    assert(erase_goes_through(l1, p, e));
    let acts = seq![(true, p, p, t)];
    assert(replay(d1, acts, true, 0) == Some(d1));
    assert(acts[0] == (true, p, p, t));
    assert(erase_step(d1, p, x) == Some(d));
}


/// Undoing two typed insertions that batched into one transaction gives
/// the text back: `t1` typed at `p`, then `t2` typed where the cursor landed
/// (right after `t1`), recorded as one insertion of `t1 + t2` at `p`; undoing
/// it restores `d`. The same conditions as for a single insertion apply,
/// to the two texts together.
pub proof fn lemma_batched_typing_round_trip(
    d: Seq<u8>,
    p: Position,
    t1: Seq<char>,
    t2: Seq<char>,
    cb: Cursor,
    ca: Cursor,
)
    requires
        crate::text::names_in_line(lines_of(d), p.row as int, p.col as int),
        landing(p.row as int, p.col as int, lines_of(vstd::utf8::encode_utf8(t1 + t2))).0 <= usize::MAX,
        landing(p.row as int, p.col as int, lines_of(vstd::utf8::encode_utf8(t1 + t2))).1 <= usize::MAX,
        d.len() + vstd::utf8::encode_utf8(t1 + t2).len() <= i64::MAX,
    ensures
        ({
            let x1 = vstd::utf8::encode_utf8(t1);
            let x2 = vstd::utf8::encode_utf8(t2);
            let o = crate::lines::line_start(lines_of(d), p.row as int) + p.col;
            let d1 = crate::piece_table::spliced_in(d, o, x1);
            let (r1, c1) = landing(p.row as int, p.col as int, lines_of(x1));
            let d2 = crate::piece_table::spliced_in(d1, o + x1.len(), x2);
            &&& offset_of(lines_of(d1), r1, c1) == Some(o + x1.len())
            &&& replay(d2, seq![(true, p, p, t1 + t2)], true, 1) == Some(d)
        }),
{
    let x1 = vstd::utf8::encode_utf8(t1);
    let x2 = vstd::utf8::encode_utf8(t2);
    let l = lines_of(d);
    let o = crate::lines::line_start(l, p.row as int) + p.col;
    crate::text::lemma_landing_offset(d, p.row as int, p.col as int, x1);
    crate::text::lemma_offset_in_text(l, p.row as int, p.col as int);
    crate::lines::lemma_lines_sum(d);
    crate::history::lemma_encode_concat(t1, t2);
    let d1 = crate::piece_table::spliced_in(d, o, x1);
    let d2 = crate::piece_table::spliced_in(d1, o + x1.len(), x2);
    assert(d2 =~= crate::piece_table::spliced_in(d, o, x1 + x2));
    lemma_typed_insertion_round_trip(d, p, t1 + t2, cb, ca);
}

} // verus!
