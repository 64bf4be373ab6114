//! The user-level undo history: transactions of row/column edits, with
//! consecutive keystrokes batched into one transaction.
use crate::cursor::{Cursor, Position};
use crate::enums::{EditAction, MathError};
use crate::lines::NEWLINE;
use vstd::prelude::*;
use vstd::string::{StringExecFns, StringSliceAdditionalSpecFns};
use vstd::utf8::encode_utf8;

verus! {

/// One undoable unit: its actions, and the cursor before and after.
#[derive(Debug, Clone, PartialEq, Eq)]
pub struct Transaction {
    pub actions: Vec<EditAction>,
    pub cursor_before: Cursor,
    pub cursor_after: Cursor,
}

/// Undo and redo stacks of transactions.
#[derive(Debug)]
pub struct History {
    pub undo_stack: Vec<Transaction>,
    pub redo_stack: Vec<Transaction>,
}

/// An action as values: whether it inserts, its start, its end (the start
/// again for an insertion), and its text.
pub type ActionView = (bool, Position, Position, Seq<char>);

/// A transaction as values.
pub type TxView = (Seq<ActionView>, Cursor, Cursor);

pub open spec fn action_view(a: EditAction) -> ActionView {
    match a {
        EditAction::Insert { pos, text } => (true, pos, pos, text@),
        EditAction::Delete { pos, end, text } => (false, pos, end, text@),
    }
}

pub open spec fn tx_view(t: Transaction) -> TxView {
    (t.actions@.map_values(|a: EditAction| action_view(a)), t.cursor_before, t.cursor_after)
}

pub open spec fn stack_view(s: Seq<Transaction>) -> Seq<TxView> {
    s.map_values(|t: Transaction| tx_view(t))
}

/// The UTF-8 bytes of a text.
pub open spec fn text_bytes(s: Seq<char>) -> Seq<u8> {
    encode_utf8(s)
}

/// Whether a text holds a newline byte.
pub open spec fn has_newline(s: Seq<char>) -> bool {
    exists|i: int| 0 <= i < text_bytes(s).len() && text_bytes(s)[i] == NEWLINE
}

/// Whether an insertion of `text` at `pos` joins the last transaction: it
/// ends with an insertion on the same row that ends exactly at `pos`, and
/// neither text holds a newline.
pub open spec fn insert_joins(u: Seq<TxView>, pos: Position, text: Seq<char>) -> bool {
    &&& u.len() > 0
    &&& u.last().0.len() > 0
    &&& u.last().0.last().0
    &&& u.last().0.last().1.row == pos.row
    &&& !has_newline(text)
    &&& !has_newline(u.last().0.last().3)
    &&& u.last().0.last().1.col + text_bytes(u.last().0.last().3).len() == pos.col
}

/// Whether the column arithmetic of an insertion check overflows.
pub open spec fn insert_check_overflows(u: Seq<TxView>, pos: Position, text: Seq<char>) -> bool {
    &&& u.len() > 0
    &&& u.last().0.len() > 0
    &&& u.last().0.last().0
    &&& u.last().0.last().1.row == pos.row
    &&& !has_newline(text)
    &&& !has_newline(u.last().0.last().3)
    &&& u.last().0.last().1.col + text_bytes(u.last().0.last().3).len() > usize::MAX
}

/// The last transaction with its last action replaced and `cursor_after` set.
pub open spec fn with_last_action(t: TxView, a: ActionView, ca: Cursor) -> TxView {
    (t.0.drop_last().push(a), t.1, ca)
}

/// How a deletion joins the last transaction: 1 when it backspaces into
/// it, 2 when it deletes forward from the same start, 0 when it does not.
pub open spec fn delete_joins(u: Seq<TxView>, start: Position, end: Position, text: Seq<char>) -> int {
    if u.len() > 0 && u.last().0.len() > 0 && !u.last().0.last().0 && u.last().0.last().1.row == start.row
        && !has_newline(text) && !has_newline(u.last().0.last().3) && u.last().0.last().2.row == end.row {
        if end == u.last().0.last().1 {
            1
        } else if start == u.last().0.last().1 {
            2
        } else {
            0
        }
    } else {
        0
    }
}

/// The undo stack after recording an insertion of `text` at `pos`.
pub open spec fn after_record_insert(u: Seq<TxView>, pos: Position, text: Seq<char>, cb: Cursor, ca: Cursor) -> Seq<
    TxView,
> {
    if insert_joins(u, pos, text) {
        u.drop_last().push(
            with_last_action(u.last(), (true, u.last().0.last().1, u.last().0.last().1, u.last().0.last().3 + text), ca),
        )
    } else if insert_check_overflows(u, pos, text) {
        u
    } else {
        u.push((seq![(true, pos, pos, text)], cb, ca))
    }
}

/// The undo stack after recording a deletion of `[start, end)` that held `text`.
pub open spec fn after_record_delete(
    u: Seq<TxView>,
    start: Position,
    end: Position,
    text: Seq<char>,
    cb: Cursor,
    ca: Cursor,
) -> Seq<TxView> {
    let k = delete_joins(u, start, end, text);
    let last = u.last().0.last();
    if k == 1 {
        u.drop_last().push(with_last_action(u.last(), (false, start, last.2, text + last.3), ca))
    } else if k == 2 {
        if last.2.col + text_bytes(text).len() > usize::MAX {
            u
        } else {
            u.drop_last().push(
                with_last_action(
                    u.last(),
                    (false, last.1, Position { row: last.2.row, col: (last.2.col + text_bytes(text).len()) as usize }, last.3 + text),
                    ca,
                ),
            )
        }
    } else {
        u.push((seq![(false, start, end, text)], cb, ca))
    }
}

pub proof fn lemma_encode_concat(a: Seq<char>, b: Seq<char>)
    ensures
        encode_utf8(a + b) == encode_utf8(a) + encode_utf8(b),
    decreases a.len(),
{
    if a.len() == 0 {
        assert(a + b =~= b);
    } else {
        lemma_encode_concat(a.drop_first(), b);
        assert((a + b).drop_first() =~= a.drop_first() + b);
        assert(encode_utf8(a + b) =~= encode_utf8(a) + encode_utf8(b));
    }
}

/// Whether `s` holds a newline byte.
fn text_has_newline(s: &str) -> (r: bool)
    ensures
        r == has_newline(s@),
{
    let b = s.as_bytes();
    let found = crate::scan::find_newline(b);
    proof {
        assert(b@ == text_bytes(s@));
        if let Some(i) = found {
            assert(text_bytes(s@)[i as int] == NEWLINE);
        }
    }
    found.is_some()
}

/// A copy of an action.
fn copy_action(a: &EditAction) -> (r: EditAction)
    ensures
        action_view(r) == action_view(*a),
{
    match a {
        EditAction::Insert { pos, text } => EditAction::Insert { pos: *pos, text: text.clone() },
        EditAction::Delete { pos, end, text } => EditAction::Delete { pos: *pos, end: *end, text: text.clone() },
    }
}

/// A copy of a transaction.
pub fn copy_transaction(t: &Transaction) -> (r: Transaction)
    ensures
        tx_view(r) == tx_view(*t),
{
    let mut actions: Vec<EditAction> = Vec::new();
    let mut i: usize = 0;
    while i < t.actions.len()
        invariant
            i <= t.actions@.len(),
            actions@.len() == i,
            forall|j: int| 0 <= j < i ==> action_view(#[trigger] actions@[j]) == action_view(t.actions@[j]),
        decreases t.actions@.len() - i,
    {
        actions.push(copy_action(&t.actions[i]));
        i = i + 1;
    }
    let r = Transaction { actions, cursor_before: t.cursor_before, cursor_after: t.cursor_after };
    proof {
        assert(r.actions@.map_values(|a: EditAction| action_view(a)) =~= t.actions@.map_values(
            |a: EditAction| action_view(a),
        ));
    }
    r
}

impl History {
    pub open spec fn undo_view(self) -> Seq<TxView> {
        stack_view(self.undo_stack@)
    }

    pub open spec fn redo_view(self) -> Seq<TxView> {
        stack_view(self.redo_stack@)
    }

    /// An empty history.
    pub fn new() -> (r: History)
        ensures
            r.undo_view().len() == 0,
            r.redo_view().len() == 0,
    {
        History { undo_stack: Vec::new(), redo_stack: Vec::new() }
    }

    /// Records a replacement of `[start, end)`, which held `deleted_text`, by
    /// `inserted_text`: one transaction of a deletion and an insertion at
    /// `start`, so that one undo reverses both.
    #[verifier::rlimit(80)]
    pub fn record_replace(
        &mut self,
        start: Position,
        end: Position,
        deleted_text: &str,
        inserted_text: &str,
        cursor_before: Cursor,
        cursor_after: Cursor,
    )
        ensures
            final(self).redo_view().len() == 0,
            final(self).undo_view() == old(self).undo_view().push(
                (
                    seq![(false, start, end, deleted_text@), (true, start, start, inserted_text@)],
                    cursor_before,
                    cursor_after,
                ),
            ),
    {
        self.redo_stack.clear();
        let mut actions: Vec<EditAction> = Vec::new();
        actions.push(EditAction::Delete { pos: start, end, text: String::from_str(deleted_text) });
        actions.push(EditAction::Insert { pos: start, text: String::from_str(inserted_text) });
        let t = Transaction { actions, cursor_before, cursor_after };
        let ghost u0 = self.undo_stack@;
        self.undo_stack.push(t);
        proof {
            assert(tx_view(t).0 =~= seq![(false, start, end, deleted_text@), (true, start, start, inserted_text@)]);
            assert(stack_view(self.undo_stack@) =~= stack_view(u0).push(tx_view(t)));
            assert(stack_view(self.redo_stack@) =~= Seq::<TxView>::empty());
        }
    }

    /// Records an insertion of `text` at `pos`. It is appended to the last
    /// transaction's insertion when that one ends at `pos` on the same row
    /// and neither text holds a newline; otherwise it starts a transaction.
    #[verifier::rlimit(80)]
    pub fn record_insert(&mut self, pos: Position, text: &str, cursor_before: Cursor, cursor_after: Cursor) -> (r:
        Result<(), MathError>)
        ensures
            final(self).redo_view().len() == 0,
            r is Err <==> insert_check_overflows(old(self).undo_view(), pos, text@),
            r is Err ==> r == Err::<(), MathError>(MathError::Overflow) && final(self).undo_view() == old(
                self,
            ).undo_view(),
            r is Ok && insert_joins(old(self).undo_view(), pos, text@) ==> final(self).undo_view()
                == old(self).undo_view().drop_last().push(
                with_last_action(
                    old(self).undo_view().last(),
                    (
                        true,
                        old(self).undo_view().last().0.last().1,
                        old(self).undo_view().last().0.last().1,
                        old(self).undo_view().last().0.last().3 + text@,
                    ),
                    cursor_after,
                ),
            ),
            r is Ok && !insert_joins(old(self).undo_view(), pos, text@) ==> final(self).undo_view()
                == old(self).undo_view().push((seq![(true, pos, pos, text@)], cursor_before, cursor_after)),
            final(self).undo_view() == after_record_insert(old(self).undo_view(), pos, text@, cursor_before, cursor_after),
    {
        self.redo_stack.clear();
        proof {
            assert(stack_view(self.redo_stack@) =~= Seq::<TxView>::empty());
        }
        let ghost u0 = stack_view(self.undo_stack@);
        let n = self.undo_stack.len();
        if n > 0 {
            let mut tx = self.undo_stack.pop().unwrap();
            let ghost tv = tx_view(tx);
            proof {
                assert(stack_view(self.undo_stack@) =~= u0.drop_last());
                assert(tv == u0.last());
            }
            let m = tx.actions.len();
            if m > 0 {
                let act = tx.actions.pop().unwrap();
                proof {
                    assert(tx.actions@.map_values(|a: EditAction| action_view(a)) =~= tv.0.drop_last());
                    assert(action_view(act) == tv.0.last());
                }
                match act {
                    EditAction::Insert { pos: last_pos, text: last_text } => {
                        if last_pos.row == pos.row && !text_has_newline(text) && !text_has_newline(
                            last_text.as_str(),
                        ) {
                            let last_len = last_text.as_str().as_bytes().len();
                            let ghost lt = last_text@;
                            if last_pos.col > usize::MAX - last_len {
                                tx.actions.push(EditAction::Insert { pos: last_pos, text: last_text });
                                self.undo_stack.push(tx);
                                proof {
                                    assert(tx_view(tx).0 =~= tv.0);
                                    assert(stack_view(self.undo_stack@) =~= u0);
                                }
                                return Err(MathError::Overflow);
                            }
                            if last_pos.col + last_len == pos.col {
                                let mut joined = last_text;
                                joined.append(text);
                                tx.actions.push(EditAction::Insert { pos: last_pos, text: joined });
                                tx.cursor_after = cursor_after;
                                proof {
                                    assert(tx_view(tx).0 =~= tv.0.drop_last().push(
                                        (true, last_pos, last_pos, lt + text@),
                                    ));
                                }
                                self.undo_stack.push(tx);
                                proof {
                                    assert(stack_view(self.undo_stack@) =~= u0.drop_last().push(tx_view(tx)));
                                }
                                return Ok(());
                            }
                        }
                        tx.actions.push(EditAction::Insert { pos: last_pos, text: last_text });
                    },
                    EditAction::Delete { pos: p, end: e, text: t } => {
                        tx.actions.push(EditAction::Delete { pos: p, end: e, text: t });
                    },
                }
                proof {
                    assert(tx_view(tx).0 =~= tv.0);
                }
            }
            self.undo_stack.push(tx);
            proof {
                assert(stack_view(self.undo_stack@) =~= u0);
            }
        }
        let mut actions: Vec<EditAction> = Vec::new();
        actions.push(EditAction::Insert { pos, text: String::from_str(text) });
        let t = Transaction { actions, cursor_before, cursor_after };
        self.undo_stack.push(t);
        proof {
            assert(tx_view(t).0 =~= seq![(true, pos, pos, text@)]);
            assert(stack_view(self.undo_stack@) =~= u0.push(tx_view(t)));
        }
        Ok(())
    }

    /// Records a deletion of `[start, end)`, which held `deleted_text`.
    /// A backspace that ends where the last deletion started is prepended to
    /// it; a forward delete from the same start is appended to it (both only
    /// on one row and without newlines); otherwise it starts a transaction.
    #[verifier::rlimit(80)]
    pub fn record_delete(
        &mut self,
        start: Position,
        end: Position,
        deleted_text: &str,
        cursor_before: Cursor,
        cursor_after: Cursor,
    ) -> (r: Result<(), MathError>)
        ensures
            final(self).redo_view().len() == 0,
            final(self).undo_view() == after_record_delete(
                old(self).undo_view(),
                start,
                end,
                deleted_text@,
                cursor_before,
                cursor_after,
            ),
            ({
                let u = old(self).undo_view();
                let k = delete_joins(u, start, end, deleted_text@);
                let last = u.last().0.last();
                &&& k == 0 ==> r is Ok && final(self).undo_view() == u.push(
                    (seq![(false, start, end, deleted_text@)], cursor_before, cursor_after),
                )
                &&& k == 1 ==> r is Ok && final(self).undo_view() == u.drop_last().push(
                    with_last_action(u.last(), (false, start, last.2, deleted_text@ + last.3), cursor_after),
                )
                &&& k == 2 && last.2.col + text_bytes(deleted_text@).len() > usize::MAX ==> r == Err::<
                    (),
                    MathError,
                >(MathError::Overflow) && final(self).undo_view() == u
                &&& k == 2 && last.2.col + text_bytes(deleted_text@).len() <= usize::MAX ==> r is Ok
                    && final(self).undo_view() == u.drop_last().push(
                    with_last_action(
                        u.last(),
                        (
                            false,
                            last.1,
                            Position { row: last.2.row, col: (last.2.col + text_bytes(deleted_text@).len()) as usize },
                            last.3 + deleted_text@,
                        ),
                        cursor_after,
                    ),
                )
            }),
    {
        self.redo_stack.clear();
        proof {
            assert(stack_view(self.redo_stack@) =~= Seq::<TxView>::empty());
        }
        let ghost u0 = stack_view(self.undo_stack@);
        let n = self.undo_stack.len();
        if n > 0 {
            let mut tx = self.undo_stack.pop().unwrap();
            let ghost tv = tx_view(tx);
            proof {
                assert(stack_view(self.undo_stack@) =~= u0.drop_last());
                assert(tv == u0.last());
            }
            let m = tx.actions.len();
            if m > 0 {
                let act = tx.actions.pop().unwrap();
                proof {
                    assert(tx.actions@.map_values(|a: EditAction| action_view(a)) =~= tv.0.drop_last());
                    assert(action_view(act) == tv.0.last());
                }
                match act {
                    EditAction::Delete { pos: last_start, end: last_end, text: last_text } => {
                        let ghost lt = last_text@;
                        if last_start.row == start.row && !text_has_newline(deleted_text) && !text_has_newline(
                            last_text.as_str(),
                        ) && last_end.row == end.row {
                            if end == last_start {
                                let mut joined = String::from_str(deleted_text);
                                joined.append(last_text.as_str());
                                tx.actions.push(EditAction::Delete { pos: start, end: last_end, text: joined });
                                tx.cursor_after = cursor_after;
                                proof {
                                    assert(tx_view(tx).0 =~= tv.0.drop_last().push(
                                        (false, start, last_end, deleted_text@ + lt),
                                    ));
                                }
                                self.undo_stack.push(tx);
                                proof {
                                    assert(stack_view(self.undo_stack@) =~= u0.drop_last().push(tx_view(tx)));
                                }
                                return Ok(());
                            } else if start == last_start {
                                let add = deleted_text.as_bytes().len();
                                if last_end.col > usize::MAX - add {
                                    tx.actions.push(
                                        EditAction::Delete { pos: last_start, end: last_end, text: last_text },
                                    );
                                    self.undo_stack.push(tx);
                                    proof {
                                        assert(tx_view(tx).0 =~= tv.0);
                                        assert(stack_view(self.undo_stack@) =~= u0);
                                    }
                                    return Err(MathError::Overflow);
                                }
                                let mut joined = last_text;
                                joined.append(deleted_text);
                                let new_end = Position { row: last_end.row, col: last_end.col + add };
                                tx.actions.push(EditAction::Delete { pos: last_start, end: new_end, text: joined });
                                tx.cursor_after = cursor_after;
                                proof {
                                    assert(tx_view(tx).0 =~= tv.0.drop_last().push(
                                        (false, last_start, new_end, lt + deleted_text@),
                                    ));
                                }
                                self.undo_stack.push(tx);
                                proof {
                                    assert(stack_view(self.undo_stack@) =~= u0.drop_last().push(tx_view(tx)));
                                }
                                return Ok(());
                            }
                        }
                        tx.actions.push(EditAction::Delete { pos: last_start, end: last_end, text: last_text });
                    },
                    EditAction::Insert { pos: p, text: t } => {
                        tx.actions.push(EditAction::Insert { pos: p, text: t });
                    },
                }
                proof {
                    assert(tx_view(tx).0 =~= tv.0);
                }
            }
            self.undo_stack.push(tx);
            proof {
                assert(stack_view(self.undo_stack@) =~= u0);
            }
        }
        let mut actions: Vec<EditAction> = Vec::new();
        actions.push(EditAction::Delete { pos: start, end, text: String::from_str(deleted_text) });
        let t = Transaction { actions, cursor_before, cursor_after };
        self.undo_stack.push(t);
        proof {
            assert(tx_view(t).0 =~= seq![(false, start, end, deleted_text@)]);
            assert(stack_view(self.undo_stack@) =~= u0.push(tx_view(t)));
        }
        Ok(())
    }

    /// Moves the last transaction to the redo stack and returns it.
    pub fn undo(&mut self) -> (r: Option<Transaction>)
        ensures
            old(self).undo_view().len() == 0 ==> r is None && final(self).undo_view() == old(self).undo_view()
                && final(self).redo_view() == old(self).redo_view(),
            old(self).undo_view().len() > 0 ==> (r matches Some(t) && tx_view(t) == old(self).undo_view().last()
                && final(self).undo_view() == old(self).undo_view().drop_last() && final(self).redo_view()
                == old(self).redo_view().push(old(self).undo_view().last())),
    {
        let ghost u0 = stack_view(self.undo_stack@);
        let ghost r0 = stack_view(self.redo_stack@);
        match self.undo_stack.pop() {
            None => None,
            Some(tx) => {
                let copy = copy_transaction(&tx);
                self.redo_stack.push(copy);
                proof {
                    assert(stack_view(self.undo_stack@) =~= u0.drop_last());
                    assert(stack_view(self.redo_stack@) =~= r0.push(tx_view(tx)));
                }
                Some(tx)
            },
        }
    }

    /// Moves the last undone transaction back to the undo stack and returns it.
    pub fn redo(&mut self) -> (r: Option<Transaction>)
        ensures
            old(self).redo_view().len() == 0 ==> r is None && final(self).undo_view() == old(self).undo_view()
                && final(self).redo_view() == old(self).redo_view(),
            old(self).redo_view().len() > 0 ==> (r matches Some(t) && tx_view(t) == old(self).redo_view().last()
                && final(self).redo_view() == old(self).redo_view().drop_last() && final(self).undo_view()
                == old(self).undo_view().push(old(self).redo_view().last())),
    {
        let ghost u0 = stack_view(self.undo_stack@);
        let ghost r0 = stack_view(self.redo_stack@);
        match self.redo_stack.pop() {
            None => None,
            Some(tx) => {
                let copy = copy_transaction(&tx);
                self.undo_stack.push(copy);
                proof {
                    assert(stack_view(self.redo_stack@) =~= r0.drop_last());
                    assert(stack_view(self.undo_stack@) =~= u0.push(tx_view(tx)));
                }
                Some(tx)
            },
        }
    }
}


/// Typing batches: an insertion without a newline right where the last
/// recorded insertion (on the same row, without a newline) ends joins it;
/// an insertion holding a newline never joins, nor one anywhere else (the
/// cursor moved).
pub proof fn lemma_typing_batches(u: Seq<TxView>, pos: Position, text: Seq<char>)
    requires
        u.len() > 0,
        u.last().0.len() > 0,
    ensures
        ({
            let last = u.last().0.last();
            &&& (last.0 && last.1.row == pos.row && !has_newline(last.3) && !has_newline(text) && last.1.col
                + text_bytes(last.3).len() == pos.col) ==> insert_joins(u, pos, text)
            &&& has_newline(text) ==> !insert_joins(u, pos, text)
            &&& (last.1.row != pos.row || last.1.col + text_bytes(last.3).len() != pos.col) ==> !insert_joins(
                u,
                pos,
                text,
            )
        }),
{
}

} // verus!
