use vstd::prelude::*;

verus! {

/// A location in the document: a 0-based row and a 0-based byte column
/// within that row (the column may point at the row's trailing newline).
#[derive(Debug, Clone, Copy, PartialEq, Eq, Structural, PartialOrd, Ord, Hash)]
pub struct Position {
    pub row: usize,
    pub col: usize,
}

/// Lexicographic order on positions, by row and then by column.
pub open spec fn pos_le(a: Position, b: Position) -> bool {
    a.row < b.row || (a.row == b.row && a.col <= b.col)
}

pub open spec fn pos_min(a: Position, b: Position) -> Position {
    if pos_le(a, b) { a } else { b }
}

pub open spec fn pos_max(a: Position, b: Position) -> Position {
    if pos_le(a, b) { b } else { a }
}

impl Position {
    pub fn new(row: usize, col: usize) -> (r: Self)
        ensures
            r.row == row,
            r.col == col,
    {
        Position { row, col }
    }

    /// Whether `self` comes no later than `other` in document order.
    pub fn le(&self, other: &Position) -> (r: bool)
        ensures
            r == pos_le(*self, *other),
    {
        self.row < other.row || (self.row == other.row && self.col <= other.col)
    }
}

impl Default for Position {
    fn default() -> (r: Self)
        ensures
            r.row == 0 && r.col == 0,
    {
        Position { row: 0, col: 0 }
    }
}

/// A cursor with its selection: `anchor` stays put while `head` moves.
/// `anchor == head` means that nothing is selected.
#[derive(Debug, Clone, Copy, PartialEq, Eq, Structural)]
pub struct Cursor {
    pub anchor: Position,
    pub head: Position,
    /// The column that vertical motion tries to return to.
    pub preferred_column: Option<usize>,
}

impl Cursor {
    pub fn new(row: usize, col: usize) -> (r: Self)
        ensures
            r.anchor == (Position { row, col }),
            r.head == (Position { row, col }),
            r.preferred_column == Some(col),
    {
        let pos = Position::new(row, col);
        Cursor { anchor: pos, head: pos, preferred_column: Some(col) }
    }

    /// A selection from `anchor` to `head`.
    pub fn new_selection(anchor: Position, head: Position) -> (r: Self)
        ensures
            r.anchor == anchor,
            r.head == head,
            r.preferred_column == Some(head.col),
    {
        Cursor { anchor, head, preferred_column: Some(head.col) }
    }

    pub open spec fn has_selection(self) -> bool {
        self.anchor != self.head
    }

    /// The earlier end of the selection.
    pub open spec fn spec_start(self) -> Position {
        pos_min(self.anchor, self.head)
    }

    /// The later end of the selection.
    pub open spec fn spec_end(self) -> Position {
        pos_max(self.anchor, self.head)
    }

    /// True when nothing is selected.
    pub fn no_selection(&self) -> (r: bool)
        ensures
            r == !self.has_selection(),
    {
        self.anchor == self.head
    }

    pub fn start(&self) -> (r: Position)
        ensures
            r == self.spec_start(),
    {
        if self.anchor.le(&self.head) {
            self.anchor
        } else {
            self.head
        }
    }

    pub fn end(&self) -> (r: Position)
        ensures
            r == self.spec_end(),
    {
        if self.anchor.le(&self.head) {
            self.head
        } else {
            self.anchor
        }
    }

    /// The selection as an ordered pair `(start, end)`.
    pub fn range(&self) -> (r: (Position, Position))
        ensures
            r == (self.spec_start(), self.spec_end()),
            pos_le(r.0, r.1),
    {
        if self.anchor.le(&self.head) {
            (self.anchor, self.head)
        } else {
            (self.head, self.anchor)
        }
    }

    /// Moves the head, keeping the anchor, and remembers its column.
    pub fn set_head(&mut self, pos: Position)
        ensures
            final(self).anchor == old(self).anchor,
            final(self).head == pos,
            final(self).preferred_column == Some(pos.col),
    {
        self.head = pos;
        self.preferred_column = Some(pos.col);
    }

    /// Collapses the selection onto the head.
    pub fn clear_selection(&mut self)
        ensures
            final(self).anchor == old(self).head,
            final(self).head == old(self).head,
            final(self).preferred_column == old(self).preferred_column,
    {
        self.anchor = self.head;
    }

    /// Swaps anchor and head.
    pub fn invert(&mut self)
        ensures
            final(self).anchor == old(self).head,
            final(self).head == old(self).anchor,
            final(self).preferred_column == old(self).preferred_column,
    {
        let a = self.anchor;
        self.anchor = self.head;
        self.head = a;
    }
}

impl Default for Cursor {
    fn default() -> (r: Self)
        ensures
            r.anchor == (Position { row: 0, col: 0 }),
            r.head == (Position { row: 0, col: 0 }),
            r.preferred_column.is_none(),
    {
        let origin = Position::new(0, 0);
        Cursor { anchor: origin, head: origin, preferred_column: None }
    }
}

} // verus!
