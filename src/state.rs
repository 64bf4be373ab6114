//! The in-memory state of one open note: its piece table and a line index
//! that is rebuilt after batches of edits.
use crate::btree::BTreeLineIndex;
use crate::enums::MathError;
use crate::lines::lines_of;
use crate::mapped::MmapFile;
use crate::piece_table::PieceTable;
use vstd::prelude::*;

verus! {

pub struct EditorState {
    pub piece_table: PieceTable,
    pub line_index: BTreeLineIndex,
}

impl EditorState {
    /// The state over the bytes of `mapped`, with its line index built.
    pub fn open(mapped: MmapFile) -> (r: Result<EditorState, MathError>)
        ensures
            r matches Ok(s) && s.piece_table.wf() && s.line_index.wf() && s.piece_table.doc() == mapped@
                && s.line_index.line_lens() == lines_of(mapped@),
    {
        let bytes = mapped.as_slice();
        let line_index = BTreeLineIndex::new(bytes).unwrap();
        let piece_table = PieceTable::new(mapped).unwrap();
        Ok(EditorState { piece_table, line_index })
    }

    /// Rebuilds the line index from the current text.
    pub fn rebuild_index(&mut self) -> (r: Result<(), MathError>)
        requires
            old(self).piece_table.wf(),
        ensures
            r is Ok,
            final(self).piece_table == old(self).piece_table,
            final(self).line_index.wf(),
            final(self).line_index.line_lens() == lines_of(old(self).piece_table.doc()),
    {
        let len = self.piece_table.len();
        let bytes = self.piece_table.get_bytes_at(0, len).unwrap();
        proof {
            let d = self.piece_table.doc();
            assert(crate::piece_table::clipped(d, 0, len as int) =~= d);
        }
        self.line_index = BTreeLineIndex::new(bytes.as_slice()).unwrap();
        Ok(())
    }
}

} // verus!
