//! The line index: a B-tree of line lengths with a one-entry query cache.
use crate::enums::MathError;
use crate::lines::{
    insert_lines, lemma_line_at_bounds, lemma_line_at_end, lemma_line_at_monotone, lemma_sum_concat,
    lemma_sum_take_le, line_at, line_start, lines_of, remove_lines, sum,
};
use crate::node::{
    all_bounded, line_triples,
    children_ok, flat_lines, insert_error, lemma_flat_concat, lemma_flat_single, nats, InternalNode, LeafNode, LineSummary, Node, MAX_CHILDREN,
};
use vstd::prelude::*;

verus! {

/// The last answered query: line `line_idx` starts at byte `byte_offset`.
#[derive(Clone, Copy, Debug, PartialEq, Eq, Structural)]
pub struct SearchCache {
    pub line_idx: usize,
    pub byte_offset: u64,
}

/// Whether a cache entry tells the truth about lines `l`.
pub open spec fn cache_ok(c: Option<SearchCache>, l: Seq<nat>) -> bool {
    c matches Some(e) ==> {
        &&& e.line_idx < l.len()
        &&& e.byte_offset == line_start(l, e.line_idx as int)
        &&& e.byte_offset < sum(l) ==> line_at(l, e.byte_offset as int).0 == e.line_idx
    }
}

/// Maps line numbers to byte offsets and back.
#[derive(Debug)]
pub struct BTreeLineIndex {
    pub root: Node,
    pub cache: Option<SearchCache>,
}

impl BTreeLineIndex {
    /// The lengths of all lines, in order.
    pub open spec fn line_lens(self) -> Seq<nat> {
        self.root.line_seq()
    }

    pub open spec fn wf(self) -> bool {
        &&& self.root.wf()
        &&& self.root.line_seq().len() >= 1
        &&& cache_ok(self.cache, self.root.line_seq())
    }

    /// The index of an empty document: one empty line.
    pub fn new_empty() -> (r: Self)
        ensures
            r.wf(),
            r.line_lens() == lines_of(Seq::<u8>::empty()),
            r.cache is None,
    {
        let leaf = LeafNode::default();
        BTreeLineIndex { root: Node::Leaf(leaf), cache: None }
    }

    /// Builds the index of `bytes`.
    pub fn new(bytes: &[u8]) -> (r: Result<Self, MathError>)
        ensures
            r matches Ok(t) && t.wf() && t.line_lens() == lines_of(bytes@) && t.cache is None && t.root.bounded(),
    {
        let total = bytes.len();
        let lengths = crate::scan::newline_lengths(bytes);
        let count = lengths.len();
        proof {
            assert(nats(lengths@) =~= lines_of(bytes@));
            crate::lines::lemma_lines_sum(bytes@);
            assert(sum(nats(lengths@)) == total);
            assert(nats(lengths@).len() == count);
        }
        let leaves = Self::build_leaves(lengths);
        let root = Self::build_tree(leaves);
        Ok(BTreeLineIndex { root, cache: None })
    }

    /// Packs line lengths into leaves of up to `MAX_CHILDREN` lines.
    #[verifier::rlimit(80)]
    fn build_leaves(lengths: Vec<u64>) -> (r: Vec<Node>)
        requires
            lengths@.len() >= 1,
            sum(nats(lengths@)) <= u64::MAX,
        ensures
            r@.len() >= 1,
            children_ok(r@),
            all_bounded(r@),
            flat_lines(r@) == nats(lengths@),
    {
        let ghost all = nats(lengths@);
        let mut rest = lengths;
        let mut out: Vec<Node> = Vec::new();
        proof {
            assert(flat_lines(Seq::<Node>::empty()) =~= Seq::<nat>::empty());
            assert(all.skip(all.len() as int) =~= Seq::<nat>::empty());
        }
        while rest.len() > 0
            invariant
                all.len() >= 1,
                sum(all) <= u64::MAX,
                rest@.len() <= all.len(),
                nats(rest@) == all.take(rest@.len() as int),
                flat_lines(out@) == all.skip(rest@.len() as int),
                children_ok(out@),
                all_bounded(out@),
                rest@.len() == 0 ==> out@.len() >= 1,
            decreases rest@.len(),
        {
            let n = rest.len();
            let size: usize = if n < MAX_CHILDREN { n } else { MAX_CHILDREN };
            let chunk = rest.split_off(n - size);
            let ghost cn = nats(chunk@);
            proof {
                assert(all.take(n as int) =~= nats(rest@) + cn);
                assert(all =~= all.take(n as int) + all.skip(n as int));
                lemma_sum_concat(all.take(n as int), all.skip(n as int));
                lemma_sum_concat(nats(rest@), cn);
            }
            let byte_len = crate::node::sum_u64s(&chunk);
            let leaf = LeafNode {
                summary: LineSummary { line_count: chunk.len(), byte_len },
                line_lengths: chunk,
            };
            let node = Node::Leaf(leaf);
            let ghost before = out@;
            out.insert(0, node);
            proof {
                assert(out@ =~= seq![node] + before);
                lemma_flat_concat(seq![node], before);
                lemma_flat_single(node);
                assert(nats(rest@) =~= all.take(rest@.len() as int));
                assert(all.skip(rest@.len() as int) =~= cn + all.skip(n as int));
                assert forall|j: int| 0 <= j < out@.len() implies (#[trigger] out@[j]).wf()
                    && out@[j].line_seq().len() > 0 && out@[j].bounded() by {
                    if j > 0 {
                        assert(out@[j] == before[j - 1]);
                    }
                }
            }
        }
        proof {
            assert(all.skip(0) =~= all);
        }
        out
    }

    /// Packs nodes into parents of up to `MAX_CHILDREN` children, level by
    /// level, until one root remains.
    fn build_tree(level: Vec<Node>) -> (r: Node)
        requires
            level@.len() >= 1,
            children_ok(level@),
            all_bounded(level@),
            sum(flat_lines(level@)) <= u64::MAX,
            flat_lines(level@).len() <= usize::MAX,
        ensures
            r.wf(),
            r.bounded(),
            r.line_seq() == flat_lines(level@),
    {
        let ghost all = flat_lines(level@);
        let mut current = level;
        while current.len() > 1
            invariant
                current@.len() >= 1,
                children_ok(current@),
                all_bounded(current@),
                flat_lines(current@) == all,
                sum(all) <= u64::MAX,
                all.len() <= usize::MAX,
            decreases current@.len(),
        {
            current = Self::pack_level(current);
        }
        let mut current = current;
        let ghost last = current@;
        let root = current.pop().unwrap();
        proof {
            assert(last =~= seq![root]);
            lemma_flat_single(root);
        }
        root
    }

    /// An internal node over `chunk`, with its summary.
    fn make_parent(chunk: Vec<Node>) -> (r: Node)
        requires
            chunk@.len() >= 1,
            chunk@.len() <= MAX_CHILDREN,
            all_bounded(chunk@),
            children_ok(chunk@),
            sum(flat_lines(chunk@)) <= u64::MAX,
            flat_lines(chunk@).len() <= usize::MAX,
        ensures
            r.wf(),
            r.bounded(),
            r.line_seq() == flat_lines(chunk@),
            r.line_seq().len() > 0,
    {
        proof {
            crate::node::lemma_flat_split(chunk@, 0);
        }
        let mut parent = InternalNode { summary: LineSummary { line_count: 0, byte_len: 0 }, children: chunk };
        let line_count = parent.count_lines();
        let byte_len = parent.count_bytes();
        parent.summary = LineSummary { line_count, byte_len };
        Node::Internal(parent)
    }

    /// One level of packing.
    #[verifier::rlimit(80)]
    fn pack_level(level: Vec<Node>) -> (r: Vec<Node>)
        requires
            level@.len() > 1,
            children_ok(level@),
            all_bounded(level@),
            sum(flat_lines(level@)) <= u64::MAX,
            flat_lines(level@).len() <= usize::MAX,
        ensures
            1 <= r@.len() < level@.len(),
            children_ok(r@),
            all_bounded(r@),
            flat_lines(r@) == flat_lines(level@),
    {
        let ghost all = level@;
        let mut rest = level;
        let mut out: Vec<Node> = Vec::new();
        proof {
            assert(flat_lines(Seq::<Node>::empty()) =~= Seq::<nat>::empty());
            assert(all.skip(all.len() as int) =~= Seq::<Node>::empty());
        }
        while rest.len() > 0
            invariant
                all.len() > 1,
                children_ok(all),
                all_bounded(all),
                sum(flat_lines(all)) <= u64::MAX,
                flat_lines(all).len() <= usize::MAX,
                rest@.len() <= all.len(),
                rest@ == all.take(rest@.len() as int),
                flat_lines(out@) == flat_lines(all.skip(rest@.len() as int)),
                children_ok(out@),
                all_bounded(out@),
                rest@.len() > 0 ==> MAX_CHILDREN * out@.len() <= all.len() - rest@.len(),
                MAX_CHILDREN * out@.len() <= all.len() - rest@.len() + MAX_CHILDREN - 1,
                rest@.len() < all.len() ==> out@.len() >= 1,
            decreases rest@.len(),
        {
            let n = rest.len();
            let size: usize = if n < MAX_CHILDREN { n } else { MAX_CHILDREN };
            let chunk = rest.split_off(n - size);
            proof {
                assert(all.take(n as int) =~= rest@ + chunk@);
                assert(all =~= all.take(n as int) + all.skip(n as int));
                lemma_flat_concat(all.take(n as int), all.skip(n as int));
                lemma_flat_concat(rest@, chunk@);
                lemma_sum_concat(flat_lines(all.take(n as int)), flat_lines(all.skip(n as int)));
                lemma_sum_concat(flat_lines(rest@), flat_lines(chunk@));
                assert(children_ok(chunk@)) by {
                    assert forall|j: int| 0 <= j < chunk@.len() implies (#[trigger] chunk@[j]).wf()
                        && chunk@[j].line_seq().len() > 0 by {
                        assert(chunk@[j] == all[rest@.len() + j]);
                    }
                }
                assert(all_bounded(chunk@)) by {
                    assert forall|j: int| 0 <= j < chunk@.len() implies (#[trigger] chunk@[j]).bounded() by {
                        assert(chunk@[j] == all[rest@.len() + j]);
                    }
                }
            }
            let ghost chunk_view = chunk@;
            let node = Self::make_parent(chunk);
            let ghost before = out@;
            out.insert(0, node);
            proof {
                assert(out@ =~= seq![node] + before);
                lemma_flat_concat(seq![node], before);
                lemma_flat_single(node);
                assert(all.skip(rest@.len() as int) =~= chunk_view + all.skip(n as int));
                lemma_flat_concat(chunk_view, all.skip(n as int));
                assert(rest@ =~= all.take(rest@.len() as int));
                assert forall|j: int| 0 <= j < out@.len() implies (#[trigger] out@[j]).wf()
                    && out@[j].line_seq().len() > 0 && out@[j].bounded() by {
                    if j > 0 {
                        assert(out@[j] == before[j - 1]);
                    }
                }
            }
        }
        proof {
            assert(all.skip(0) =~= all);
        }
        out
    }
}


impl BTreeLineIndex {
    /// Number of lines, counting the empty line after a final newline.
    pub fn line_count(&self) -> (r: usize)
        requires
            self.wf(),
        ensures
            r == self.line_lens().len(),
    {
        self.root.summary().line_count
    }

    /// Total length in bytes.
    pub fn byte_len(&self) -> (r: u64)
        requires
            self.wf(),
        ensures
            r == sum(self.line_lens()),
    {
        self.root.summary().byte_len
    }

    pub fn get_line_length_at(&self, line_idx: usize) -> (r: Option<u64>)
        requires
            self.wf(),
        ensures
            r.is_some() <==> line_idx < self.line_lens().len(),
            r matches Some(v) ==> v == self.line_lens()[line_idx as int],
    {
        self.root.get_line_length_at(line_idx)
    }

    /// Byte offset at which line `line_idx` starts. Consults the cache unless
    /// `bust_cache`, and records the answer in it.
    pub fn line_idx_to_abs_idx(&mut self, line_idx: usize, bust_cache: bool) -> (r: Option<u64>)
        requires
            old(self).wf(),
        ensures
            final(self).wf(),
            final(self).line_lens() == old(self).line_lens(),
            r.is_some() <==> line_idx < old(self).line_lens().len(),
            r matches Some(v) ==> v == line_start(old(self).line_lens(), line_idx as int),
    {
        if !bust_cache {
            if let Some(c) = self.cache {
                if c.line_idx == line_idx {
                    return Some(c.byte_offset);
                }
            }
        }
        let result = self.root.line_idx_to_abs_idx(line_idx);
        if let Some(offset) = result {
            let len = self.root.get_line_length_at(line_idx).unwrap();
            if len > 0 {
                proof {
                    let l = self.line_lens();
                    crate::lines::lemma_sum_take_step(l, line_idx as int);
                    lemma_sum_take_le(l, line_idx + 1);
                    lemma_line_at_of_start(l, line_idx as int);
                }
                self.cache = Some(SearchCache { line_idx, byte_offset: offset });
            }
        }
        result
    }

    /// The line that holds byte `abs_idx`; `None` at or past the end.
    /// Consults the cache unless `bust_cache`.
    pub fn abs_idx_to_line_idx(&self, abs_idx: u64, bust_cache: bool) -> (r: Option<usize>)
        requires
            self.wf(),
        ensures
            r.is_some() <==> abs_idx < sum(self.line_lens()),
            r matches Some(v) ==> v == line_at(self.line_lens(), abs_idx as int).0,
    {
        if !bust_cache && abs_idx < self.root.summary().byte_len {
            if let Some(c) = self.cache {
                if c.byte_offset == abs_idx {
                    return Some(c.line_idx);
                }
            }
        }
        self.root.abs_idx_to_line_idx(abs_idx)
    }

    /// The line that holds byte `offset` and the offset within it; at the
    /// end of the text, the last line and its length.
    fn locate(&self, offset: u64) -> (r: (usize, u64))
        requires
            self.wf(),
            offset <= sum(self.line_lens()),
        ensures
            r.0 as int == line_at(self.line_lens(), offset as int).0,
            r.1 as int == line_at(self.line_lens(), offset as int).1,
            r.0 < self.line_lens().len(),
    {
        let ghost l = self.line_lens();
        let total = self.root.summary().byte_len;
        proof {
            lemma_line_at_bounds(l, offset as int);
        }
        if offset < total {
            let line = self.root.abs_idx_to_line_idx(offset).unwrap();
            let start = self.root.line_idx_to_abs_idx(line).unwrap();
            (line, offset - start)
        } else {
            proof {
                lemma_line_at_end(l);
            }
            let last = self.root.summary().line_count - 1;
            let len = self.root.get_line_length_at(last).unwrap();
            (last, len)
        }
    }

    /// Inserts the line structure of `bytes` at byte `byte_pos`.
    #[verifier::rlimit(80)]
    pub fn insert(&mut self, byte_pos: u64, bytes: &[u8]) -> (r: Result<(), MathError>)
        requires
            old(self).wf(),
        ensures
            final(self).wf(),
            r matches Err(e) ==> insert_error(old(self).line_lens(), byte_pos as int, bytes@) == Some(e)
                && final(self).line_lens() == old(self).line_lens(),
            r is Ok ==> insert_error(old(self).line_lens(), byte_pos as int, bytes@) is None
                && final(self).line_lens() == insert_lines(old(self).line_lens(), byte_pos as int, lines_of(bytes@))
                && final(self).cache is None,
            (old(self).root.bounded() && crate::lines::count_newlines(bytes@) < MAX_CHILDREN) ==> final(self).root.bounded(),
    {
        let res = self.root.add_child(byte_pos, bytes);
        match res {
            Err(e) => Err(e),
            Ok(None) => {
                self.cache = None;
                Ok(())
            },
            Ok(Some(sibling)) => {
                let mut old_root = Node::Leaf(LeafNode::default());
                core::mem::swap(&mut self.root, &mut old_root);
                let ghost a = old_root;
                let mut children: Vec<Node> = Vec::new();
                children.push(old_root);
                children.push(sibling);
                proof {
                    assert(children@ =~= seq![a] + seq![sibling]);
                    lemma_flat_concat(seq![a], seq![sibling]);
                    lemma_flat_single(a);
                    lemma_flat_single(sibling);
                    crate::lines::lemma_lines_len(bytes@);
                    crate::lines::lemma_lines_sum(bytes@);
                    crate::lines::lemma_insert_lines_size(old(self).line_lens(), byte_pos as int, lines_of(bytes@));
                    assert(children_ok(children@)) by {
                        assert forall|j: int| 0 <= j < children@.len() implies (#[trigger] children@[j]).wf()
                            && children@[j].line_seq().len() > 0 by {
                            if j == 0 {
                                assert(children@[j] == a);
                            } else {
                                assert(children@[j] == sibling);
                            }
                        }
                    }
                }
                let mut parent = InternalNode {
                    summary: LineSummary { line_count: 0, byte_len: 0 },
                    children,
                };
                let line_count = parent.count_lines();
                let byte_len = parent.count_bytes();
                parent.summary = LineSummary { line_count, byte_len };
                self.root = Node::Internal(parent);
                self.cache = None;
                Ok(())
            },
        }
    }

    /// Removes the line structure of bytes `[abs_idx, abs_idx + len)`: the
    /// first and last touched lines merge, those between go.
    #[verifier::rlimit(80)]
    pub fn remove(&mut self, abs_idx: u64, len: u64) -> (r: Result<(), MathError>)
        requires
            old(self).wf(),
        ensures
            final(self).wf(),
            r is Ok <==> len == 0 || remove_ok(old(self).line_lens(), abs_idx as int, len as int),
            r is Ok && len > 0 ==> final(self).line_lens() == remove_lines(old(self).line_lens(), abs_idx as int, len as int),
            len == 0 ==> r is Ok && *final(self) == *old(self),
            old(self).root.bounded() ==> final(self).root.bounded(),
            r is Ok && len > 0 ==> final(self).cache is None,
            r matches Err(e) ==> final(self).line_lens() == old(self).line_lens() && e == remove_error(
                old(self).line_lens(),
                abs_idx as int,
                len as int,
            ),
    {
        if len == 0 {
            return Ok(());
        }
        let total = self.root.summary().byte_len;
        if abs_idx > u64::MAX - len {
            return Err(MathError::Overflow);
        }
        let deletion_end = abs_idx + len;
        if deletion_end > total {
            return Err(MathError::OutOfBounds(total as usize));
        }
        let ghost l = self.line_lens();
        let (start_line, prefix_len) = self.locate(abs_idx);
        let (end_line, end_offset) = self.locate(deletion_end);
        let end_line_len = self.root.get_line_length_at(end_line).unwrap();
        let start_line_len = self.root.get_line_length_at(start_line).unwrap();
        proof {
            lemma_line_at_bounds(l, abs_idx as int);
            lemma_line_at_bounds(l, deletion_end as int);
            lemma_line_at_monotone(l, abs_idx as int, deletion_end as int);
            lemma_remove_lines_size(l, abs_idx as int, len as int);
        }
        let merged = prefix_len + (end_line_len - end_offset);
        if merged > i64::MAX as u64 || start_line_len > i64::MAX as u64 {
            return Err(MathError::ConversionFailed);
        }
        if start_line < end_line {
            let _ = self.root.remove_line_range(start_line + 1, end_line);
            proof {
                assert(self.line_lens() =~= l.take(start_line + 1) + l.skip(end_line + 1));
                crate::lines::lemma_sum_concat(l.take(start_line + 1), l.skip(end_line + 1));
            }
        }
        let ghost mid = self.line_lens();
        proof {
            assert(mid[start_line as int] == l[start_line as int]);
            crate::node::lemma_sum_update(mid, start_line as int, merged as nat);
            assert(mid.update(start_line as int, merged as nat) =~= remove_lines(l, abs_idx as int, len as int));
        }
        let _ = self.root.set_line_length(start_line, merged);
        self.cache = None;
        Ok(())
    }

    /// Lines `start_line..end_line` (those that exist), each with its number
    /// and byte range, found in one walk that skips the subtrees outside
    /// the range.
    pub fn lines(&self, start_line: usize, end_line: usize) -> (r: LineRangeIter)
        requires
            self.wf(),
        ensures
            r.next_idx == 0,
            r.items@ == line_triples(self.line_lens(), 0, 0, start_line as int, end_line as int),
    {
        let mut items: Vec<(usize, u64, u64)> = Vec::new();
        self.root.lines(start_line, end_line, 0, 0, &mut items);
        proof {
            assert(Seq::<(usize, u64, u64)>::empty() + line_triples(
                self.line_lens(),
                0,
                0,
                start_line as int,
                end_line as int,
            ) =~= items@);
        }
        LineRangeIter { items, next_idx: 0 }
    }
}

/// Why removing `len > 0` bytes at `off` from lines `l` is refused.
pub open spec fn remove_error(l: Seq<nat>, off: int, len: int) -> MathError {
    if off + len > u64::MAX {
        MathError::Overflow
    } else if off + len > sum(l) {
        MathError::OutOfBounds(sum(l) as usize)
    } else {
        MathError::ConversionFailed
    }
}

/// When removing `len > 0` bytes at `off` from lines `l` goes through: the
/// range lies in the text, and the merged line and the first touched line
/// have lengths that a signed 64-bit difference can carry.
pub open spec fn remove_ok(l: Seq<nat>, off: int, len: int) -> bool {
    let (s, p) = line_at(l, off);
    let (e, q) = line_at(l, off + len);
    &&& off + len <= sum(l)
    &&& p + l[e] - q <= i64::MAX
    &&& l[s] <= i64::MAX
}

/// Facts about the lines left by a removal.
pub proof fn lemma_remove_lines_size(l: Seq<nat>, off: int, len: int)
    requires
        l.len() >= 1,
        0 <= off,
        0 <= len,
        off + len <= sum(l),
    ensures
        sum(remove_lines(l, off, len)) == sum(l) - len,
        remove_lines(l, off, len).len() <= l.len(),
        line_at(l, off).1 + l[line_at(l, off + len).0] - line_at(l, off + len).1 <= sum(l) - len,
{
    lemma_line_at_bounds(l, off);
    lemma_line_at_bounds(l, off + len);
    lemma_line_at_monotone(l, off, off + len);
    let (s, p) = line_at(l, off);
    let (e, q) = line_at(l, off + len);
    assert(l =~= l.take(s) + (l.skip(s).take(e + 1 - s) + l.skip(e + 1)));
    lemma_sum_concat(l.take(s), l.skip(s).take(e + 1 - s) + l.skip(e + 1));
    lemma_sum_concat(l.skip(s).take(e + 1 - s), l.skip(e + 1));
    let mid = l.skip(s).take(e + 1 - s);
    assert(l.take(e + 1) =~= l.take(s) + mid);
    lemma_sum_concat(l.take(s), mid);
    assert(l.take(e) + seq![l[e]] =~= l.take(e + 1));
    lemma_sum_concat(l.take(e), seq![l[e]]);
    crate::lines::lemma_sum_single(l[e]);
    let r = remove_lines(l, off, len);
    lemma_sum_concat(l.take(s) + seq![(p + l[e] - q) as nat], l.skip(e + 1));
    lemma_sum_concat(l.take(s), seq![(p + l[e] - q) as nat]);
    crate::lines::lemma_sum_single((p + l[e] - q) as nat);
}

/// The line that starts at a byte holds that byte, unless it is empty.
pub proof fn lemma_line_at_of_start(l: Seq<nat>, i: int)
    requires
        0 <= i < l.len(),
        l[i] > 0,
    ensures
        line_at(l, line_start(l, i) as int).0 == i,
    decreases i,
{
    crate::lines::lemma_sum_first(l);
    if i > 0 {
        let d = l.drop_first();
        lemma_line_at_of_start(d, i - 1);
        crate::lines::lemma_sum_first(l.take(i));
        assert(l.take(i).drop_first() =~= d.take(i - 1));
    } else {
        assert(l.take(0) =~= Seq::<nat>::empty());
    }
}

/// Lines handed out one at a time, as `(number, start, end)`.
#[derive(Debug)]
pub struct LineRangeIter {
    pub items: Vec<(usize, u64, u64)>,
    pub next_idx: usize,
}

impl LineRangeIter {
    /// The next line, if any: its number and its byte range.
    pub fn next(&mut self) -> (r: Option<(usize, u64, u64)>)
        ensures
            final(self).items@ == old(self).items@,
            old(self).next_idx < old(self).items@.len() ==> r == Some(old(self).items@[old(self).next_idx as int])
                && final(self).next_idx == old(self).next_idx + 1,
            old(self).next_idx >= old(self).items@.len() ==> r is None && final(self).next_idx == old(self).next_idx,
    {
        if self.next_idx < self.items.len() {
            let item = self.items[self.next_idx];
            self.next_idx = self.next_idx + 1;
            Some(item)
        } else {
            None
        }
    }
}

} // verus!
