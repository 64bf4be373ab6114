//! Nodes of the line-index B-tree. A leaf holds the lengths of consecutive
//! lines; an internal node holds child nodes. Every node caches a summary
//! of the lines below it.
use crate::enums::MathError;
use crate::lines::{
    insert_lines, join, lemma_line_at_bounds, lemma_line_at_concat, lemma_sum_concat, lemma_sum_take_le,
    lemma_sum_take_step, line_at, line_start, lines_of, sum, remove_range, clamp,
    lemma_remove_range_concat, lemma_insert_lines_concat, lemma_insert_lines_size, lemma_sum_single,
    count_newlines, lemma_lines_len, lemma_sum_first,
};
use crate::scan::newline_lengths;
use vstd::prelude::*;

verus! {

broadcast use vstd::std_specs::vec::axiom_vec_index_decreases, vstd::seq::axiom_seq_index_decreases;

/// Most lines a leaf holds, and most children an internal node holds,
/// before it splits.
pub const MAX_CHILDREN: usize = 16;

/// Line count and byte length of a run of lines; additive over subtrees.
#[derive(Clone, Copy, Debug, PartialEq, Eq, Structural)]
pub struct LineSummary {
    pub line_count: usize,
    pub byte_len: u64,
}

impl LineSummary {
    /// Adds `other` into `self`.
    pub fn add(&mut self, other: &LineSummary)
        requires
            old(self).line_count + other.line_count <= usize::MAX,
            old(self).byte_len + other.byte_len <= u64::MAX,
        ensures
            final(self).line_count == old(self).line_count + other.line_count,
            final(self).byte_len == old(self).byte_len + other.byte_len,
    {
        self.line_count = self.line_count + other.line_count;
        self.byte_len = self.byte_len + other.byte_len;
    }
}

impl Default for LineSummary {
    fn default() -> (r: Self)
        ensures
            r.line_count == 0 && r.byte_len == 0,
    {
        LineSummary { line_count: 0, byte_len: 0 }
    }
}

/// A node with child nodes.
#[derive(Debug)]
pub struct InternalNode {
    pub summary: LineSummary,
    pub children: Vec<Node>,
}

/// A node with the lengths of consecutive lines, each counting its newline.
#[derive(Debug)]
pub struct LeafNode {
    pub summary: LineSummary,
    pub line_lengths: Vec<u64>,
}

#[derive(Debug)]
pub enum Node {
    Internal(InternalNode),
    Leaf(LeafNode),
}

/// Lengths as mathematical naturals.
pub open spec fn nats(v: Seq<u64>) -> Seq<nat> {
    v.map_values(|x: u64| x as nat)
}

pub open spec fn summary_matches(s: LineSummary, l: Seq<nat>) -> bool {
    s.line_count == l.len() && s.byte_len == sum(l)
}

/// The lines below a sequence of sibling nodes, in order.
pub open spec fn flat_lines(cs: Seq<Node>) -> Seq<nat>
    decreases cs,
{
    if cs.len() == 0 {
        Seq::empty()
    } else {
        flat_lines(cs.drop_last()) + cs.last().line_seq()
    }
}

impl Node {
    /// The lengths of the lines below this node, in order.
    pub open spec fn line_seq(self) -> Seq<nat>
        decreases self,
    {
        match self {
            Node::Leaf(l) => nats(l.line_lengths@),
            Node::Internal(n) => flat_lines(n.children@),
        }
    }

    pub open spec fn spec_summary(self) -> LineSummary {
        match self {
            Node::Leaf(l) => l.summary,
            Node::Internal(n) => n.summary,
        }
    }

    /// Every summary below and at this node matches its lines, and no
    /// child of an internal node is empty.
    pub open spec fn wf(self) -> bool
        decreases self,
    {
        match self {
            Node::Leaf(l) => summary_matches(l.summary, nats(l.line_lengths@)),
            Node::Internal(n) => {
                &&& summary_matches(n.summary, flat_lines(n.children@))
                &&& forall|i: int|
                    0 <= i < n.children@.len() ==> (#[trigger] n.children@[i]).wf()
                        && n.children@[i].line_seq().len() > 0
            },
        }
    }
}

impl Node {
    /// No leaf holds more than `MAX_CHILDREN` lines and no internal node
    /// more than `MAX_CHILDREN` children, here or below.
    pub open spec fn bounded(self) -> bool
        decreases self,
    {
        match self {
            Node::Leaf(l) => l.line_lengths@.len() <= MAX_CHILDREN,
            Node::Internal(n) => n.children@.len() <= MAX_CHILDREN && forall|i: int|
                0 <= i < n.children@.len() ==> (#[trigger] n.children@[i]).bounded(),
        }
    }
}

/// Every node of `cs` is bounded.
pub open spec fn all_bounded(cs: Seq<Node>) -> bool {
    forall|i: int| 0 <= i < cs.len() ==> (#[trigger] cs[i]).bounded()
}

impl LeafNode {
    pub open spec fn line_seq(self) -> Seq<nat> {
        nats(self.line_lengths@)
    }

    pub open spec fn wf(self) -> bool {
        summary_matches(self.summary, self.line_seq())
    }
}

impl InternalNode {
    pub open spec fn line_seq(self) -> Seq<nat> {
        flat_lines(self.children@)
    }

    pub open spec fn wf(self) -> bool {
        &&& summary_matches(self.summary, self.line_seq())
        &&& forall|i: int|
            0 <= i < self.children@.len() ==> (#[trigger] self.children@[i]).wf()
                && self.children@[i].line_seq().len() > 0
    }
}


pub proof fn lemma_flat_concat(a: Seq<Node>, b: Seq<Node>)
    ensures
        flat_lines(a + b) == flat_lines(a) + flat_lines(b),
    decreases b.len(),
{
    if b.len() == 0 {
        assert(a + b =~= a);
        assert(flat_lines(a) + flat_lines(b) =~= flat_lines(a));
    } else {
        lemma_flat_concat(a, b.drop_last());
        assert((a + b).drop_last() =~= a + b.drop_last());
        assert(flat_lines(a + b) =~= flat_lines(a) + flat_lines(b));
    }
}

pub proof fn lemma_flat_single(n: Node)
    ensures
        flat_lines(seq![n]) == n.line_seq(),
{
    let s = seq![n];
    assert(s.drop_last() =~= Seq::<Node>::empty());
    assert(flat_lines(Seq::<Node>::empty()) =~= Seq::<nat>::empty());
    assert(s.last() == n);
    assert(flat_lines(s) == flat_lines(s.drop_last()) + s.last().line_seq());
    assert(flat_lines(s) =~= n.line_seq());
}

/// The lines of siblings split around child `i`.
pub proof fn lemma_flat_split(cs: Seq<Node>, i: int)
    requires
        0 <= i < cs.len(),
    ensures
        flat_lines(cs) == flat_lines(cs.take(i)) + cs[i].line_seq() + flat_lines(cs.skip(i + 1)),
        flat_lines(cs.take(i + 1)) == flat_lines(cs.take(i)) + cs[i].line_seq(),
{
    assert(cs =~= cs.take(i) + seq![cs[i]] + cs.skip(i + 1));
    lemma_flat_concat(cs.take(i) + seq![cs[i]], cs.skip(i + 1));
    lemma_flat_concat(cs.take(i), seq![cs[i]]);
    lemma_flat_single(cs[i]);
    assert(cs.take(i + 1) =~= cs.take(i) + seq![cs[i]]);
}

/// Line start inside a concatenation.
pub proof fn lemma_line_start_concat(x: Seq<nat>, y: Seq<nat>, j: int)
    requires
        0 <= j <= y.len(),
    ensures
        line_start(x + y, x.len() + j) == sum(x) + line_start(y, j),
{
    assert((x + y).take(x.len() + j) =~= x + y.take(j));
    lemma_sum_concat(x, y.take(j));
}

impl Node {
    pub fn summary(&self) -> (r: &LineSummary)
        ensures
            *r == self.spec_summary(),
    {
        match self {
            Node::Internal(n) => &n.summary,
            Node::Leaf(l) => &l.summary,
        }
    }

    /// The summary, to be changed in place.
    pub fn summary_mut(&mut self) -> (r: &mut LineSummary)
        ensures
            *r == old(self).spec_summary(),
            *final(self) == (match *old(self) {
                Node::Internal(n) => Node::Internal(InternalNode { summary: *final(r), children: n.children }),
                Node::Leaf(l) => Node::Leaf(LeafNode { summary: *final(r), line_lengths: l.line_lengths }),
            }),
    {
        match self {
            Node::Internal(n) => &mut n.summary,
            Node::Leaf(l) => &mut l.summary,
        }
    }

    /// Length of line `line_idx` below this node.
    pub fn get_line_length_at(&self, line_idx: usize) -> (r: Option<u64>)
        requires
            self.wf(),
        ensures
            r.is_some() <==> line_idx < self.line_seq().len(),
            r matches Some(v) ==> v == self.line_seq()[line_idx as int],
        decreases self,
    {
        match self {
            Node::Leaf(l) => l.get_line_length_at(line_idx),
            Node::Internal(n) => n.get_line_length_at(line_idx),
        }
    }

    /// Byte offset at which line `line_idx` starts, relative to this node.
    pub fn line_idx_to_abs_idx(&self, line_idx: usize) -> (r: Option<u64>)
        requires
            self.wf(),
        ensures
            r.is_some() <==> line_idx < self.line_seq().len(),
            r matches Some(v) ==> v == line_start(self.line_seq(), line_idx as int),
        decreases self,
    {
        match self {
            Node::Leaf(l) => l.line_idx_to_abs_idx(line_idx),
            Node::Internal(n) => n.line_idx_to_abs_idx(line_idx),
        }
    }

    /// The line that holds byte `abs_idx`, relative to this node.
    pub fn abs_idx_to_line_idx(&self, abs_idx: u64) -> (r: Option<usize>)
        requires
            self.wf(),
        ensures
            r.is_some() <==> abs_idx < sum(self.line_seq()),
            r matches Some(v) ==> v == line_at(self.line_seq(), abs_idx as int).0,
        decreases self,
    {
        match self {
            Node::Leaf(l) => l.abs_idx_to_line_idx(abs_idx),
            Node::Internal(n) => n.abs_idx_to_line_idx(abs_idx),
        }
    }
}

impl LeafNode {
    pub fn get_line_length_at(&self, line_idx: usize) -> (r: Option<u64>)
        requires
            self.wf(),
        ensures
            r.is_some() <==> line_idx < self.line_seq().len(),
            r matches Some(v) ==> v == self.line_seq()[line_idx as int],
    {
        if line_idx < self.line_lengths.len() {
            Some(self.line_lengths[line_idx])
        } else {
            None
        }
    }

    pub fn line_idx_to_abs_idx(&self, line_idx: usize) -> (r: Option<u64>)
        requires
            self.wf(),
        ensures
            r.is_some() <==> line_idx < self.line_seq().len(),
            r matches Some(v) ==> v == line_start(self.line_seq(), line_idx as int),
    {
        if line_idx >= self.line_lengths.len() {
            return None;
        }
        let ghost l = self.line_seq();
        let mut acc: u64 = 0;
        let mut k: usize = 0;
        while k < line_idx
            invariant
                k <= line_idx < self.line_lengths.len(),
                l == self.line_seq(),
                self.wf(),
                acc == sum(l.take(k as int)),
            decreases line_idx - k,
        {
            proof {
                lemma_sum_take_step(l, k as int);
                lemma_sum_take_le(l, k + 1);
            }
            acc = acc + self.line_lengths[k];
            k = k + 1;
        }
        Some(acc)
    }

    pub fn abs_idx_to_line_idx(&self, abs_idx: u64) -> (r: Option<usize>)
        requires
            self.wf(),
        ensures
            r.is_some() <==> abs_idx < sum(self.line_seq()),
            r matches Some(v) ==> v == line_at(self.line_seq(), abs_idx as int).0,
    {
        let ghost l = self.line_seq();
        let mut rel: u64 = abs_idx;
        let mut k: usize = 0;
        while k < self.line_lengths.len()
            invariant
                k <= self.line_lengths.len(),
                l == self.line_seq(),
                self.wf(),
                sum(l.take(k as int)) <= abs_idx,
                rel == abs_idx - sum(l.take(k as int)),
            decreases self.line_lengths.len() - k,
        {
            proof {
                lemma_sum_take_step(l, k as int);
            }
            if rel < self.line_lengths[k] {
                proof {
                    let x = l.take(k as int);
                    let y = l.skip(k as int);
                    assert(x + y =~= l);
                    lemma_line_at_concat(x, y, abs_idx as int);
                    lemma_sum_concat(x, y);
                    lemma_sum_take_le(l, k + 1);
                }
                return Some(k);
            }
            rel = rel - self.line_lengths[k];
            k = k + 1;
        }
        proof {
            assert(l.take(k as int) =~= l);
        }
        None
    }
}

impl InternalNode {
    pub fn get_line_length_at(&self, line_idx: usize) -> (r: Option<u64>)
        requires
            self.wf(),
        ensures
            r.is_some() <==> line_idx < self.line_seq().len(),
            r matches Some(v) ==> v == self.line_seq()[line_idx as int],
        decreases self,
    {
        if line_idx >= self.summary.line_count {
            return None;
        }
        let ghost cs = self.children@;
        let mut rel: usize = line_idx;
        let mut k: usize = 0;
        while k < self.children.len()
            invariant
                k <= self.children.len(),
                cs == self.children@,
                self.wf(),
                line_idx < self.line_seq().len(),
                flat_lines(cs.take(k as int)).len() <= line_idx,
                rel == line_idx - flat_lines(cs.take(k as int)).len(),
            decreases self.children.len() - k,
        {
            proof {
                lemma_flat_split(cs, k as int);
            }
            let count = self.children[k].summary().line_count;
            if rel < count {
                let r = self.children[k].get_line_length_at(rel);
                return r;
            }
            rel = rel - count;
            k = k + 1;
        }
        proof {
            assert(cs.take(k as int) =~= cs);
        }
        None
    }

    pub fn line_idx_to_abs_idx(&self, line_idx: usize) -> (r: Option<u64>)
        requires
            self.wf(),
        ensures
            r.is_some() <==> line_idx < self.line_seq().len(),
            r matches Some(v) ==> v == line_start(self.line_seq(), line_idx as int),
        decreases self,
    {
        if line_idx >= self.summary.line_count {
            return None;
        }
        let ghost cs = self.children@;
        let mut rel: usize = line_idx;
        let mut acc: u64 = 0;
        let mut k: usize = 0;
        while k < self.children.len()
            invariant
                k <= self.children.len(),
                cs == self.children@,
                self.wf(),
                line_idx < self.line_seq().len(),
                flat_lines(cs.take(k as int)).len() <= line_idx,
                rel == line_idx - flat_lines(cs.take(k as int)).len(),
                acc == sum(flat_lines(cs.take(k as int))),
            decreases self.children.len() - k,
        {
            proof {
                lemma_flat_split(cs, k as int);
                lemma_sum_concat(flat_lines(cs.take(k as int)), cs[k as int].line_seq());
                lemma_sum_concat(
                    flat_lines(cs.take(k as int)) + cs[k as int].line_seq(),
                    flat_lines(cs.skip(k + 1)),
                );
            }
            let count = self.children[k].summary().line_count;
            let bytes = self.children[k].summary().byte_len;
            if rel < count {
                let r = self.children[k].line_idx_to_abs_idx(rel);
                proof {
                    let x = flat_lines(cs.take(k as int));
                    let c = cs[k as int].line_seq();
                    let y = flat_lines(cs.skip(k + 1));
                    assert(x + c + y =~= x + (c + y));
                    lemma_line_start_concat(x, c + y, rel as int);
                    assert((c + y).take(rel as int) =~= c.take(rel as int));
                    lemma_sum_take_le(c, rel as int);
                }
                return Some(acc + r.unwrap());
            }
            rel = rel - count;
            acc = acc + bytes;
            k = k + 1;
        }
        proof {
            assert(cs.take(k as int) =~= cs);
        }
        None
    }

    pub fn abs_idx_to_line_idx(&self, abs_idx: u64) -> (r: Option<usize>)
        requires
            self.wf(),
        ensures
            r.is_some() <==> abs_idx < sum(self.line_seq()),
            r matches Some(v) ==> v == line_at(self.line_seq(), abs_idx as int).0,
        decreases self,
    {
        if abs_idx >= self.summary.byte_len {
            return None;
        }
        let ghost cs = self.children@;
        let mut rel: u64 = abs_idx;
        let mut lines_before: usize = 0;
        let mut k: usize = 0;
        while k < self.children.len()
            invariant
                k <= self.children.len(),
                cs == self.children@,
                self.wf(),
                abs_idx < sum(self.line_seq()),
                sum(flat_lines(cs.take(k as int))) <= abs_idx,
                rel == abs_idx - sum(flat_lines(cs.take(k as int))),
                lines_before == flat_lines(cs.take(k as int)).len(),
            decreases self.children.len() - k,
        {
            proof {
                lemma_flat_split(cs, k as int);
                lemma_sum_concat(flat_lines(cs.take(k as int)), cs[k as int].line_seq());
                lemma_sum_concat(
                    flat_lines(cs.take(k as int)) + cs[k as int].line_seq(),
                    flat_lines(cs.skip(k + 1)),
                );
            }
            let count = self.children[k].summary().line_count;
            let bytes = self.children[k].summary().byte_len;
            if rel < bytes {
                let r = self.children[k].abs_idx_to_line_idx(rel);
                proof {
                    let x = flat_lines(cs.take(k as int));
                    let c = cs[k as int].line_seq();
                    let y = flat_lines(cs.skip(k + 1));
                    assert(x + c + y =~= x + (c + y));
                    lemma_line_at_concat(x, c + y, abs_idx as int);
                    lemma_line_at_concat(c, y, rel as int);
                    lemma_line_at_bounds(c, rel as int);
                }
                return Some(lines_before + r.unwrap());
            }
            rel = rel - bytes;
            lines_before = lines_before + count;
            k = k + 1;
        }
        proof {
            assert(cs.take(k as int) =~= cs);
        }
        None
    }
}


/// What setting line `i` of `l` to `v` yields: the change in length, or why
/// it is refused.
pub open spec fn set_line_outcome(l: Seq<nat>, i: int, v: u64) -> Result<i64, MathError> {
    if i < 0 || i >= l.len() {
        Err(MathError::OutOfBounds(l.len() as usize))
    } else if l[i] > i64::MAX || v > i64::MAX {
        Err(MathError::ConversionFailed)
    } else if sum(l) - l[i] + v > u64::MAX {
        Err(MathError::Overflow)
    } else {
        Ok((v - l[i]) as i64)
    }
}

/// Sum after replacing one entry.
pub proof fn lemma_sum_update(l: Seq<nat>, i: int, v: nat)
    requires
        0 <= i < l.len(),
    ensures
        sum(l.update(i, v)) == sum(l) - l[i] + v,
{
    let x = l.take(i);
    let y = l.skip(i + 1);
    assert(l =~= x + seq![l[i]] + y);
    assert(l.update(i, v) =~= x + seq![v] + y);
    lemma_sum_concat(x + seq![l[i]], y);
    lemma_sum_concat(x, seq![l[i]]);
    lemma_sum_concat(x + seq![v], y);
    lemma_sum_concat(x, seq![v]);
    lemma_sum_one(l[i]);
    lemma_sum_one(v);
}

pub proof fn lemma_sum_one(v: nat)
    ensures
        sum(seq![v]) == v,
{
    let s = seq![v];
    assert(s.drop_last() =~= Seq::<nat>::empty());
    assert(sum(Seq::<nat>::empty()) == 0);
}

/// Applies `d` to `x`, where the result is known to fit.
fn add_signed(x: u64, d: i64) -> (r: u64)
    requires
        0 <= x + d <= u64::MAX,
    ensures
        r == x + d,
{
    if d >= 0 {
        x + d as u64
    } else {
        x - ((0 - (d as i128)) as u64)
    }
}

impl Node {
    /// Sets the length of line `target_line_idx` and returns the change.
    #[verifier::rlimit(80)]
    pub fn set_line_length(&mut self, target_line_idx: usize, new_len: u64) -> (r: Result<i64, MathError>)
        requires
            old(self).wf(),
        ensures
            final(self).wf(),
            r == set_line_outcome(old(self).line_seq(), target_line_idx as int, new_len),
            r is Ok ==> final(self).line_seq() == old(self).line_seq().update(target_line_idx as int, new_len as nat),
            r is Err ==> *final(self) == *old(self),
            old(self).bounded() ==> final(self).bounded(),
        decreases *old(self),
    {
        match self {
            Node::Leaf(l) => l.set_line_length(target_line_idx, new_len),
            Node::Internal(n) => n.set_line_length(target_line_idx, new_len),
        }
    }
}

impl LeafNode {
    #[verifier::rlimit(80)]
    pub fn set_line_length(&mut self, target_line_idx: usize, new_len: u64) -> (r: Result<i64, MathError>)
        requires
            old(self).wf(),
        ensures
            final(self).wf(),
            r == set_line_outcome(old(self).line_seq(), target_line_idx as int, new_len),
            r is Ok ==> final(self).line_seq() == old(self).line_seq().update(target_line_idx as int, new_len as nat),
            r is Err ==> *final(self) == *old(self),
            final(self).line_lengths@.len() == old(self).line_lengths@.len(),
    {
        let n = self.line_lengths.len();
        if target_line_idx >= n {
            return Err(MathError::OutOfBounds(n));
        }
        let old_len = self.line_lengths[target_line_idx];
        if old_len > i64::MAX as u64 || new_len > i64::MAX as u64 {
            return Err(MathError::ConversionFailed);
        }
        proof {
            lemma_sum_update(self.line_seq(), target_line_idx as int, new_len as nat);
            lemma_sum_update(self.line_seq(), target_line_idx as int, 0);
        }
        let rest = self.summary.byte_len - old_len;
        if rest > u64::MAX - new_len {
            return Err(MathError::Overflow);
        }
        let diff = (new_len as i64) - (old_len as i64);
        self.line_lengths.set(target_line_idx, new_len);
        self.summary.byte_len = rest + new_len;
        proof {
            assert(self.line_seq() =~= old(self).line_seq().update(target_line_idx as int, new_len as nat));
        }
        Ok(diff)
    }
}

impl InternalNode {
    #[verifier::rlimit(80)]
    pub fn set_line_length(&mut self, target_line_idx: usize, new_len: u64) -> (r: Result<i64, MathError>)
        requires
            old(self).wf(),
        ensures
            final(self).wf(),
            r == set_line_outcome(old(self).line_seq(), target_line_idx as int, new_len),
            r is Ok ==> final(self).line_seq() == old(self).line_seq().update(target_line_idx as int, new_len as nat),
            r is Err ==> *final(self) == *old(self),
            final(self).children@.len() == old(self).children@.len(),
            all_bounded(old(self).children@) ==> all_bounded(final(self).children@),
        decreases *old(self),
    {
        let count = self.summary.line_count;
        if target_line_idx >= count {
            return Err(MathError::OutOfBounds(count));
        }
        let old_len = self.get_line_length_at(target_line_idx).unwrap();
        if old_len > i64::MAX as u64 || new_len > i64::MAX as u64 {
            return Err(MathError::ConversionFailed);
        }
        proof {
            lemma_sum_update(self.line_seq(), target_line_idx as int, new_len as nat);
            lemma_sum_update(self.line_seq(), target_line_idx as int, 0);
        }
        let rest = self.summary.byte_len - old_len;
        if rest > u64::MAX - new_len {
            return Err(MathError::Overflow);
        }
        let ghost cs = self.children@;
        let ghost l = self.line_seq();
        let mut rel: usize = target_line_idx;
        let mut k: usize = 0;
        while k < self.children.len()
            invariant
                k <= self.children.len(),
                cs == self.children@,
                *self == *old(self),
                old_len == l[target_line_idx as int],
                old_len <= i64::MAX,
                new_len <= i64::MAX,
                sum(l) - old_len + new_len <= u64::MAX,
                self.wf(),
                l == self.line_seq(),
                target_line_idx < l.len(),
                flat_lines(cs.take(k as int)).len() <= target_line_idx,
                rel == target_line_idx - flat_lines(cs.take(k as int)).len(),
            decreases self.children.len() - k,
        {
            proof {
                lemma_flat_split(cs, k as int);
            }
            let c = self.children[k].summary().line_count;
            if rel < c {
                let ghost x = flat_lines(cs.take(k as int));
                let ghost y = flat_lines(cs.skip(k + 1));
                let ghost old_child = cs[k as int];
                proof {
                    assert(l[target_line_idx as int] == old_child.line_seq()[rel as int]);
                    lemma_sum_concat(x, old_child.line_seq());
                    lemma_sum_concat(x + old_child.line_seq(), y);
                    lemma_sum_update(l, target_line_idx as int, new_len as nat);
                    lemma_sum_update(old_child.line_seq(), rel as int, new_len as nat);
                    lemma_sum_update(old_child.line_seq(), rel as int, 0);
                }
                let res = self.children[k].set_line_length(rel, new_len);
                match res {
                    Err(e) => {
                        return Err(e);
                    },
                    Ok(d) => {
                        let ghost new_child = self.children@[k as int];
                        proof {
                            let ncs = self.children@;
                            assert(ncs.take(k as int) =~= cs.take(k as int));
                            assert(ncs.skip(k + 1) =~= cs.skip(k + 1));
                            lemma_flat_split(ncs, k as int);
                            assert(self.line_seq() =~= l.update(target_line_idx as int, new_len as nat));
                            assert forall|i: int| 0 <= i < ncs.len() implies (#[trigger] ncs[i]).wf()
                                && ncs[i].line_seq().len() > 0 && (all_bounded(cs) ==> ncs[i].bounded()) by {
                                if i != k {
                                    assert(ncs[i] == cs[i]);
                                }
                            }
                        }
                        self.summary.byte_len = add_signed(self.summary.byte_len, d);
                        return Ok(d);
                    },
                }
            }
            rel = rel - c;
            k = k + 1;
        }
        proof {
            assert(cs.take(k as int) =~= cs);
        }
        Err(MathError::OutOfBounds(count))
    }
}


impl Node {
    /// Removes lines `start..=end` (those that exist) and culls children
    /// left empty; returns the number of bytes removed.
    pub fn remove_line_range(&mut self, start: usize, end: usize) -> (r: Result<u64, MathError>)
        requires
            old(self).wf(),
        ensures
            final(self).wf(),
            final(self).line_seq() == remove_range(old(self).line_seq(), start as int, end as int),
            r == Ok::<u64, MathError>((sum(old(self).line_seq()) - sum(final(self).line_seq())) as u64),
            old(self).bounded() ==> final(self).bounded(),
        decreases *old(self),
    {
        match self {
            Node::Leaf(l) => Ok(l.remove_line_range(start, end)),
            Node::Internal(n) => n.remove_line_range(start, end),
        }
    }
}

/// The part of a run that survives a removal weighs no more than the run.
pub proof fn lemma_remove_range_sum(l: Seq<nat>, s: int, e: int)
    ensures
        sum(remove_range(l, s, e)) <= sum(l),
        remove_range(l, s, e).len() <= l.len(),
{
    if s <= e {
        let a = clamp(l, s);
        let b = clamp(l, e + 1);
        if a <= b {
            assert(l =~= l.take(a) + (l.skip(a).take(b - a) + l.skip(b)));
            lemma_sum_concat(l.take(a), l.skip(a).take(b - a) + l.skip(b));
            lemma_sum_concat(l.skip(a).take(b - a), l.skip(b));
            lemma_sum_concat(l.take(a), l.skip(b));
        } else {
            assert(false);
        }
    }
}

impl LeafNode {
    pub fn remove_line_range(&mut self, start: usize, end: usize) -> (r: u64)
        requires
            old(self).wf(),
        ensures
            final(self).wf(),
            final(self).line_seq() == remove_range(old(self).line_seq(), start as int, end as int),
            r == sum(old(self).line_seq()) - sum(final(self).line_seq()),
            final(self).line_lengths@.len() <= old(self).line_lengths@.len(),
    {
        proof {
            lemma_remove_range_sum(old(self).line_seq(), start as int, end as int);
        }
        let ghost l = self.line_seq();
        let n = self.line_lengths.len();
        if start > end || start >= n {
            return 0;
        }
        let stop: usize = if end >= n - 1 { n } else { end + 1 };
        let mut kept: Vec<u64> = Vec::new();
        let mut kept_sum: u64 = 0;
        let mut k: usize = 0;
        while k < n
            invariant
                n == self.line_lengths.len(),
                l == self.line_seq(),
                self.wf(),
                start < stop <= n,
                start <= end,
                stop == (if end >= n - 1 { n } else { (end + 1) as usize }),
                k <= n,
                nats(kept@) == remove_range(l.take(k as int), start as int, end as int),
                kept_sum == sum(nats(kept@)),
                sum(nats(kept@)) <= sum(l.take(k as int)),
            decreases n - k,
        {
            proof {
                lemma_sum_take_step(l, k as int);
                lemma_sum_take_le(l, k + 1);
                assert(l.take(k + 1) =~= l.take(k as int) + seq![l[k as int]]);
                lemma_remove_range_concat(l.take(k as int), seq![l[k as int]], start as int, end as int);
            }
            let v = self.line_lengths[k];
            if k < start || k >= stop {
                proof {
                    lemma_sum_concat(nats(kept@), seq![v as nat]);
                    crate::node::lemma_sum_one_nat(v as nat);
                    assert(nats(kept@.push(v)) =~= nats(kept@) + seq![v as nat]);
                    let one = seq![l[k as int]];
                    if k < start {
                        assert(one.take(1) =~= one);
                        assert(one.skip(1) =~= Seq::<nat>::empty());
                    } else {
                        assert(end < k);
                        assert(one.take(0) =~= Seq::<nat>::empty());
                        assert(one.skip(0) =~= one);
                    }
                    assert(remove_range(one, start - k, end - k) =~= seq![v as nat]);
                }
                kept.push(v);
                kept_sum = kept_sum + v;
            } else {
                proof {
                    let one = seq![l[k as int]];
                    assert(k <= end);
                    assert(clamp(one, start - k) == 0);
                    assert(clamp(one, end - k + 1) == 1);
                    assert(one.take(0) =~= Seq::<nat>::empty());
                    assert(one.skip(1) =~= Seq::<nat>::empty());
                    assert(remove_range(one, start - k, end - k) =~= Seq::<nat>::empty());
                    assert(nats(kept@) + Seq::<nat>::empty() =~= nats(kept@));
                }
            }
            k = k + 1;
        }
        proof {
            assert(l.take(n as int) =~= l);
        }
        let removed = self.summary.byte_len - kept_sum;
        self.summary = LineSummary { line_count: kept.len(), byte_len: kept_sum };
        self.line_lengths = kept;
        removed
    }
}

pub proof fn lemma_sum_one_nat(v: nat)
    ensures
        sum(seq![v]) == v,
{
    lemma_sum_one(v);
}

impl InternalNode {
    #[verifier::rlimit(80)]
    pub fn remove_line_range(&mut self, start: usize, end: usize) -> (r: Result<u64, MathError>)
        requires
            old(self).wf(),
        ensures
            final(self).wf(),
            final(self).line_seq() == remove_range(old(self).line_seq(), start as int, end as int),
            r == Ok::<u64, MathError>((sum(old(self).line_seq()) - sum(final(self).line_seq())) as u64),
            final(self).children@.len() <= old(self).children@.len(),
            all_bounded(old(self).children@) ==> all_bounded(final(self).children@),
        decreases *old(self),
    {
        let ghost old_cs = self.children@;
        let ghost l = self.line_seq();
        let mut i: usize = 0;
        let mut k: usize = 0;
        let mut base: usize = 0;
        let n = self.children.len();
        let total_lines = self.summary.line_count;
        let total_bytes = self.summary.byte_len;
        while k < n
            invariant
                n == old_cs.len(),
                old_cs == old(self).children@,
                l == flat_lines(old_cs),
                summary_matches(old(self).summary, l),
                total_lines == l.len(),
                total_bytes == sum(l),
                forall|j: int| 0 <= j < old_cs.len() ==> (#[trigger] old_cs[j]).wf()
                    && old_cs[j].line_seq().len() > 0,
                k <= n,
                i <= k,
                base == flat_lines(old_cs.take(k as int)).len(),
                self.children@ == self.children@.take(i as int) + old_cs.skip(k as int),
                self.children@.len() == i + (n - k),
                flat_lines(self.children@.take(i as int)) == remove_range(
                    flat_lines(old_cs.take(k as int)),
                    start as int,
                    end as int,
                ),
                forall|j: int| 0 <= j < i ==> (#[trigger] self.children@[j]).wf()
                    && self.children@[j].line_seq().len() > 0 && (all_bounded(old_cs) ==> self.children@[j].bounded()),
            decreases n - k,
        {
            let ghost cur = self.children@;
            let ghost child = old_cs[k as int];
            proof {
                lemma_flat_split(old_cs, k as int);
                assert(cur[i as int] == child);
                lemma_flat_concat(old_cs.take(k as int), old_cs.skip(k as int));
                assert(old_cs =~= old_cs.take(k as int) + old_cs.skip(k as int));
                lemma_flat_split(old_cs.skip(k as int), 0);
                assert(old_cs.skip(k as int).take(0) =~= Seq::<Node>::empty());
                assert(flat_lines(Seq::<Node>::empty()) =~= Seq::<nat>::empty());
            }
            let c = self.children[i].summary().line_count;
            let ghost clines = child.line_seq();
            let ghost prefix = flat_lines(old_cs.take(k as int));
            proof {
                lemma_remove_range_concat(prefix, clines, start as int, end as int);
                assert(old_cs.take(k + 1) =~= old_cs.take(k as int) + seq![child]);
                lemma_flat_concat(old_cs.take(k as int), seq![child]);
                lemma_flat_single(child);
            }
            let touches = start <= end && start < base + c && end >= base;
            if touches {
                let s_loc: usize = if start > base { start - base } else { 0 };
                let e_loc: usize = end - base;
                proof {
                    assert(remove_range(clines, s_loc as int, e_loc as int) =~= remove_range(
                        clines,
                        start - base,
                        end - base,
                    ));
                }
                proof {
                    assert(decreases_to!(*old(self) => old(self).children));
                    assert(old(self).children@[k as int] == self.children@[i as int]);
                    assert(decreases_to!(old(self).children => old(self).children@[k as int]));
                }
                let _ = self.children[i].remove_line_range(s_loc, e_loc);
                let ghost after = self.children@;
                let now = self.children[i].summary().line_count;
                if now == 0 {
                    proof {
                        assert(after[i as int].line_seq().len() == 0);
                    }
                    let _dropped = self.children.remove(i);
                    proof {
                        assert(self.children@.take(i as int) =~= cur.take(i as int));
                        assert(self.children@ =~= self.children@.take(i as int) + old_cs.skip(k + 1));
                        assert(remove_range(clines, start - base, end - base) =~= Seq::<nat>::empty());
                        assert(flat_lines(self.children@.take(i as int)) + Seq::<nat>::empty()
                            =~= flat_lines(self.children@.take(i as int)));
                    }
                } else {
                    proof {
                        assert(after.take(i as int) =~= cur.take(i as int));
                        assert(after.take(i + 1) =~= cur.take(i as int) + seq![after[i as int]]);
                        lemma_flat_concat(cur.take(i as int), seq![after[i as int]]);
                        lemma_flat_single(after[i as int]);
                        assert(after =~= after.take(i + 1) + old_cs.skip(k + 1));
                        assert forall|j: int| 0 <= j < i + 1 implies (#[trigger] after[j]).wf()
                            && after[j].line_seq().len() > 0 && (all_bounded(old_cs) ==> after[j].bounded()) by {
                            if j < i {
                                assert(after[j] == cur[j]);
                            }
                        }
                    }
                    i = i + 1;
                }
            } else {
                proof {
                    assert(remove_range(clines, start - base, end - base) =~= clines);
                    assert(cur.take(i + 1) =~= cur.take(i as int) + seq![child]);
                    lemma_flat_concat(cur.take(i as int), seq![child]);
                    assert(cur =~= cur.take(i + 1) + old_cs.skip(k + 1));
                }
                i = i + 1;
            }
            base = base + c;
            k = k + 1;
        }
        proof {
            assert(old_cs.take(n as int) =~= old_cs);
            assert(self.children@.take(i as int) =~= self.children@);
            lemma_remove_range_sum(l, start as int, end as int);
        }
        let ghost nl = flat_lines(self.children@);
        let new_count = self.count_lines();
        let new_bytes = self.count_bytes();
        self.summary = LineSummary { line_count: new_count, byte_len: new_bytes };
        Ok(total_bytes - new_bytes)
    }
}


/// Every child is well formed and holds at least one line.
pub open spec fn children_ok(cs: Seq<Node>) -> bool {
    forall|j: int| 0 <= j < cs.len() ==> (#[trigger] cs[j]).wf() && cs[j].line_seq().len() > 0
}

impl InternalNode {
    /// Lines below the children, counted from their summaries.
    pub(crate) fn count_lines(&self) -> (r: usize)
        requires
            children_ok(self.children@),
            flat_lines(self.children@).len() <= usize::MAX,
        ensures
            r == flat_lines(self.children@).len(),
    {
        let ghost cs = self.children@;
        let mut acc: usize = 0;
        let mut k: usize = 0;
        while k < self.children.len()
            invariant
                cs == self.children@,
                children_ok(cs),
                flat_lines(cs).len() <= usize::MAX,
                k <= cs.len(),
                acc == flat_lines(cs.take(k as int)).len(),
            decreases cs.len() - k,
        {
            proof {
                lemma_flat_split(cs, k as int);
                assert(cs[k as int].wf());
            }
            acc = acc + self.children[k].summary().line_count;
            k = k + 1;
        }
        proof {
            assert(cs.take(k as int) =~= cs);
        }
        acc
    }

    /// Bytes below the children, counted from their summaries.
    pub(crate) fn count_bytes(&self) -> (r: u64)
        requires
            children_ok(self.children@),
            sum(flat_lines(self.children@)) <= u64::MAX,
        ensures
            r == sum(flat_lines(self.children@)),
    {
        let ghost cs = self.children@;
        let mut acc: u64 = 0;
        let mut k: usize = 0;
        while k < self.children.len()
            invariant
                cs == self.children@,
                children_ok(cs),
                sum(flat_lines(cs)) <= u64::MAX,
                k <= cs.len(),
                acc == sum(flat_lines(cs.take(k as int))),
            decreases cs.len() - k,
        {
            proof {
                lemma_flat_split(cs, k as int);
                assert(cs[k as int].wf());
                lemma_sum_concat(flat_lines(cs.take(k as int)), cs[k as int].line_seq());
                lemma_sum_concat(
                    flat_lines(cs.take(k as int)) + cs[k as int].line_seq(),
                    flat_lines(cs.skip(k + 1)),
                );
            }
            acc = acc + self.children[k].summary().byte_len;
            k = k + 1;
        }
        proof {
            assert(cs.take(k as int) =~= cs);
        }
        acc
    }
}


/// A leaf's lines as an insertion sees them: an empty leaf acts as one
/// empty line.
pub open spec fn pad(l: Seq<nat>) -> Seq<nat> {
    if l.len() == 0 {
        seq![0nat]
    } else {
        l
    }
}

/// Why inserting `bytes` at byte `off` into lines `l` is refused, if it is.
pub open spec fn insert_error(l: Seq<nat>, off: int, bytes: Seq<u8>) -> Option<MathError> {
    if off > sum(l) {
        Some(MathError::OutOfBounds(sum(l) as usize))
    } else if sum(l) + bytes.len() > u64::MAX || pad(l).len() + count_newlines(bytes) > usize::MAX {
        Some(MathError::Overflow)
    } else {
        None
    }
}

/// The lines after a node took an insertion: its own, then those of the
/// sibling it split off, if any.
pub open spec fn leaf_lines_after(own: Seq<nat>, sibling: Option<LeafNode>) -> Seq<nat> {
    match sibling {
        Some(s) => own + s.line_seq(),
        None => own,
    }
}

pub open spec fn internal_lines_after(own: Seq<nat>, sibling: Option<InternalNode>) -> Seq<nat> {
    match sibling {
        Some(s) => own + s.line_seq(),
        None => own,
    }
}

pub open spec fn node_lines_after(own: Seq<nat>, sibling: Option<Node>) -> Seq<nat> {
    match sibling {
        Some(s) => own + s.line_seq(),
        None => own,
    }
}

/// What `insert_lengths` asks of the lengths it is handed.
pub open spec fn insert_ready(l: Seq<nat>, off: u64, nl: Seq<u64>, blen: u64) -> bool {
    &&& nl.len() >= 1
    &&& sum(nats(nl)) == blen
    &&& off <= sum(l)
    &&& sum(l) + blen <= u64::MAX
    &&& pad(l).len() + nl.len() - 1 <= usize::MAX
}

/// Sum of a vector of lengths.
pub(crate) fn sum_u64s(v: &Vec<u64>) -> (r: u64)
    requires
        sum(nats(v@)) <= u64::MAX,
    ensures
        r == sum(nats(v@)),
{
    let ghost l = nats(v@);
    let mut acc: u64 = 0;
    let mut k: usize = 0;
    while k < v.len()
        invariant
            l == nats(v@),
            sum(l) <= u64::MAX,
            k <= v.len(),
            acc == sum(l.take(k as int)),
        decreases v.len() - k,
    {
        proof {
            lemma_sum_take_step(l, k as int);
            lemma_sum_take_le(l, k + 1);
        }
        acc = acc + v[k];
        k = k + 1;
    }
    proof {
        assert(l.take(k as int) =~= l);
    }
    acc
}

/// The lengths `join(join([before], nl), [after])`: the inserted lines, with
/// `before` added to the first and `after` to the last.
#[verifier::rlimit(80)]
fn joined_lengths(before: u64, nl: &Vec<u64>, after: u64) -> (r: Vec<u64>)
    requires
        nl@.len() >= 1,
        before + sum(nats(nl@)) + after <= u64::MAX,
    ensures
        nats(r@) == join(join(seq![before as nat], nats(nl@)), seq![after as nat]),
{
    let ghost nn = nats(nl@);
    let m = nl.len();
    proof {
        lemma_sum_update(nn, 0, 0);
        lemma_sum_update(nn, m - 1, 0);
        if m >= 2 {
            lemma_sum_first(nn);
            lemma_sum_update(nn.drop_first(), m - 2, 0);
        }
    }
    let mut mid: Vec<u64> = Vec::new();
    if m == 1 {
        mid.push(before + nl[0] + after);
        proof {
            assert(nats(mid@) =~= join(join(seq![before as nat], nn), seq![after as nat]));
        }
    } else {
        mid.push(before + nl[0]);
        let mut j: usize = 1;
        while j < m - 1
            invariant
                m == nl@.len(),
                m >= 2,
                nn == nats(nl@),
                1 <= j <= m - 1,
                nats(mid@) == seq![(before + nn[0]) as nat] + nn.subrange(1, j as int),
            decreases m - j,
        {
            let v = nl[j];
            let ghost prev = mid@;
            mid.push(v);
            proof {
                assert(nats(mid@) =~= nats(prev) + seq![v as nat]);
                assert(nn.subrange(1, j + 1) =~= nn.subrange(1, j as int) + seq![nn[j as int]]);
                assert(nats(mid@) =~= seq![(before + nn[0]) as nat] + nn.subrange(1, j + 1));
            }
            j = j + 1;
        }
        let ghost prev = mid@;
        mid.push(nl[m - 1] + after);
        proof {
            assert(nats(mid@) =~= nats(prev) + seq![(nn[m - 1] + after) as nat]);
            assert(nats(mid@) =~= join(join(seq![before as nat], nn), seq![after as nat]));
        }
    }
    mid
}

impl LeafNode {
    /// Appends a single empty line to an empty leaf.
    fn default_if_empty(&mut self)
        requires
            old(self).wf(),
        ensures
            final(self).wf(),
            final(self).line_seq() == pad(old(self).line_seq()),
    {
        if self.line_lengths.len() == 0 {
            self.line_lengths.push(0);
            self.summary.line_count = 1;
            proof {
                assert(self.line_seq() =~= seq![0nat]);
                lemma_sum_single(0);
            }
        }
    }

    /// Splits off the upper half of the lines once the leaf holds more than
    /// `MAX_CHILDREN` of them.
    #[verifier::rlimit(80)]
    pub fn split_if_needed(&mut self) -> (r: Option<LeafNode>)
        requires
            old(self).wf(),
        ensures
            final(self).wf(),
            r is None ==> old(self).line_seq().len() <= MAX_CHILDREN && final(self).line_seq() == old(self).line_seq()
                && final(self).summary == old(self).summary,
            r matches Some(s) ==> old(self).line_seq().len() > MAX_CHILDREN && s.wf()
                && final(self).line_seq() == old(self).line_seq().take(old(self).line_seq().len() as int / 2)
                && s.line_seq() == old(self).line_seq().skip(old(self).line_seq().len() as int / 2)
                && final(self).line_lengths@ == old(self).line_lengths@.take(old(self).line_seq().len() as int / 2)
                && s.line_lengths@ == old(self).line_lengths@.skip(old(self).line_seq().len() as int / 2),
    {
        let n = self.line_lengths.len();
        if n <= MAX_CHILDREN {
            return None;
        }
        let ghost l = self.line_seq();
        let mid = n / 2;
        let right = self.line_lengths.split_off(mid);
        proof {
            assert(l =~= nats(self.line_lengths@) + nats(right@));
            lemma_sum_concat(nats(self.line_lengths@), nats(right@));
        }
        let left_sum = sum_u64s(&self.line_lengths);
        let right_sum = sum_u64s(&right);
        self.summary = LineSummary { line_count: self.line_lengths.len(), byte_len: left_sum };
        proof {
            assert(self.line_seq() =~= l.take(mid as int));
            assert(nats(right@) =~= l.skip(mid as int));
        }
        Some(LeafNode { summary: LineSummary { line_count: right.len(), byte_len: right_sum }, line_lengths: right })
    }

    /// The line holding byte `off` and the offset within it.
    #[verifier::rlimit(80)]
    fn locate_line(&self, off: u64) -> (r: (usize, u64))
        requires
            self.wf(),
            self.line_seq().len() >= 1,
            off <= sum(self.line_seq()),
        ensures
            r.0 as int == line_at(self.line_seq(), off as int).0,
            r.1 as int == line_at(self.line_seq(), off as int).1,
            r.0 < self.line_seq().len(),
    {
        let ghost l = self.line_seq();
        let n = self.line_lengths.len();
        let mut k: usize = 0;
        let mut rel: u64 = off;
        while k < n - 1 && rel >= self.line_lengths[k]
            invariant
                n == self.line_lengths.len(),
                n >= 1,
                l == self.line_seq(),
                self.wf(),
                k < n,
                sum(l.take(k as int)) + rel == off,
                off <= sum(l),
            decreases n - k,
        {
            proof {
                lemma_sum_take_step(l, k as int);
            }
            rel = rel - self.line_lengths[k];
            k = k + 1;
        }
        proof {
            assert(l.take(k as int) + l.skip(k as int) =~= l);
            lemma_line_at_concat(l.take(k as int), l.skip(k as int), off as int);
            lemma_sum_concat(l.take(k as int), l.skip(k as int));
            assert(line_at(l.skip(k as int), rel as int) == (0int, rel as int));
        }
        (k, rel)
    }

    /// Replaces line `k` by the lines `mid`.
    fn splice_line(&mut self, k: usize, mid: Vec<u64>)
        requires
            k < old(self).line_lengths@.len(),
        ensures
            final(self).summary == old(self).summary,
            final(self).line_seq() == old(self).line_seq().take(k as int) + nats(mid@) + old(self).line_seq().skip(
                k + 1,
            ),
    {
        let ghost l = self.line_seq();
        let ghost m0 = mid@;
        let mut mid = mid;
        let mut tail = self.line_lengths.split_off(k);
        tail.remove(0);
        self.line_lengths.append(&mut mid);
        self.line_lengths.append(&mut tail);
        proof {
            assert(self.line_seq() =~= l.take(k as int) + nats(m0) + l.skip(k + 1));
        }
    }

    /// Inserts text whose line lengths are `nl` (adding up to `blen`) at
    /// byte `off`, then splits if the leaf grew too large.
    #[verifier::rlimit(80)]
    pub(crate) fn insert_lengths(&mut self, off: u64, nl: &Vec<u64>, blen: u64) -> (r: Option<LeafNode>)
        requires
            old(self).wf(),
            insert_ready(old(self).line_seq(), off, nl@, blen),
        ensures
            final(self).wf(),
            final(self).line_seq().len() > 0,
            r matches Some(s) ==> s.wf() && s.line_seq().len() > 0,
            leaf_lines_after(final(self).line_seq(), r) == insert_lines(
                pad(old(self).line_seq()),
                off as int,
                nats(nl@),
            ),
            (old(self).line_lengths@.len() <= MAX_CHILDREN && nl@.len() <= MAX_CHILDREN)
                ==> final(self).line_lengths@.len() <= MAX_CHILDREN && (r matches Some(s)
                ==> s.line_lengths@.len() <= MAX_CHILDREN),
    {
        self.default_if_empty();
        let ghost l = self.line_seq();
        let ghost nn = nats(nl@);
        let (k, rel) = self.locate_line(off);
        proof {
            lemma_line_at_bounds(l, off as int);
            lemma_insert_lines_size(l, off as int, nn);
        }
        let cur = self.line_lengths[k];
        let suffix = cur - rel;
        let ghost mid_spec = join(join(seq![rel as nat], nn), seq![suffix as nat]);
        proof {
            let whole = insert_lines(l, off as int, nn);
            assert(whole =~= l.take(k as int) + mid_spec + l.skip(k + 1));
            lemma_sum_concat(l.take(k as int) + mid_spec, l.skip(k + 1));
            lemma_sum_concat(l.take(k as int), mid_spec);
            crate::lines::lemma_sum_join(seq![rel as nat], nn);
            crate::lines::lemma_sum_join(join(seq![rel as nat], nn), seq![suffix as nat]);
            lemma_sum_single(rel as nat);
            lemma_sum_single(suffix as nat);
        }
        let mid = joined_lengths(rel, nl, suffix);
        self.splice_line(k, mid);
        self.summary = LineSummary { line_count: self.line_lengths.len(), byte_len: self.summary.byte_len + blen };
        self.split_if_needed()
    }

    /// Inserts `bytes` at byte `abs_byte_offset` of this leaf; splits the
    /// leaf when it grows past `MAX_CHILDREN` lines and returns the upper half.
    #[verifier::rlimit(80)]
    pub fn add_child(&mut self, abs_byte_offset: u64, bytes: &[u8]) -> (r: Result<Option<LeafNode>, MathError>)
        requires
            old(self).wf(),
        ensures
            (old(self).line_lengths@.len() <= MAX_CHILDREN && count_newlines(bytes@) < MAX_CHILDREN)
                ==> (r matches Ok(sib) ==> final(self).line_lengths@.len() <= MAX_CHILDREN && (sib matches Some(s) ==> s.line_lengths@.len()
                <= MAX_CHILDREN)),
            r is Err ==> *final(self) == *old(self),
            r matches Err(e) ==> insert_error(old(self).line_seq(), abs_byte_offset as int, bytes@) == Some(e),
            r is Ok ==> insert_error(old(self).line_seq(), abs_byte_offset as int, bytes@) is None,
            r matches Ok(sib) ==> final(self).wf() && final(self).line_seq().len() > 0 && (sib matches Some(s)
                ==> s.wf() && s.line_seq().len() > 0) && leaf_lines_after(final(self).line_seq(), sib) == insert_lines(pad(old(self).line_seq()), abs_byte_offset as int, lines_of(bytes@)),
    {
        let total = self.summary.byte_len;
        if abs_byte_offset > total {
            return Err(MathError::OutOfBounds(total as usize));
        }
        let blen = bytes.len() as u64;
        if blen > u64::MAX - total {
            return Err(MathError::Overflow);
        }
        let nl = newline_lengths(bytes);
        proof {
            lemma_lines_len(bytes@);
            assert(nats(nl@) =~= lines_of(bytes@));
            crate::lines::lemma_lines_sum(bytes@);
        }
        let count: usize = if self.line_lengths.len() == 0 { 1 } else { self.line_lengths.len() };
        if count > usize::MAX - (nl.len() - 1) {
            return Err(MathError::Overflow);
        }
        Ok(self.insert_lengths(abs_byte_offset, &nl, blen))
    }
}


impl Default for LeafNode {
    /// A leaf holding one empty line.
    fn default() -> (r: Self)
        ensures
            r.wf(),
            r.line_seq() == seq![0nat],
    {
        let mut line_lengths: Vec<u64> = Vec::new();
        line_lengths.push(0);
        proof {
            assert(nats(line_lengths@) =~= seq![0nat]);
            lemma_sum_single(0);
        }
        LeafNode { summary: LineSummary { line_count: 1, byte_len: 0 }, line_lengths }
    }
}

/// Replacing child `k` by the nodes `repl`.
pub proof fn lemma_children_replace(cs: Seq<Node>, k: int, repl: Seq<Node>)
    requires
        0 <= k < cs.len(),
        children_ok(cs),
        children_ok(repl),
    ensures
        flat_lines(cs.take(k) + repl + cs.skip(k + 1)) == flat_lines(cs.take(k)) + flat_lines(repl)
            + flat_lines(cs.skip(k + 1)),
        children_ok(cs.take(k) + repl + cs.skip(k + 1)),
{
    let ncs = cs.take(k) + repl + cs.skip(k + 1);
    lemma_flat_concat(cs.take(k) + repl, cs.skip(k + 1));
    lemma_flat_concat(cs.take(k), repl);
    assert forall|j: int| 0 <= j < ncs.len() implies (#[trigger] ncs[j]).wf() && ncs[j].line_seq().len() > 0 by {
        if j < k {
            assert(ncs[j] == cs[j]);
        } else if j < k + repl.len() {
            assert(ncs[j] == repl[j - k]);
        } else {
            assert(ncs[j] == cs[j - repl.len() + 1]);
        }
    }
}

impl InternalNode {
    /// The child that holds byte `off` (the last child when `off` is the
    /// end), and the offset within it.
    #[verifier::rlimit(80)]
    fn locate_child(&self, off: u64) -> (r: (usize, u64))
        requires
            self.wf(),
            self.children@.len() > 0,
            off <= sum(self.line_seq()),
        ensures
            r.0 < self.children@.len(),
            sum(flat_lines(self.children@.take(r.0 as int))) + r.1 == off,
            r.1 <= sum(self.children@[r.0 as int].line_seq()),
            r.1 < sum(self.children@[r.0 as int].line_seq()) || r.0 == self.children@.len() - 1,
    {
        let ghost cs = self.children@;
        let ghost l = self.line_seq();
        let n = self.children.len();
        let mut k: usize = 0;
        let mut rel: u64 = off;
        while k < n - 1 && rel >= self.children[k].summary().byte_len
            invariant
                n == self.children@.len(),
                n >= 1,
                cs == self.children@,
                self.wf(),
                l == flat_lines(cs),
                k < n,
                sum(flat_lines(cs.take(k as int))) + rel == off,
                off <= sum(l),
            decreases n - k,
        {
            proof {
                lemma_flat_split(cs, k as int);
                lemma_sum_concat(flat_lines(cs.take(k as int)), cs[k as int].line_seq());
            }
            rel = rel - self.children[k].summary().byte_len;
            k = k + 1;
        }
        proof {
            lemma_flat_split(cs, k as int);
            let x = flat_lines(cs.take(k as int));
            let c = cs[k as int].line_seq();
            let y = flat_lines(cs.skip(k + 1));
            lemma_sum_concat(x, c);
            lemma_sum_concat(x + c, y);
            if k == n - 1 {
                assert(cs.skip(k + 1) =~= Seq::<Node>::empty());
                assert(flat_lines(Seq::<Node>::empty()) =~= Seq::<nat>::empty());
            }
        }
        (k, rel)
    }

    /// Appends a leaf as the last child.
    pub fn add_leaf_child_node(&mut self, leaf_node: LeafNode)
        requires
            old(self).wf(),
            leaf_node.wf(),
            leaf_node.line_seq().len() > 0,
            old(self).summary.line_count + leaf_node.summary.line_count <= usize::MAX,
            old(self).summary.byte_len + leaf_node.summary.byte_len <= u64::MAX,
        ensures
            final(self).wf(),
            final(self).line_seq() == old(self).line_seq() + leaf_node.line_seq(),
    {
        let ghost cs = self.children@;
        let ghost ll = leaf_node.line_seq();
        self.summary.add(&leaf_node.summary);
        self.children.push(Node::Leaf(leaf_node));
        proof {
            lemma_flat_concat(cs, seq![Node::Leaf(leaf_node)]);
            lemma_flat_single(Node::Leaf(leaf_node));
            assert(self.children@ =~= cs + seq![Node::Leaf(leaf_node)]);
            lemma_sum_concat(flat_lines(cs), ll);
            assert forall|i: int| 0 <= i < self.children@.len() implies (#[trigger] self.children@[i]).wf()
                && self.children@[i].line_seq().len() > 0 by {
                if i < cs.len() {
                    assert(self.children@[i] == cs[i]);
                }
            }
        }
    }

    /// Splits off the upper half of the children once there are more than
    /// `MAX_CHILDREN` of them.
    #[verifier::rlimit(80)]
    pub fn split_if_needed(&mut self) -> (r: Option<InternalNode>)
        requires
            old(self).wf(),
        ensures
            final(self).wf(),
            r is None ==> old(self).children@.len() <= MAX_CHILDREN && final(self).line_seq() == old(self).line_seq()
                && final(self).children@ == old(self).children@
                && final(self).summary == old(self).summary,
            r matches Some(s) ==> old(self).children@.len() > MAX_CHILDREN && s.wf() && s.line_seq().len() > 0
                && final(self).line_seq().len() > 0 && final(self).line_seq() + s.line_seq() == old(self).line_seq()
                && final(self).children@ == old(self).children@.take(old(self).children@.len() as int / 2)
                && s.children@ == old(self).children@.skip(old(self).children@.len() as int / 2),
    {
        let n = self.children.len();
        if n <= MAX_CHILDREN {
            return None;
        }
        let ghost cs = self.children@;
        let ghost l = self.line_seq();
        let mid = n / 2;
        let right = self.children.split_off(mid);
        proof {
            assert(cs =~= self.children@ + right@);
            lemma_flat_concat(self.children@, right@);
            lemma_sum_concat(flat_lines(self.children@), flat_lines(right@));
            assert(children_ok(self.children@)) by {
                assert forall|j: int| 0 <= j < self.children@.len() implies (#[trigger] self.children@[j]).wf()
                    && self.children@[j].line_seq().len() > 0 by {
                    assert(self.children@[j] == cs[j]);
                }
            }
            assert(children_ok(right@)) by {
                assert forall|j: int| 0 <= j < right@.len() implies (#[trigger] right@[j]).wf()
                    && right@[j].line_seq().len() > 0 by {
                    assert(right@[j] == cs[j + mid]);
                }
            }
            lemma_flat_split(self.children@, 0);
            lemma_flat_split(right@, 0);
        }
        let left_count = self.count_lines();
        let left_bytes = self.count_bytes();
        self.summary = LineSummary { line_count: left_count, byte_len: left_bytes };
        let mut sibling = InternalNode {
            summary: LineSummary { line_count: 0, byte_len: 0 },
            children: right,
        };
        let right_count = sibling.count_lines();
        let right_bytes = sibling.count_bytes();
        sibling.summary = LineSummary { line_count: right_count, byte_len: right_bytes };
        Some(sibling)
    }

    /// Inserts text whose line lengths are `nl` (adding up to `blen`) at
    /// byte `off`, in the child that holds it, then splits if needed.
    #[verifier::rlimit(80)]
    pub(crate) fn insert_lengths(&mut self, off: u64, nl: &Vec<u64>, blen: u64) -> (r: Option<InternalNode>)
        requires
            old(self).wf(),
            old(self).children@.len() > 0,
            insert_ready(old(self).line_seq(), off, nl@, blen),
        ensures
            final(self).wf(),
            final(self).line_seq().len() > 0,
            r matches Some(s) ==> s.wf() && s.line_seq().len() > 0,
            internal_lines_after(final(self).line_seq(), r) == insert_lines(old(self).line_seq(), off as int, nats(nl@)),
            (old(self).children@.len() <= MAX_CHILDREN && all_bounded(old(self).children@) && nl@.len()
                <= MAX_CHILDREN) ==> final(self).children@.len() <= MAX_CHILDREN && all_bounded(final(self).children@)
                && (r matches Some(s) ==> s.children@.len() <= MAX_CHILDREN && all_bounded(s.children@)),
        decreases *old(self),
    {
        let ghost cs = self.children@;
        let ghost l = self.line_seq();
        let ghost nn = nats(nl@);
        let (k, rel) = self.locate_child(off);
        let n = self.children.len();
        let next: usize = k + 1;
        let ghost x = flat_lines(cs.take(k as int));
        let ghost c = cs[k as int].line_seq();
        let ghost y = flat_lines(cs.skip(k + 1));
        proof {
            lemma_flat_split(cs, k as int);
            lemma_insert_lines_concat(x, c, y, rel as int, nn);
            lemma_insert_lines_size(l, off as int, nn);
            lemma_insert_lines_size(c, rel as int, nn);
            lemma_sum_concat(x, c);
            lemma_sum_concat(x + c, y);
            assert(decreases_to!(*old(self) => old(self).children));
            assert(decreases_to!(old(self).children => old(self).children@[k as int]));
        }
        let res = self.children[k].insert_lengths(rel, nl, blen);
        let ghost after = self.children@;
        proof {
            assert(after =~= cs.take(k as int) + seq![after[k as int]] + cs.skip(k + 1));
        }
        match res {
            Some(sib) => {
                self.children.insert(next, sib);
                proof {
                    let repl = seq![after[k as int], sib];
                    assert(self.children@ =~= cs.take(k as int) + repl + cs.skip(k + 1));
                    lemma_flat_concat(seq![after[k as int]], seq![sib]);
                    assert(repl =~= seq![after[k as int]] + seq![sib]);
                    lemma_flat_single(after[k as int]);
                    lemma_flat_single(sib);
                    lemma_children_replace(cs, k as int, repl);
                }
            },
            None => {
                proof {
                    let repl = seq![after[k as int]];
                    assert(self.children@ =~= cs.take(k as int) + repl + cs.skip(k + 1));
                    lemma_flat_single(after[k as int]);
                    lemma_children_replace(cs, k as int, repl);
                }
            },
        }
        let new_count = self.count_lines();
        self.summary = LineSummary { line_count: new_count, byte_len: self.summary.byte_len + blen };
        self.split_if_needed()
    }

    /// Inserts `bytes` at byte `abs_byte_offset` below this node; splits the
    /// node when it gets more than `MAX_CHILDREN` children and returns the
    /// upper half.
    #[verifier::rlimit(80)]
    pub fn add_child(&mut self, abs_byte_offset: u64, bytes: &[u8]) -> (r: Result<Option<InternalNode>, MathError>)
        requires
            old(self).wf(),
            old(self).children@.len() > 0,
        ensures
            (old(self).children@.len() <= MAX_CHILDREN && all_bounded(old(self).children@) && count_newlines(bytes@)
                < MAX_CHILDREN) ==> (r matches Ok(sib) ==> final(self).children@.len() <= MAX_CHILDREN
                && all_bounded(final(self).children@) && (sib matches Some(s) ==> s.children@.len() <= MAX_CHILDREN && all_bounded(s.children@))),
            r is Err ==> *final(self) == *old(self),
            r matches Err(e) ==> insert_error(old(self).line_seq(), abs_byte_offset as int, bytes@) == Some(e),
            r is Ok ==> insert_error(old(self).line_seq(), abs_byte_offset as int, bytes@) is None,
            r matches Ok(sib) ==> final(self).wf() && final(self).line_seq().len() > 0 && (sib matches Some(s)
                ==> s.wf() && s.line_seq().len() > 0) && internal_lines_after(final(self).line_seq(), sib)
                == insert_lines(old(self).line_seq(), abs_byte_offset as int, lines_of(bytes@)),
    {
        let total = self.summary.byte_len;
        if abs_byte_offset > total {
            return Err(MathError::OutOfBounds(total as usize));
        }
        let blen = bytes.len() as u64;
        if blen > u64::MAX - total {
            return Err(MathError::Overflow);
        }
        let nl = newline_lengths(bytes);
        proof {
            lemma_lines_len(bytes@);
            assert(nats(nl@) =~= lines_of(bytes@));
            crate::lines::lemma_lines_sum(bytes@);
            lemma_flat_split(self.children@, 0);
        }
        if self.summary.line_count > usize::MAX - (nl.len() - 1) {
            return Err(MathError::Overflow);
        }
        Ok(self.insert_lengths(abs_byte_offset, &nl, blen))
    }
}

impl Node {
    #[verifier::rlimit(80)]
    pub(crate) fn insert_lengths(&mut self, off: u64, nl: &Vec<u64>, blen: u64) -> (r: Option<Node>)
        requires
            old(self).wf(),
            old(self).line_seq().len() > 0,
            insert_ready(old(self).line_seq(), off, nl@, blen),
        ensures
            final(self).wf(),
            final(self).line_seq().len() > 0,
            r matches Some(s) ==> s.wf() && s.line_seq().len() > 0,
            node_lines_after(final(self).line_seq(), r) == insert_lines(old(self).line_seq(), off as int, nats(nl@)),
            (old(self).bounded() && nl@.len() <= MAX_CHILDREN) ==> final(self).bounded() && (r matches Some(s)
                ==> s.bounded()),
        decreases *old(self),
    {
        match self {
            Node::Leaf(l) => {
                match l.insert_lengths(off, nl, blen) {
                    Some(s) => Some(Node::Leaf(s)),
                    None => None,
                }
            },
            Node::Internal(n) => {
                proof {
                    if n.children@.len() == 0 {
                        assert(flat_lines(n.children@) =~= Seq::<nat>::empty());
                    }
                }
                match n.insert_lengths(off, nl, blen) {
                    Some(s) => Some(Node::Internal(s)),
                    None => None,
                }
            },
        }
    }

    /// Inserts `bytes` at byte `abs_byte_offset` below this node; returns the
    /// sibling split off when the node grew too large.
    #[verifier::rlimit(80)]
    pub fn add_child(&mut self, abs_byte_offset: u64, bytes: &[u8]) -> (r: Result<Option<Node>, MathError>)
        requires
            old(self).wf(),
            old(self).line_seq().len() > 0,
        ensures
            (old(self).bounded() && count_newlines(bytes@) < MAX_CHILDREN) ==> (r matches Ok(sib)
                ==> final(self).bounded() && (sib matches Some(s) ==> s.bounded())),
            r is Err ==> *final(self) == *old(self),
            r matches Err(e) ==> insert_error(old(self).line_seq(), abs_byte_offset as int, bytes@) == Some(e),
            r is Ok ==> insert_error(old(self).line_seq(), abs_byte_offset as int, bytes@) is None,
            r matches Ok(sib) ==> final(self).wf() && final(self).line_seq().len() > 0 && (sib matches Some(s)
                ==> s.wf() && s.line_seq().len() > 0) && node_lines_after(final(self).line_seq(), sib)
                == insert_lines(old(self).line_seq(), abs_byte_offset as int, lines_of(bytes@)),
    {
        match self {
            Node::Leaf(l) => {
                match l.add_child(abs_byte_offset, bytes) {
                    Ok(Some(s)) => Ok(Some(Node::Leaf(s))),
                    Ok(None) => Ok(None),
                    Err(e) => Err(e),
                }
            },
            Node::Internal(n) => {
                proof {
                    if n.children@.len() == 0 {
                        assert(flat_lines(n.children@) =~= Seq::<nat>::empty());
                    }
                }
                match n.add_child(abs_byte_offset, bytes) {
                    Ok(Some(s)) => Ok(Some(Node::Internal(s))),
                    Ok(None) => Ok(None),
                    Err(e) => Err(e),
                }
            },
        }
    }
}


/// Sum of the line counts that the children's summaries carry.
pub open spec fn counts_of(cs: Seq<Node>) -> int
    decreases cs.len(),
{
    if cs.len() == 0 {
        0
    } else {
        counts_of(cs.drop_last()) + cs.last().spec_summary().line_count
    }
}

/// Sum of the byte lengths that the children's summaries carry.
pub open spec fn bytes_of(cs: Seq<Node>) -> int
    decreases cs.len(),
{
    if cs.len() == 0 {
        0
    } else {
        bytes_of(cs.drop_last()) + cs.last().spec_summary().byte_len
    }
}

/// A sound node's summary matches its lines.
pub proof fn lemma_node_summary(n: Node)
    requires
        n.wf(),
    ensures
        summary_matches(n.spec_summary(), n.line_seq()),
{
}

proof fn lemma_counts_match(cs: Seq<Node>)
    requires
        children_ok(cs),
    ensures
        counts_of(cs) == flat_lines(cs).len(),
        bytes_of(cs) == sum(flat_lines(cs)),
    decreases cs.len(),
{
    if cs.len() > 0 {
        let init = cs.drop_last();
        assert(children_ok(init)) by {
            assert forall|j: int| 0 <= j < init.len() implies (#[trigger] init[j]).wf()
                && init[j].line_seq().len() > 0 by {
                assert(init[j] == cs[j]);
            }
        }
        lemma_counts_match(init);
        assert(cs[cs.len() - 1].wf());
        lemma_node_summary(cs.last());
        lemma_sum_concat(flat_lines(init), cs.last().line_seq());
    }
}

/// Every summary is consistent: an internal node's summary is the sum of
/// its children's summaries, and a leaf's summary counts its line lengths
/// and adds them up.
pub proof fn lemma_summary_consistency(n: Node)
    requires
        n.wf(),
    ensures
        n matches Node::Internal(i) ==> i.summary.line_count == counts_of(i.children@)
            && i.summary.byte_len == bytes_of(i.children@),
        n matches Node::Leaf(l) ==> l.summary.line_count == l.line_lengths@.len()
            && l.summary.byte_len == sum(nats(l.line_lengths@)),
{
    if let Node::Internal(i) = n {
        lemma_counts_match(i.children@);
    }
}


/// The lines of `l` whose numbers (counted from `first`) lie in
/// `[lo, hi)`, each as its number and byte range (counted from `offset`).
pub open spec fn line_triples(l: Seq<nat>, first: int, offset: int, lo: int, hi: int) -> Seq<(usize, u64, u64)>
    decreases l.len(),
{
    if l.len() == 0 {
        Seq::empty()
    } else {
        let init = line_triples(l.drop_last(), first, offset, lo, hi);
        let i = l.len() - 1;
        if lo <= first + i < hi {
            init.push(
                (
                    (first + i) as usize,
                    (offset + sum(l.drop_last())) as u64,
                    (offset + sum(l.drop_last()) + l.last()) as u64,
                ),
            )
        } else {
            init
        }
    }
}

pub proof fn lemma_triples_concat(x: Seq<nat>, y: Seq<nat>, first: int, offset: int, lo: int, hi: int)
    ensures
        line_triples(x + y, first, offset, lo, hi) == line_triples(x, first, offset, lo, hi) + line_triples(
            y,
            first + x.len(),
            offset + sum(x),
            lo,
            hi,
        ),
    decreases y.len(),
{
    if y.len() == 0 {
        assert(x + y =~= x);
        assert(line_triples(x, first, offset, lo, hi) + Seq::<(usize, u64, u64)>::empty() =~= line_triples(
            x,
            first,
            offset,
            lo,
            hi,
        ));
    } else {
        lemma_triples_concat(x, y.drop_last(), first, offset, lo, hi);
        assert((x + y).drop_last() =~= x + y.drop_last());
        lemma_sum_concat(x, y.drop_last());
        assert(line_triples(x + y, first, offset, lo, hi) =~= line_triples(x, first, offset, lo, hi)
            + line_triples(y, first + x.len(), offset + sum(x), lo, hi));
    }
}

/// No line of `l` has a number in `[lo, hi)`.
pub proof fn lemma_triples_outside(l: Seq<nat>, first: int, offset: int, lo: int, hi: int)
    requires
        first + l.len() <= lo || hi <= first,
    ensures
        line_triples(l, first, offset, lo, hi) == Seq::<(usize, u64, u64)>::empty(),
    decreases l.len(),
{
    if l.len() > 0 {
        lemma_triples_outside(l.drop_last(), first, offset, lo, hi);
    }
}

impl Node {
    /// Appends to `out` the lines below this node whose numbers lie in
    /// `[lo, hi)`, numbering them from `first` and placing them from byte
    /// `offset`; subtrees wholly outside the range are skipped.
    pub fn lines(&self, lo: usize, hi: usize, first: usize, offset: u64, out: &mut Vec<(usize, u64, u64)>)
        requires
            self.wf(),
            first + self.line_seq().len() <= usize::MAX,
            offset + sum(self.line_seq()) <= u64::MAX,
        ensures
            final(out)@ == old(out)@ + line_triples(self.line_seq(), first as int, offset as int, lo as int, hi as int),
        decreases self,
    {
        match self {
            Node::Leaf(l) => l.lines(lo, hi, first, offset, out),
            Node::Internal(n) => n.lines(lo, hi, first, offset, out),
        }
    }
}

impl LeafNode {
    pub fn lines(&self, lo: usize, hi: usize, first: usize, offset: u64, out: &mut Vec<(usize, u64, u64)>)
        requires
            self.wf(),
            first + self.line_seq().len() <= usize::MAX,
            offset + sum(self.line_seq()) <= u64::MAX,
        ensures
            final(out)@ == old(out)@ + line_triples(self.line_seq(), first as int, offset as int, lo as int, hi as int),
    {
        let ghost l = self.line_seq();
        let mut at: u64 = offset;
        let mut i: usize = 0;
        proof {
            assert(old(out)@ + line_triples(l.take(0), first as int, offset as int, lo as int, hi as int)
                =~= old(out)@);
        }
        while i < self.line_lengths.len()
            invariant
                l == self.line_seq(),
                self.wf(),
                first + l.len() <= usize::MAX,
                offset + sum(l) <= u64::MAX,
                i <= l.len(),
                at == offset + sum(l.take(i as int)),
                out@ == old(out)@ + line_triples(l.take(i as int), first as int, offset as int, lo as int, hi as int),
            decreases l.len() - i,
        {
            proof {
                lemma_sum_take_step(l, i as int);
                lemma_sum_take_le(l, i + 1);
                assert(l.take(i + 1).drop_last() =~= l.take(i as int));
            }
            let len = self.line_lengths[i];
            let ghost before = out@;
            if lo <= first + i && first + i < hi {
                out.push((first + i, at, at + len));
            }
            proof {
                assert(out@ =~= old(out)@ + line_triples(l.take(i + 1), first as int, offset as int, lo as int, hi as int));
            }
            at = at + len;
            i = i + 1;
        }
        proof {
            assert(l.take(i as int) =~= l);
        }
    }
}

impl InternalNode {
    pub fn lines(&self, lo: usize, hi: usize, first: usize, offset: u64, out: &mut Vec<(usize, u64, u64)>)
        requires
            self.wf(),
            first + self.line_seq().len() <= usize::MAX,
            offset + sum(self.line_seq()) <= u64::MAX,
        ensures
            final(out)@ == old(out)@ + line_triples(self.line_seq(), first as int, offset as int, lo as int, hi as int),
        decreases self,
    {
        let ghost cs = self.children@;
        let mut at: u64 = offset;
        let mut line: usize = first;
        let mut k: usize = 0;
        proof {
            assert(cs.take(0) =~= Seq::<Node>::empty());
            assert(flat_lines(Seq::<Node>::empty()) =~= Seq::<nat>::empty());
            assert(old(out)@ + line_triples(Seq::<nat>::empty(), first as int, offset as int, lo as int, hi as int)
                =~= old(out)@);
        }
        while k < self.children.len()
            invariant
                cs == self.children@,
                self.wf(),
                first + flat_lines(cs).len() <= usize::MAX,
                offset + sum(flat_lines(cs)) <= u64::MAX,
                k <= cs.len(),
                line == first + flat_lines(cs.take(k as int)).len(),
                at == offset + sum(flat_lines(cs.take(k as int))),
                out@ == old(out)@ + line_triples(
                    flat_lines(cs.take(k as int)),
                    first as int,
                    offset as int,
                    lo as int,
                    hi as int,
                ),
            decreases cs.len() - k,
        {
            let ghost x = flat_lines(cs.take(k as int));
            let ghost c = cs[k as int].line_seq();
            proof {
                lemma_flat_split(cs, k as int);
                lemma_sum_concat(x, c);
                lemma_sum_concat(x + c, flat_lines(cs.skip(k + 1)));
                lemma_triples_concat(x, c, first as int, offset as int, lo as int, hi as int);
                assert(cs[k as int].wf());
            }
            let count = self.children[k].summary().line_count;
            let bytes = self.children[k].summary().byte_len;
            if line + count <= lo || hi <= line {
                proof {
                    lemma_triples_outside(c, line as int, at as int, lo as int, hi as int);
                    assert(out@ + Seq::<(usize, u64, u64)>::empty() =~= out@);
                }
            } else {
                self.children[k].lines(lo, hi, line, at, out);
                proof {
                    assert(out@ =~= old(out)@ + line_triples(x + c, first as int, offset as int, lo as int, hi as int));
                }
            }
            line = line + count;
            at = at + bytes;
            k = k + 1;
        }
        proof {
            assert(cs.take(k as int) =~= cs);
        }
    }
}

} // verus!
