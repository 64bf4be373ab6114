//! The piece table: the document as a sequence of spans over a read-only
//! original and an append-only add buffer, with its own edit journal.
use crate::enums::{BufferKind, Edit, MathError};
use crate::mapped::MmapFile;
use crate::piece::Piece;
use vstd::prelude::*;
use vstd::slice::slice_subrange;

verus! {

/// Capacity the add buffer starts with, so that short typing sessions
/// never reallocate it.
pub const BASELINE_CAPACITY: usize = 4096;

/// The store a piece of kind `k` reads from.
pub open spec fn store(k: BufferKind, orig: Seq<u8>, add: Seq<u8>) -> Seq<u8> {
    match k {
        BufferKind::Original => orig,
        BufferKind::Add => add,
    }
}

/// A piece is not empty and lies inside its store.
pub open spec fn piece_ok(p: Piece, orig: Seq<u8>, add: Seq<u8>) -> bool {
    p.start < p.end && p.end <= store(p.buf_kind, orig, add).len()
}

pub open spec fn pieces_ok(ps: Seq<Piece>, orig: Seq<u8>, add: Seq<u8>) -> bool {
    forall|i: int| 0 <= i < ps.len() ==> piece_ok(#[trigger] ps[i], orig, add)
}

/// The bytes a piece stands for.
pub open spec fn piece_bytes(p: Piece, orig: Seq<u8>, add: Seq<u8>) -> Seq<u8> {
    store(p.buf_kind, orig, add).subrange(p.start as int, p.end as int)
}

/// The layout of an unedited file of `n` bytes: one Original piece
/// `[0, n)`, or no piece when the file is empty.
pub open spec fn whole_original(n: nat) -> Seq<Piece> {
    if n > 0 {
        seq![Piece { buf_kind: BufferKind::Original, start: 0, end: n as u64 }]
    } else {
        Seq::empty()
    }
}

/// The text that a sequence of pieces spells.
pub open spec fn spell(ps: Seq<Piece>, orig: Seq<u8>, add: Seq<u8>) -> Seq<u8>
    decreases ps.len(),
{
    if ps.len() == 0 {
        Seq::empty()
    } else {
        spell(ps.drop_last(), orig, add) + piece_bytes(ps.last(), orig, add)
    }
}

/// Every journal entry refers to bytes that exist.
pub open spec fn journal_ok(es: Seq<Edit>, orig: Seq<u8>, add: Seq<u8>) -> bool {
    forall|i: int|
        0 <= i < es.len() ==> match #[trigger] es[i] {
            Edit::Insert { pos, start, end } => start < end <= add.len(),
            Edit::Delete { pos, len, removed } => pieces_ok(removed@, orig, add),
        }
}

pub proof fn lemma_spell_concat(a: Seq<Piece>, b: Seq<Piece>, orig: Seq<u8>, add: Seq<u8>)
    ensures
        spell(a + b, orig, add) == spell(a, orig, add) + spell(b, orig, add),
    decreases b.len(),
{
    if b.len() == 0 {
        assert(a + b =~= a);
        assert(spell(a, orig, add) + spell(b, orig, add) =~= spell(a, orig, add));
    } else {
        lemma_spell_concat(a, b.drop_last(), orig, add);
        assert((a + b).drop_last() =~= a + b.drop_last());
        assert(spell(a + b, orig, add) =~= spell(a, orig, add) + spell(b, orig, add));
    }
}

pub proof fn lemma_spell_step(ps: Seq<Piece>, i: int, orig: Seq<u8>, add: Seq<u8>)
    requires
        0 <= i < ps.len(),
    ensures
        spell(ps.take(i + 1), orig, add) == spell(ps.take(i), orig, add) + piece_bytes(ps[i], orig, add),
{
    assert(ps.take(i + 1).drop_last() =~= ps.take(i));
}

/// One step of a walk over the pieces: the piece at `k` spells the bytes
/// of the text that follow the first `k` pieces.
proof fn lemma_walk_step(ps: Seq<Piece>, k: int, o: Seq<u8>, a: Seq<u8>, at: int)
    requires
        0 <= k < ps.len(),
        pieces_ok(ps, o, a),
        at == spell(ps.take(k), o, a).len(),
        spell(ps.take(k), o, a) == spell(ps, o, a).take(at),
    ensures
        piece_ok(ps[k], o, a),
        at + ps[k].spec_len() <= spell(ps, o, a).len(),
        spell(ps.take(k + 1), o, a) == spell(ps.take(k), o, a) + piece_bytes(ps[k], o, a),
        spell(ps.take(k + 1), o, a).len() == at + ps[k].spec_len(),
        spell(ps.take(k + 1), o, a) == spell(ps, o, a).take(at + ps[k].spec_len()),
        spell(ps, o, a).subrange(at, at + ps[k].spec_len()) == piece_bytes(ps[k], o, a),
        spell(ps, o, a).take(at + ps[k].spec_len()) == spell(ps, o, a).take(at) + piece_bytes(ps[k], o, a),
{
    let d = spell(ps, o, a);
    lemma_spell_step(ps, k, o, a);
    assert(piece_ok(ps[k], o, a));
    lemma_spell_concat(ps.take(k + 1), ps.skip(k + 1), o, a);
    assert(ps.take(k + 1) + ps.skip(k + 1) =~= ps);
    let pre = spell(ps.take(k + 1), o, a);
    assert(d.take(pre.len() as int) =~= pre);
    assert(d.subrange(at, at + ps[k].spec_len()) =~= piece_bytes(ps[k], o, a));
}

/// Growing the add buffer at its end changes no piece that fits the old one.
pub proof fn lemma_spell_grow(ps: Seq<Piece>, orig: Seq<u8>, add: Seq<u8>, more: Seq<u8>)
    requires
        pieces_ok(ps, orig, add),
    ensures
        spell(ps, orig, add + more) == spell(ps, orig, add),
        pieces_ok(ps, orig, add + more),
    decreases ps.len(),
{
    if ps.len() > 0 {
        lemma_spell_grow(ps.drop_last(), orig, add, more);
        let p = ps.last();
        assert(piece_ok(ps[ps.len() - 1], orig, add));
        assert(piece_bytes(p, orig, add + more) =~= piece_bytes(p, orig, add));
    }
}

/// Piece `p` split at offset `pos` within it, with `q` between the halves.
pub open spec fn split_around(p: Piece, pos: int, q: Piece) -> Seq<Piece> {
    seq![
        Piece { buf_kind: p.buf_kind, start: p.start, end: (p.start + pos) as u64 },
        q,
        Piece { buf_kind: p.buf_kind, start: (p.start + pos) as u64, end: p.end },
    ]
}

/// The pieces of `ps` laid down one after another, each extending the one
/// before it when it continues it.
pub open spec fn coalesce_all(ps: Seq<Piece>) -> Seq<Piece>
    decreases ps.len(),
{
    if ps.len() == 0 {
        Seq::empty()
    } else {
        coalesced(coalesce_all(ps.drop_last()), ps.last())
    }
}

/// No piece of `ps` continues the one before it in the same store.
pub open spec fn canonical(ps: Seq<Piece>) -> bool
    decreases ps.len(),
{
    if ps.len() <= 1 {
        true
    } else {
        canonical(ps.drop_last()) && !(ps[ps.len() - 2].buf_kind == ps.last().buf_kind && ps[ps.len() - 2].end
            == ps.last().start)
    }
}

/// Laying down pieces of which none continues the one before leaves them as
/// they are.
pub proof fn lemma_canonical_kept(ps: Seq<Piece>)
    requires
        canonical(ps),
    ensures
        coalesce_all(ps) == ps,
    decreases ps.len(),
{
    if ps.len() > 0 {
        let init = ps.drop_last();
        lemma_canonical_kept(init);
        if init.len() > 0 {
            assert(ps[ps.len() - 2] == init.last());
        } else {
            assert(coalesce_all(init) =~= Seq::<Piece>::empty());
        }
        assert(init.push(ps.last()) =~= ps);
    }
}

/// Typing at the end of the text, right after the last piece, where that
/// piece is the end of the add buffer and the new bytes follow it there:
/// the last piece grows and no piece is added.
pub proof fn lemma_typing_extends_last_piece(ps: Seq<Piece>, q: Piece)
    requires
        canonical(ps),
        ps.len() > 0,
        ps.last().buf_kind == BufferKind::Add,
        q.buf_kind == BufferKind::Add,
        ps.last().end == q.start,
    ensures
        coalesced(coalesce_all(ps), q) == ps.drop_last().push(
            Piece { buf_kind: BufferKind::Add, start: ps.last().start, end: q.end },
        ),
{
    lemma_canonical_kept(ps);
}

/// Piece `p` with the bytes from offset `a` to offset `b` within it cut
/// out: the parts before and after.
pub open spec fn cut_around(p: Piece, a: int, b: int) -> Seq<Piece> {
    seq![
        Piece { buf_kind: p.buf_kind, start: p.start, end: (p.start + a) as u64 },
        Piece { buf_kind: p.buf_kind, start: (p.start + b) as u64, end: p.end },
    ]
}

/// The part of piece `p` from offset `a` to offset `b` within it.
pub open spec fn part_of(p: Piece, a: int, b: int) -> Piece {
    Piece { buf_kind: p.buf_kind, start: (p.start + a) as u64, end: (p.start + b) as u64 }
}

/// Two pieces of one store with the gap between them exactly `q`, which
/// is to go back at `pos`, the end of the first.
pub open spec fn fills_gap(ps: Seq<Piece>, pos: int, q: Piece) -> bool {
    &&& ps.len() == 2
    &&& ps[0].buf_kind == q.buf_kind
    &&& ps[1].buf_kind == q.buf_kind
    &&& ps[0].end == q.start
    &&& q.end == ps[1].start
    &&& pos == ps[0].spec_len()
}

/// The one piece that two pieces and the gap between them make.
pub open spec fn filled(ps: Seq<Piece>) -> Seq<Piece> {
    seq![Piece { buf_kind: ps[0].buf_kind, start: ps[0].start, end: ps[1].end }]
}

/// Three pieces whose middle one covers exactly `[pos, pos + len)` of their
/// text, and whose outer ones are contiguous parts of one store.
pub open spec fn joins_back(ps: Seq<Piece>, pos: int, len: int) -> bool {
    &&& ps.len() == 3
    &&& ps[0].buf_kind == ps[2].buf_kind
    &&& ps[0].end == ps[2].start
    &&& pos == ps[0].spec_len()
    &&& len == ps[1].spec_len()
}

/// The one piece that the outer pieces of `ps` make together.
pub open spec fn rejoined(ps: Seq<Piece>) -> Seq<Piece> {
    seq![Piece { buf_kind: ps[0].buf_kind, start: ps[0].start, end: ps[2].end }]
}

/// `v` with `p` appended, or with its last piece extended by `p` when `p`
/// continues it in the same store.
pub open spec fn coalesced(v: Seq<Piece>, p: Piece) -> Seq<Piece> {
    if v.len() > 0 && v.last().buf_kind == p.buf_kind && v.last().end == p.start {
        v.drop_last().push(Piece { buf_kind: p.buf_kind, start: v.last().start, end: p.end })
    } else {
        v.push(p)
    }
}

/// Appends `p`, extending the last piece instead when `p` continues it.
fn push_coalesced(v: &mut Vec<Piece>, p: Piece, Ghost(orig): Ghost<Seq<u8>>, Ghost(add): Ghost<Seq<u8>>)
    requires
        pieces_ok(old(v)@, orig, add),
        piece_ok(p, orig, add),
    ensures
        pieces_ok(final(v)@, orig, add),
        spell(final(v)@, orig, add) == spell(old(v)@, orig, add) + piece_bytes(p, orig, add),
        final(v)@ == coalesced(old(v)@, p),
{
    let n = v.len();
    if n > 0 {
        let last = v[n - 1];
        if last.buf_kind == p.buf_kind && last.end == p.start {
            let merged = Piece { buf_kind: p.buf_kind, start: last.start, end: p.end };
            let ghost before = v@;
            v.set(n - 1, merged);
            proof {
                assert(piece_ok(before[n - 1], orig, add));
                assert(v@.drop_last() =~= before.drop_last());
                let s = store(p.buf_kind, orig, add);
                assert(piece_bytes(merged, orig, add) =~= piece_bytes(last, orig, add) + piece_bytes(p, orig, add));
                assert(pieces_ok(v@, orig, add)) by {
                    assert forall|i: int| 0 <= i < v@.len() implies piece_ok(#[trigger] v@[i], orig, add) by {
                        if i < n - 1 {
                            assert(v@[i] == before[i]);
                        }
                    }
                }
            }
            return;
        }
    }
    let ghost before = v@;
    v.push(p);
    proof {
        assert(v@.drop_last() =~= before);
        assert(pieces_ok(v@, orig, add)) by {
            assert forall|i: int| 0 <= i < v@.len() implies piece_ok(#[trigger] v@[i], orig, add) by {
                if i < n {
                    assert(v@[i] == before[i]);
                }
            }
        }
    }
}

/// The document: a read-only original, an append-only add buffer, and the
/// ordered pieces that spell the text out of them.
#[derive(Debug)]
pub struct PieceTable {
    pub original: MmapFile,
    pub buf: Vec<u8>,
    pub pieces: Vec<Piece>,
    pub undo_stack: Vec<Edit>,
    pub redo_stack: Vec<Edit>,
}

impl PieceTable {
    /// The text the table spells.
    pub open spec fn doc(self) -> Seq<u8> {
        spell(self.pieces@, self.original@, self.buf@)
    }

    pub open spec fn wf(self) -> bool {
        &&& pieces_ok(self.pieces@, self.original@, self.buf@)
        &&& self.doc().len() <= u64::MAX
        &&& self.buf@.len() <= u64::MAX
        &&& self.original@.len() <= u64::MAX
        &&& journal_ok(self.undo_stack@, self.original@, self.buf@)
        &&& journal_ok(self.redo_stack@, self.original@, self.buf@)
    }

    /// A table whose text is the whole of `mmap_file`.
    pub fn new(mmap_file: MmapFile) -> (r: Result<Self, MathError>)
        ensures
            r matches Ok(t) && t.wf() && t.doc() == mmap_file@ && t.buf@.len() == 0 && t.undo_stack@.len()
                == 0 && t.redo_stack@.len() == 0 && t.pieces@ == whole_original(mmap_file@.len()),
    {
        let n = mmap_file.len();
        let mut pieces: Vec<Piece> = Vec::new();
        if n > 0 {
            pieces.push(Piece { buf_kind: BufferKind::Original, start: 0, end: n as u64 });
        }
        let t = PieceTable {
            original: mmap_file,
            buf: Vec::with_capacity(BASELINE_CAPACITY),
            pieces,
            undo_stack: Vec::new(),
            redo_stack: Vec::new(),
        };
        proof {
            if n > 0 {
                assert(t.pieces@.drop_last() =~= Seq::<Piece>::empty());
                assert(spell(Seq::<Piece>::empty(), t.original@, t.buf@) =~= Seq::<u8>::empty());
                assert(t.doc() =~= mmap_file@);
            } else {
                assert(t.doc() =~= mmap_file@);
            }
        }
        Ok(t)
    }

    /// Length of the text in bytes.
    #[verifier::rlimit(80)]
    pub fn len(&self) -> (r: u64)
        requires
            self.wf(),
        ensures
            r == self.doc().len(),
    {
        let ghost ps = self.pieces@;
        let ghost o = self.original@;
        let ghost a = self.buf@;
        let mut acc: u64 = 0;
        let mut k: usize = 0;
        while k < self.pieces.len()
            invariant
                ps == self.pieces@,
                o == self.original@,
                a == self.buf@,
                self.wf(),
                k <= ps.len(),
                acc == spell(ps.take(k as int), o, a).len(),
            decreases ps.len() - k,
        {
            proof {
                lemma_spell_step(ps, k as int, o, a);
                assert(ps.take(k as int) + ps.skip(k as int) =~= ps);
                lemma_spell_concat(ps.take(k + 1), ps.skip(k + 1), o, a);
                assert(ps.take(k + 1) + ps.skip(k + 1) =~= ps);
                assert(piece_ok(ps[k as int], o, a));
            }
            let p = self.pieces[k];
            acc = acc + (p.end - p.start);
            k = k + 1;
        }
        proof {
            assert(ps.take(k as int) =~= ps);
        }
        acc
    }

    pub fn is_empty(&self) -> (r: bool)
        requires
            self.wf(),
        ensures
            r == (self.doc().len() == 0),
    {
        self.pieces.len() == 0 || self.len() == 0
    }
}


/// The text with `x` inserted at `pos`.
pub open spec fn spliced_in(d: Seq<u8>, pos: int, x: Seq<u8>) -> Seq<u8> {
    d.take(pos) + x + d.skip(pos)
}

/// The text with `[pos, pos + len)` removed.
pub open spec fn cut_out(d: Seq<u8>, pos: int, len: int) -> Seq<u8> {
    d.take(pos) + d.skip(pos + len)
}

/// Copies piece `p`, which covers `[at, at + len)` of `d`, into `out`,
/// placing piece `q` at `pos` (splitting `p` if `pos` falls inside it)
/// unless `q` is placed already; returns whether it is placed now.
#[verifier::rlimit(80)]
fn place_step(
    out: &mut Vec<Piece>,
    p: Piece,
    q: Piece,
    at: u64,
    pos: u64,
    done: bool,
    Ghost(d): Ghost<Seq<u8>>,
    Ghost(o): Ghost<Seq<u8>>,
    Ghost(a): Ghost<Seq<u8>>,
) -> (r: bool)
    requires
        piece_ok(p, o, a),
        piece_ok(q, o, a),
        pieces_ok(old(out)@, o, a),
        pos <= d.len(),
        d.len() <= u64::MAX,
        at + p.spec_len() <= d.len(),
        d.subrange(at as int, at + p.spec_len()) == piece_bytes(p, o, a),
        done <==> pos < at,
        !done ==> spell(old(out)@, o, a) == d.take(at as int),
        done ==> spell(old(out)@, o, a) == d.take(pos as int) + piece_bytes(q, o, a) + d.subrange(
            pos as int,
            at as int,
        ),
    ensures
        pieces_ok(final(out)@, o, a),
        r <==> pos < at + p.spec_len(),
        !r ==> spell(final(out)@, o, a) == d.take(at + p.spec_len()),
        r ==> spell(final(out)@, o, a) == d.take(pos as int) + piece_bytes(q, o, a) + d.subrange(
            pos as int,
            at + p.spec_len(),
        ),
        (old(out)@.len() == 0 && !done && at == 0 && 0 < pos < p.spec_len() && q.buf_kind != p.buf_kind)
            ==> final(out)@ == split_around(p, pos as int, q),
        (!done && at < pos && at + p.spec_len() <= pos) ==> final(out)@ == coalesced(old(out)@, p),
        (!done && pos == at) ==> final(out)@ == coalesced(coalesced(old(out)@, q), p),
{
    let ghost x = piece_bytes(q, o, a);
    let next = at + (p.end - p.start);
    let ghost s = store(p.buf_kind, o, a);
    proof {
        assert forall|k: int| at <= k < next implies #[trigger] d[k] == s[p.start + (k - at)] by {
            assert(d.subrange(at as int, next as int)[k - at] == d[k]);
            assert(piece_bytes(p, o, a)[k - at] == s[p.start + (k - at)]);
        }
        assert(d.take(next as int) =~= d.take(at as int) + piece_bytes(p, o, a));
    }
    if !done && pos == at {
        push_coalesced(out, q, Ghost(o), Ghost(a));
        push_coalesced(out, p, Ghost(o), Ghost(a));
        proof {
            assert(d.take(pos as int) + x + d.subrange(pos as int, next as int) =~= d.take(at as int) + x
                + piece_bytes(p, o, a));
        }
        true
    } else if !done && pos < next {
        let cut = p.start + (pos - at);
        let left = Piece { buf_kind: p.buf_kind, start: p.start, end: cut };
        let right = Piece { buf_kind: p.buf_kind, start: cut, end: p.end };
        let ghost v0 = out@;
        push_coalesced(out, left, Ghost(o), Ghost(a));
        push_coalesced(out, q, Ghost(o), Ghost(a));
        push_coalesced(out, right, Ghost(o), Ghost(a));
        proof {
            if v0.len() == 0 && at == 0 && q.buf_kind != p.buf_kind {
                assert(coalesced(v0, left) =~= seq![left]);
                assert(coalesced(seq![left], q) =~= seq![left, q]);
                assert(coalesced(seq![left, q], right) =~= seq![left, q, right]);
                assert(out@ =~= split_around(p, pos as int, q));
            }
        }
        proof {
            assert(d.take(pos as int) =~= d.take(at as int) + piece_bytes(left, o, a));
            assert(d.subrange(pos as int, next as int) =~= piece_bytes(right, o, a));
        }
        true
    } else {
        push_coalesced(out, p, Ghost(o), Ghost(a));
        proof {
            if done {
                assert(d.subrange(pos as int, next as int) =~= d.subrange(pos as int, at as int) + piece_bytes(
                    p,
                    o,
                    a,
                ));
            }
        }
        done
    }
}

/// Of the first `at` bytes of `d`, those outside `[pos, end)`.
pub open spec fn kept_upto(d: Seq<u8>, at: int, pos: int, end: int) -> Seq<u8> {
    d.take(if at < pos { at } else { pos }) + d.subrange(end, if at > end { at } else { end })
}

/// Of the first `at` bytes of `d`, those inside `[pos, end)`.
pub open spec fn removed_upto(d: Seq<u8>, at: int, pos: int, end: int) -> Seq<u8> {
    d.subrange(if at < pos { at } else { pos }, if at < end { at } else { end })
}

/// Sorts the bytes of piece `p`, which covers `[at, at + len)` of `d`, into
/// those kept and those removed by cutting `[pos, end)`.
#[verifier::rlimit(80)]
fn cut_step(
    out: &mut Vec<Piece>,
    removed: &mut Vec<Piece>,
    p: Piece,
    at: u64,
    pos: u64,
    end: u64,
    Ghost(d): Ghost<Seq<u8>>,
    Ghost(o): Ghost<Seq<u8>>,
    Ghost(a): Ghost<Seq<u8>>,
)
    requires
        piece_ok(p, o, a),
        pieces_ok(old(out)@, o, a),
        pieces_ok(old(removed)@, o, a),
        pos <= end <= d.len(),
        d.len() <= u64::MAX,
        at + p.spec_len() <= d.len(),
        d.subrange(at as int, at + p.spec_len()) == piece_bytes(p, o, a),
        spell(old(out)@, o, a) == kept_upto(d, at as int, pos as int, end as int),
        spell(old(removed)@, o, a) == removed_upto(d, at as int, pos as int, end as int),
    ensures
        pieces_ok(final(out)@, o, a),
        pieces_ok(final(removed)@, o, a),
        spell(final(out)@, o, a) == kept_upto(d, at + p.spec_len(), pos as int, end as int),
        spell(final(removed)@, o, a) == removed_upto(d, at + p.spec_len(), pos as int, end as int),
        at + p.spec_len() <= pos ==> final(out)@ == coalesced(old(out)@, p) && final(removed)@ == old(removed)@,
        pos <= at && at + p.spec_len() <= end ==> final(out)@ == old(out)@ && final(removed)@ == coalesced(
            old(removed)@,
            p,
        ),
        end <= at ==> final(out)@ == coalesced(old(out)@, p) && final(removed)@ == old(removed)@,
        at < pos && pos < end && end < at + p.spec_len() ==> final(out)@ == coalesced(
            coalesced(old(out)@, cut_around(p, pos - at, end - at)[0]),
            cut_around(p, pos - at, end - at)[1],
        ) && final(removed)@ == coalesced(old(removed)@, part_of(p, pos - at, end - at)),
{
    let next = at + (p.end - p.start);
    let ghost s = store(p.buf_kind, o, a);
    proof {
        assert forall|k: int| at <= k < next implies #[trigger] d[k] == s[p.start + (k - at)] by {
            assert(d.subrange(at as int, next as int)[k - at] == d[k]);
            assert(piece_bytes(p, o, a)[k - at] == s[p.start + (k - at)]);
        }
    }
    if at < pos {
        let stop = if next < pos { next } else { pos };
        let left = Piece { buf_kind: p.buf_kind, start: p.start, end: p.start + (stop - at) };
        push_coalesced(out, left, Ghost(o), Ghost(a));
        proof {
            let opos = at as int;
            let npos = stop as int;
            assert(d.take(npos) =~= d.take(opos) + s.subrange(p.start as int, p.start + (stop - at)));
        }
    }
    let lo = if at > pos { at } else { pos };
    let hi = if next < end { next } else { end };
    if lo < hi {
        let mid = Piece { buf_kind: p.buf_kind, start: p.start + (lo - at), end: p.start + (hi - at) };
        push_coalesced(removed, mid, Ghost(o), Ghost(a));
        proof {
            let opos = if at < pos { at as int } else { pos as int };
            let ahi = if at < end { at as int } else { end as int };
            let npos = if next < pos { next as int } else { pos as int };
            assert(d.subrange(npos, hi as int) =~= d.subrange(opos, ahi) + s.subrange(
                p.start + (lo - at),
                p.start + (hi - at),
            ));
        }
    } else {
        proof {
            let opos = if at < pos { at as int } else { pos as int };
            let npos = if next < pos { next as int } else { pos as int };
            let ahi = if at < end { at as int } else { end as int };
            let nhi = if next < end { next as int } else { end as int };
            assert(d.subrange(npos, nhi) =~= d.subrange(opos, ahi));
        }
    }
    if next > end {
        let from = if at > end { at } else { end };
        let right = Piece { buf_kind: p.buf_kind, start: p.start + (from - at), end: p.end };
        push_coalesced(out, right, Ghost(o), Ghost(a));
        proof {
            let oend = if at > end { at as int } else { end as int };
            assert(d.subrange(from as int, next as int) =~= s.subrange(p.start + (from - at), p.end as int));
            assert(d.subrange(end as int, next as int) =~= d.subrange(end as int, oend) + s.subrange(
                p.start + (from - at),
                p.end as int,
            ));
        }
    }
    proof {
        assert(kept_upto(d, at + p.spec_len(), pos as int, end as int) =~= spell(out@, o, a));
        assert(removed_upto(d, at + p.spec_len(), pos as int, end as int) =~= spell(removed@, o, a));
    }
}

impl PieceTable {
    /// The piece holding byte `pos` and the offset within it. A position on
    /// a boundary between pieces is reported as the end of the left piece;
    /// the end of the text (or beyond) as `(pieces.len(), 0)`.
    #[verifier::rlimit(80)]
    pub fn locate(&self, pos: u64) -> (r: (usize, u64))
        requires
            self.wf(),
        ensures
            pos >= self.doc().len() ==> r == (self.pieces@.len() as usize, 0u64),
            pos < self.doc().len() ==> {
                &&& r.0 < self.pieces@.len()
                &&& spell(self.pieces@.take(r.0 as int), self.original@, self.buf@).len() + r.1 == pos
                &&& r.1 <= self.pieces@[r.0 as int].spec_len()
                &&& (r.1 > 0 || r.0 == 0)
            },
    {
        let ghost ps = self.pieces@;
        let ghost o = self.original@;
        let ghost a = self.buf@;
        let total = self.len();
        if pos >= total {
            return (self.pieces.len(), 0);
        }
        let mut rel: u64 = pos;
        let mut k: usize = 0;
        while k < self.pieces.len()
            invariant
                ps == self.pieces@,
                o == self.original@,
                a == self.buf@,
                self.wf(),
                total == self.doc().len(),
                pos < total,
                k <= ps.len(),
                spell(ps.take(k as int), o, a).len() + rel == pos,
                rel > 0 || k == 0,
            decreases ps.len() - k,
        {
            proof {
                lemma_spell_step(ps, k as int, o, a);
                assert(piece_ok(ps[k as int], o, a));
            }
            let p = self.pieces[k];
            let plen = p.end - p.start;
            if rel <= plen {
                return (k, rel);
            }
            rel = rel - plen;
            k = k + 1;
        }
        proof {
            assert(ps.take(k as int) =~= ps);
        }
        (k, 0)
    }

    /// Places the bytes of piece `q` at `pos`, splitting the piece that holds
    /// `pos` and joining contiguous neighbours; the journals are untouched.
    #[verifier::rlimit(80)]
    fn insert_no_history(&mut self, pos: u64, q: Piece)
        requires
            old(self).wf(),
            pos <= old(self).doc().len(),
            piece_ok(q, old(self).original@, old(self).buf@),
            old(self).doc().len() + q.spec_len() <= u64::MAX,
        ensures
            final(self).wf(),
            final(self).original@ == old(self).original@,
            final(self).buf@ == old(self).buf@,
            final(self).undo_stack@ == old(self).undo_stack@,
            final(self).redo_stack@ == old(self).redo_stack@,
            final(self).doc() == spliced_in(
                old(self).doc(),
                pos as int,
                piece_bytes(q, old(self).original@, old(self).buf@),
            ),
            (old(self).pieces@.len() == 1 && 0 < pos < old(self).pieces@[0].spec_len() && q.buf_kind != old(
                self,
            ).pieces@[0].buf_kind) ==> final(self).pieces@ == split_around(old(self).pieces@[0], pos as int, q),
            fills_gap(old(self).pieces@, pos as int, q) ==> final(self).pieces@ == filled(old(self).pieces@),
            pos == old(self).doc().len() ==> final(self).pieces@ == coalesced(coalesce_all(old(self).pieces@), q),
    {
        let ghost ps = self.pieces@;
        let ghost o = self.original@;
        let ghost a = self.buf@;
        let ghost d = self.doc();
        let ghost x = piece_bytes(q, o, a);
        let mut out: Vec<Piece> = Vec::new();
        let mut done = false;
        let mut at: u64 = 0;
        let mut k: usize = 0;
        proof {
            assert(spell(Seq::<Piece>::empty(), o, a) =~= Seq::<u8>::empty());
            assert(d.take(0) =~= Seq::<u8>::empty());
            assert(ps.take(0) =~= Seq::<Piece>::empty());
        }
        while k < self.pieces.len()
            invariant
                ps == self.pieces@,
                o == self.original@,
                a == self.buf@,
                d == spell(ps, o, a),
                pieces_ok(ps, o, a),
                d.len() <= u64::MAX,
                x == piece_bytes(q, o, a),
                piece_ok(q, o, a),
                pos <= d.len(),
                k <= ps.len(),
                at == spell(ps.take(k as int), o, a).len(),
                spell(ps.take(k as int), o, a) == d.take(at as int),
                pieces_ok(out@, o, a),
                done <==> pos < at,
                !done ==> spell(out@, o, a) == d.take(at as int),
                done ==> spell(out@, o, a) == d.take(pos as int) + x + d.subrange(pos as int, at as int),
                pos == d.len() ==> out@ == coalesce_all(ps.take(k as int)),
                fills_gap(ps, pos as int, q) ==> (k == 0 ==> out@.len() == 0 && at == 0) && (k == 1 ==> out@
                    == seq![ps[0]] && at == pos) && (k == 2 ==> out@ == filled(ps)),
                (ps.len() == 1 && 0 < pos < ps[0].spec_len() && q.buf_kind != ps[0].buf_kind) ==> (k == 0
                    ==> out@.len() == 0) && (k == 1 ==> out@ == split_around(ps[0], pos as int, q)),
            decreases ps.len() - k,
        {
            let p = self.pieces[k];
            proof {
                lemma_walk_step(ps, k as int, o, a, at as int);
            }
            let plen = p.end - p.start;
            let next = at + plen;
            done = place_step(&mut out, p, q, at, pos, done, Ghost(d), Ghost(o), Ghost(a));
            proof {
                assert(ps.take(k + 1).drop_last() =~= ps.take(k as int));
                assert(ps.take(k + 1).last() == p);
            }
            at = next;
            k = k + 1;
        }
        proof {
            assert(ps.take(k as int) =~= ps);
            assert(d.take(at as int) =~= d);
        }
        if !done {
            push_coalesced(&mut out, q, Ghost(o), Ghost(a));
            proof {
                assert(d.skip(pos as int) =~= Seq::<u8>::empty());
            }
        } else {
            proof {
                assert(d.subrange(pos as int, at as int) =~= d.skip(pos as int));
            }
        }
        self.pieces = out;
    }

    /// Removes `[pos, pos + len)` from the text and returns the pieces (or
    /// parts of pieces) that held those bytes, in order; the journals are
    /// untouched.
    #[verifier::rlimit(80)]
    fn delete_no_history(&mut self, pos: u64, len: u64) -> (removed: Vec<Piece>)
        requires
            old(self).wf(),
            pos + len <= old(self).doc().len(),
        ensures
            final(self).wf(),
            final(self).original@ == old(self).original@,
            final(self).buf@ == old(self).buf@,
            final(self).undo_stack@ == old(self).undo_stack@,
            final(self).redo_stack@ == old(self).redo_stack@,
            final(self).doc() == cut_out(old(self).doc(), pos as int, len as int),
            pieces_ok(removed@, old(self).original@, old(self).buf@),
            spell(removed@, old(self).original@, old(self).buf@) == old(self).doc().subrange(
                pos as int,
                pos + len,
            ),
   
            joins_back(old(self).pieces@, pos as int, len as int) ==> final(self).pieces@ == rejoined(
                old(self).pieces@,
            ),
            (old(self).pieces@.len() == 1 && 0 < pos && 0 < len && pos + len < old(self).pieces@[0].spec_len())
                ==> final(self).pieces@ == cut_around(old(self).pieces@[0], pos as int, pos + len) && removed@
                == seq![part_of(old(self).pieces@[0], pos as int, pos + len)],
    {
        let ghost ps = self.pieces@;
        let ghost o = self.original@;
        let ghost a = self.buf@;
        let ghost d = self.doc();
        let end = pos + len;
        let mut out: Vec<Piece> = Vec::new();
        let mut removed: Vec<Piece> = Vec::new();
        let mut at: u64 = 0;
        let mut k: usize = 0;
        proof {
            assert(spell(Seq::<Piece>::empty(), o, a) =~= Seq::<u8>::empty());
            assert(d.take(0) =~= Seq::<u8>::empty());
            assert(d.subrange(end as int, end as int) =~= Seq::<u8>::empty());
            assert(d.subrange(0, 0) =~= Seq::<u8>::empty());
        }
        while k < self.pieces.len()
            invariant
                ps == self.pieces@,
                o == self.original@,
                a == self.buf@,
                d == spell(ps, o, a),
                pieces_ok(ps, o, a),
                d.len() <= u64::MAX,
                end == pos + len,
                end <= d.len(),
                k <= ps.len(),
                at == spell(ps.take(k as int), o, a).len(),
                spell(ps.take(k as int), o, a) == d.take(at as int),
                pieces_ok(out@, o, a),
                pieces_ok(removed@, o, a),
                spell(out@, o, a) == kept_upto(d, at as int, pos as int, end as int),
                spell(removed@, o, a) == removed_upto(d, at as int, pos as int, end as int),
                (ps.len() == 1 && 0 < pos && 0 < len && pos + len < ps[0].spec_len()) ==> (k == 0 ==> out@.len()
                    == 0 && removed@.len() == 0 && at == 0) && (k == 1 ==> out@ == cut_around(
                    ps[0],
                    pos as int,
                    pos + len,
                ) && removed@ == seq![part_of(ps[0], pos as int, pos + len)]),
                joins_back(ps, pos as int, len as int) ==> (k == 0 ==> out@.len() == 0) && (k == 1 ==> out@
                    == seq![ps[0]] && at == pos) && (k == 2 ==> out@ == seq![ps[0]] && at == end) && (k == 3
                    ==> out@ == rejoined(ps)),
            decreases ps.len() - k,
        {
            let p = self.pieces[k];
            proof {
                lemma_walk_step(ps, k as int, o, a, at as int);
            }
            let plen = p.end - p.start;
            let next = at + plen;
            proof {
                assert(d.subrange(at as int, next as int) =~= piece_bytes(p, o, a));
            }
            proof {
                assert(d.take(at as int).len() == at);
            }
            cut_step(&mut out, &mut removed, p, at, pos, end, Ghost(d), Ghost(o), Ghost(a));
            at = next;
            k = k + 1;
        }
        proof {
            assert(ps.take(k as int) =~= ps);
            assert(d.take(at as int) =~= d);
            assert(d.subrange(end as int, at as int) =~= d.skip(end as int));
        }
        self.pieces = out;
        removed
    }
}


/// Appends the bytes of `b` to `v`.
pub fn append_bytes(v: &mut Vec<u8>, b: &[u8])
    ensures
        final(v)@ == old(v)@ + b@,
{
    let mut i: usize = 0;
    while i < b.len()
        invariant
            i <= b@.len(),
            v@ == old(v)@ + b@.take(i as int),
        decreases b@.len() - i,
    {
        v.push(b[i]);
        proof {
            assert(b@.take(i + 1) =~= b@.take(i as int).push(b@[i as int]));
        }
        i = i + 1;
    }
    proof {
        assert(b@.take(i as int) =~= b@);
    }
}

/// Total length of a run of pieces that fit their stores.
fn pieces_len(ps: &Vec<Piece>, Ghost(o): Ghost<Seq<u8>>, Ghost(a): Ghost<Seq<u8>>) -> (r: Option<u64>)
    requires
        pieces_ok(ps@, o, a),
    ensures
        spell(ps@, o, a).len() <= u64::MAX ==> r == Some(spell(ps@, o, a).len() as u64),
        spell(ps@, o, a).len() > u64::MAX ==> r is None,
{
    let mut acc: u64 = 0;
    let mut k: usize = 0;
    while k < ps.len()
        invariant
            pieces_ok(ps@, o, a),
            k <= ps@.len(),
            acc == spell(ps@.take(k as int), o, a).len(),
        decreases ps@.len() - k,
    {
        proof {
            lemma_spell_step(ps@, k as int, o, a);
            assert(piece_ok(ps@[k as int], o, a));
            lemma_spell_concat(ps@.take(k + 1), ps@.skip(k + 1), o, a);
            assert(ps@.take(k + 1) + ps@.skip(k + 1) =~= ps@);
        }
        let p = ps[k];
        let plen = p.end - p.start;
        if acc > u64::MAX - plen {
            return None;
        }
        acc = acc + plen;
        k = k + 1;
    }
    proof {
        assert(ps@.take(k as int) =~= ps@);
    }
    Some(acc)
}

impl PieceTable {
    /// Inserts `bytes` at byte `pos`: appends them to the add buffer and
    /// splices a piece over them into the text. Records the edit in the
    /// journal and clears the redo journal.
    #[verifier::rlimit(80)]
    pub fn insert(&mut self, pos: u64, bytes: &[u8]) -> (r: Result<(), MathError>)
        requires
            old(self).wf(),
        ensures
            final(self).wf(),
            final(self).original@ == old(self).original@,
            bytes@.len() == 0 ==> r is Ok && final(self).doc() == old(self).doc()
                && final(self).undo_stack@ == old(self).undo_stack@,
            bytes@.len() > 0 && pos > old(self).doc().len() ==> r == Err::<(), MathError>(
                MathError::OutOfBounds(pos as usize),
            ),
            bytes@.len() > 0 && pos <= old(self).doc().len() && (old(self).buf@.len() + bytes@.len() > u64::MAX
                || old(self).doc().len() + bytes@.len() > u64::MAX) ==> r == Err::<(), MathError>(
                MathError::Overflow,
            ),
            bytes@.len() > 0 && pos <= old(self).doc().len() && old(self).buf@.len() + bytes@.len() <= u64::MAX
                && old(self).doc().len() + bytes@.len() <= u64::MAX ==> r is Ok,
            r is Err ==> final(self).doc() == old(self).doc() && final(self).undo_stack@ == old(
                self,
            ).undo_stack@ && final(self).redo_stack@ == old(self).redo_stack@,
            r is Err || bytes@.len() == 0 ==> final(self).pieces@ == old(self).pieces@ && final(self).buf@ == old(
                self,
            ).buf@ && final(self).redo_stack@ == old(self).redo_stack@,
            (r is Ok && bytes@.len() > 0 && pos == old(self).doc().len()) ==> final(self).pieces@ == coalesced(
                coalesce_all(old(self).pieces@),
                Piece {
                    buf_kind: BufferKind::Add,
                    start: old(self).buf@.len() as u64,
                    end: (old(self).buf@.len() + bytes@.len()) as u64,
                },
            ),
            (r is Ok && bytes@.len() > 0 && old(self).pieces@.len() == 1 && old(self).pieces@[0].buf_kind
                == BufferKind::Original && 0 < pos < old(self).pieces@[0].spec_len()) ==> final(self).pieces@
                == split_around(
                old(self).pieces@[0],
                pos as int,
                Piece {
                    buf_kind: BufferKind::Add,
                    start: old(self).buf@.len() as u64,
                    end: (old(self).buf@.len() + bytes@.len()) as u64,
                },
            ),
            r is Ok && bytes@.len() > 0 ==> {
                &&& final(self).doc() == spliced_in(old(self).doc(), pos as int, bytes@)
                &&& final(self).buf@ == old(self).buf@ + bytes@
                &&& final(self).undo_stack@ == old(self).undo_stack@.push(
                    Edit::Insert {
                        pos,
                        start: old(self).buf@.len() as u64,
                        end: (old(self).buf@.len() + bytes@.len()) as u64,
                    },
                )
                &&& final(self).redo_stack@.len() == 0
            },
    {
        if bytes.len() == 0 {
            return Ok(());
        }
        let total = self.len();
        if pos > total {
            return Err(MathError::OutOfBounds(pos as usize));
        }
        let start = self.buf.len() as u64;
        let blen = bytes.len() as u64;
        if blen > u64::MAX - start || blen > u64::MAX - total {
            return Err(MathError::Overflow);
        }
        let end = start + blen;
        let ghost o = self.original@;
        let ghost a = self.buf@;
        let ghost d = self.doc();
        append_bytes(&mut self.buf, bytes);
        proof {
            lemma_spell_grow(self.pieces@, o, a, bytes@);
            assert(journal_ok(self.undo_stack@, o, self.buf@));
            assert(journal_ok(self.redo_stack@, o, self.buf@));
        }
        let q = Piece { buf_kind: BufferKind::Add, start, end };
        proof {
            assert(piece_bytes(q, o, self.buf@) =~= bytes@);
        }
        self.insert_no_history(pos, q);
        self.undo_stack.push(Edit::Insert { pos, start, end });
        self.redo_stack.clear();
        proof {
            assert(journal_ok(self.undo_stack@, o, self.buf@)) by {
                assert forall|i: int| 0 <= i < self.undo_stack@.len() implies match #[trigger] self.undo_stack@[i] {
                    Edit::Insert { pos, start, end } => start < end <= self.buf@.len(),
                    Edit::Delete { pos, len, removed } => pieces_ok(removed@, o, self.buf@),
                } by {
                    if i < self.undo_stack@.len() - 1 {
                        assert(self.undo_stack@[i] == old(self).undo_stack@[i]);
                    }
                }
            }
            assert(journal_ok(self.redo_stack@, o, self.buf@));
        }
        Ok(())
    }

    /// Inserts `bytes` at `pos` bytes before the end of the text.
    pub fn insert_last(&mut self, pos: u64, bytes: &[u8]) -> (r: Result<(), MathError>)
        requires
            old(self).wf(),
        ensures
            final(self).wf(),
            pos > old(self).doc().len() ==> r == Err::<(), MathError>(MathError::Overflow),
            r is Err || bytes@.len() == 0 ==> final(self).doc() == old(self).doc() && final(self).pieces@ == old(
                self,
            ).pieces@ && final(self).buf@ == old(self).buf@ && final(self).undo_stack@ == old(self).undo_stack@
                && final(self).redo_stack@ == old(self).redo_stack@,
            pos <= old(self).doc().len() ==> (r is Ok <==> (bytes@.len() == 0 || (old(self).buf@.len()
                + bytes@.len() <= u64::MAX && old(self).doc().len() + bytes@.len() <= u64::MAX))),
            pos <= old(self).doc().len() && r is Ok && bytes@.len() > 0 ==> {
                &&& final(self).doc() == spliced_in(old(self).doc(), old(self).doc().len() - pos, bytes@)
                &&& final(self).buf@ == old(self).buf@ + bytes@
                &&& final(self).undo_stack@ == old(self).undo_stack@.push(
                    Edit::Insert {
                        pos: (old(self).doc().len() - pos) as u64,
                        start: old(self).buf@.len() as u64,
                        end: (old(self).buf@.len() + bytes@.len()) as u64,
                    },
                )
                &&& final(self).redo_stack@.len() == 0
            },
    {
        let total = self.len();
        if pos > total {
            return Err(MathError::Overflow);
        }
        self.insert(total - pos, bytes)
    }

    /// Removes the `len` bytes at `pos`, recording exactly the pieces that
    /// held them in the journal, and clears the redo journal.
    #[verifier::rlimit(80)]
    pub fn delete(&mut self, pos: u64, len: u64) -> (r: Result<(), MathError>)
        requires
            old(self).wf(),
        ensures
            final(self).wf(),
            final(self).original@ == old(self).original@,
            final(self).buf@ == old(self).buf@,
            len == 0 ==> r is Ok && final(self).doc() == old(self).doc()
                && final(self).undo_stack@ == old(self).undo_stack@,
            len > 0 ==> (r is Ok <==> pos + len <= old(self).doc().len()),
            r is Err ==> r == Err::<(), MathError>(MathError::OutOfBounds(old(self).doc().len() as usize))
                && final(self).doc() == old(self).doc() && final(self).undo_stack@ == old(self).undo_stack@
                && final(self).redo_stack@ == old(self).redo_stack@,
            r is Ok && len > 0 ==> {
                &&& final(self).doc() == cut_out(old(self).doc(), pos as int, len as int)
                &&& final(self).undo_stack@.len() == old(self).undo_stack@.len() + 1
                &&& final(self).undo_stack@.drop_last() == old(self).undo_stack@
                &&& final(self).undo_stack@.last() matches Edit::Delete { pos: p, len: l, removed }
                    && p == pos && l == len && spell(removed@, old(self).original@, old(self).buf@)
                    == old(self).doc().subrange(pos as int, pos + len)
                &&& (old(self).pieces@.len() == 1 && 0 < pos && pos + len < old(self).pieces@[0].spec_len())
                    ==> final(self).pieces@ == cut_around(old(self).pieces@[0], pos as int, pos + len)
                    && (final(self).undo_stack@.last() matches Edit::Delete { removed, .. } && removed@ == seq![
                    part_of(old(self).pieces@[0], pos as int, pos + len),
                ])
                &&& final(self).redo_stack@.len() == 0
            },
    {
        if len == 0 {
            return Ok(());
        }
        let total = self.len();
        if pos > total || len > total - pos {
            return Err(MathError::OutOfBounds(total as usize));
        }
        let removed = self.delete_no_history(pos, len);
        self.undo_stack.push(Edit::Delete { pos, len, removed });
        self.redo_stack.clear();
        proof {
            let o = self.original@;
            let a = self.buf@;
            assert(self.undo_stack@.drop_last() =~= old(self).undo_stack@);
            assert(journal_ok(self.undo_stack@, o, a)) by {
                assert forall|i: int| 0 <= i < self.undo_stack@.len() implies match #[trigger] self.undo_stack@[i] {
                    Edit::Insert { pos, start, end } => start < end <= a.len(),
                    Edit::Delete { pos, len, removed } => pieces_ok(removed@, o, a),
                } by {
                    if i < self.undo_stack@.len() - 1 {
                        assert(self.undo_stack@[i] == old(self).undo_stack@[i]);
                    }
                }
            }
        }
        Ok(())
    }
}


/// What undoing journal entry `e` does to text `d`, if it can be done.
pub open spec fn undo_effect(e: Edit, d: Seq<u8>, orig: Seq<u8>, add: Seq<u8>) -> Option<Seq<u8>> {
    match e {
        Edit::Insert { pos, start, end } => if pos + (end - start) <= d.len() {
            Some(cut_out(d, pos as int, end - start))
        } else {
            None
        },
        Edit::Delete { pos, len, removed } => if pos <= d.len() && d.len() + spell(removed@, orig, add).len()
            <= u64::MAX {
            Some(spliced_in(d, pos as int, spell(removed@, orig, add)))
        } else {
            None
        },
    }
}

/// What redoing journal entry `e` does to text `d`, if it can be done.
pub open spec fn redo_effect(e: Edit, d: Seq<u8>, orig: Seq<u8>, add: Seq<u8>) -> Option<Seq<u8>> {
    match e {
        Edit::Insert { pos, start, end } => if pos <= d.len() && d.len() + (end - start) <= u64::MAX {
            Some(spliced_in(d, pos as int, add.subrange(start as int, end as int)))
        } else {
            None
        },
        Edit::Delete { pos, len, removed } => if pos + len <= d.len() {
            Some(cut_out(d, pos as int, len as int))
        } else {
            None
        },
    }
}

impl PieceTable {
    /// Replays the inverse of the last journal entry and moves it to the
    /// redo journal. Nothing happens when the journal is empty; an entry that
    /// does not fit the text is refused and kept.
    #[verifier::rlimit(80)]
    pub fn undo(&mut self) -> (r: Result<(), MathError>)
        requires
            old(self).wf(),
        ensures
            final(self).wf(),
            final(self).original@ == old(self).original@,
            final(self).buf@ == old(self).buf@,
            old(self).undo_stack@.len() == 0 ==> r is Ok && final(self).doc() == old(self).doc()
                && final(self).undo_stack@ == old(self).undo_stack@
                && final(self).redo_stack@ == old(self).redo_stack@,
            old(self).undo_stack@.len() > 0 ==> match undo_effect(
                old(self).undo_stack@.last(),
                old(self).doc(),
                old(self).original@,
                old(self).buf@,
            ) {
                Some(d) => r is Ok && final(self).doc() == d && final(self).undo_stack@ == old(
                    self,
                ).undo_stack@.drop_last() && final(self).redo_stack@ == old(self).redo_stack@.push(
                    old(self).undo_stack@.last(),
                ),
                None => r is Err && final(self).doc() == old(self).doc() && final(self).undo_stack@ == old(
                    self,
                ).undo_stack@ && final(self).redo_stack@ == old(self).redo_stack@,
            },
            r is Ok && old(self).undo_stack@.len() > 0 ==> match old(self).undo_stack@.last() {
                Edit::Insert { pos, start, end } => joins_back(old(self).pieces@, pos as int, end - start)
                    ==> final(self).pieces@ == rejoined(old(self).pieces@),
                Edit::Delete { pos, len, removed } => (removed@.len() == 1 && fills_gap(
                    old(self).pieces@,
                    pos as int,
                    removed@[0],
                )) ==> final(self).pieces@ == filled(old(self).pieces@),
            },
    {
        let n = self.undo_stack.len();
        if n == 0 {
            return Ok(());
        }
        let ghost o = self.original@;
        let ghost a = self.buf@;
        let ghost d = self.doc();
        let total = self.len();
        proof {
            assert(journal_ok(self.undo_stack@, o, a));
            assert(match self.undo_stack@[n - 1] {
                Edit::Insert { pos, start, end } => start < end <= a.len(),
                Edit::Delete { pos, len, removed } => pieces_ok(removed@, o, a),
            });
        }
        let fits = match &self.undo_stack[n - 1] {
            Edit::Insert { pos, start, end } => *pos <= total && *end - *start <= total - *pos,
            Edit::Delete { pos, len, removed } => {
                match pieces_len(removed, Ghost(o), Ghost(a)) {
                    Some(rl) => *pos <= total && rl <= u64::MAX - total,
                    None => false,
                }
            },
        };
        if !fits {
            return Err(MathError::OutOfBounds(total as usize));
        }
        let cmd = self.undo_stack.pop().unwrap();
        proof {
            assert(journal_ok(self.undo_stack@, o, a)) by {
                assert forall|i: int| 0 <= i < self.undo_stack@.len() implies match #[trigger] self.undo_stack@[i] {
                    Edit::Insert { pos, start, end } => start < end <= a.len(),
                    Edit::Delete { pos, len, removed } => pieces_ok(removed@, o, a),
                } by {
                    assert(self.undo_stack@[i] == old(self).undo_stack@[i]);
                }
            }
        }
        match &cmd {
            Edit::Insert { pos, start, end } => {
                let _ = self.delete_no_history(*pos, *end - *start);
            },
            Edit::Delete { pos, len, removed } => {
                let mut at: u64 = *pos;
                let mut i: usize = 0;
                let ghost rs = removed@;
                while i < removed.len()
                    invariant
                        rs == removed@,
                        pieces_ok(rs, o, a),
                        self.wf(),
                        self.original@ == o,
                        self.buf@ == a,
                        self.undo_stack@ == old(self).undo_stack@.drop_last(),
                        self.redo_stack@ == old(self).redo_stack@,
                        i <= rs.len(),
                        *pos <= d.len(),
                        d.len() + spell(rs, o, a).len() <= u64::MAX,
                        at == *pos + spell(rs.take(i as int), o, a).len(),
                        self.doc() == d.take(*pos as int) + spell(rs.take(i as int), o, a) + d.skip(*pos as int),
                        (rs.len() == 1 && fills_gap(old(self).pieces@, *pos as int, rs[0])) ==> (i == 0
                            ==> self.pieces@ == old(self).pieces@) && (i == 1 ==> self.pieces@ == filled(
                            old(self).pieces@,
                        )),
                    decreases rs.len() - i,
                {
                    let p = removed[i];
                    proof {
                        lemma_spell_step(rs, i as int, o, a);
                        assert(piece_ok(rs[i as int], o, a));
                        lemma_spell_concat(rs.take(i + 1), rs.skip(i + 1), o, a);
                        assert(rs.take(i + 1) + rs.skip(i + 1) =~= rs);
                        let cur = self.doc();
                        assert(cur.take(at as int) =~= d.take(*pos as int) + spell(rs.take(i as int), o, a));
                        assert(cur.skip(at as int) =~= d.skip(*pos as int));
                    }
                    self.insert_no_history(at, p);
                    proof {
                        assert(self.doc() =~= d.take(*pos as int) + spell(rs.take(i + 1), o, a) + d.skip(
                            *pos as int,
                        ));
                    }
                    at = at + (p.end - p.start);
                    i = i + 1;
                }
                proof {
                    assert(rs.take(i as int) =~= rs);
                }
            },
        }
        self.redo_stack.push(cmd);
        proof {
            assert(journal_ok(self.redo_stack@, o, a)) by {
                assert forall|i: int| 0 <= i < self.redo_stack@.len() implies match #[trigger] self.redo_stack@[i] {
                    Edit::Insert { pos, start, end } => start < end <= a.len(),
                    Edit::Delete { pos, len, removed } => pieces_ok(removed@, o, a),
                } by {
                    if i < self.redo_stack@.len() - 1 {
                        assert(self.redo_stack@[i] == old(self).redo_stack@[i]);
                    }
                }
            }
        }
        Ok(())
    }

    /// Replays the last undone entry and moves it back to the journal.
    /// Nothing happens when there is none; an entry that does not fit the
    /// text is refused and kept.
    #[verifier::rlimit(80)]
    pub fn redo(&mut self) -> (r: Result<(), MathError>)
        requires
            old(self).wf(),
        ensures
            final(self).wf(),
            final(self).original@ == old(self).original@,
            final(self).buf@ == old(self).buf@,
            old(self).redo_stack@.len() == 0 ==> r is Ok && final(self).doc() == old(self).doc()
                && final(self).undo_stack@ == old(self).undo_stack@
                && final(self).redo_stack@ == old(self).redo_stack@,
            old(self).redo_stack@.len() > 0 ==> match redo_effect(
                old(self).redo_stack@.last(),
                old(self).doc(),
                old(self).original@,
                old(self).buf@,
            ) {
                Some(d) => r is Ok && final(self).doc() == d && final(self).redo_stack@ == old(
                    self,
                ).redo_stack@.drop_last() && final(self).undo_stack@.len() == old(self).undo_stack@.len() + 1,
                None => r is Err && final(self).doc() == old(self).doc() && final(self).undo_stack@ == old(
                    self,
                ).undo_stack@ && final(self).redo_stack@ == old(self).redo_stack@,
            },
    {
        let n = self.redo_stack.len();
        if n == 0 {
            return Ok(());
        }
        let ghost o = self.original@;
        let ghost a = self.buf@;
        let ghost d = self.doc();
        let total = self.len();
        proof {
            assert(journal_ok(self.redo_stack@, o, a));
            assert(match self.redo_stack@[n - 1] {
                Edit::Insert { pos, start, end } => start < end <= a.len(),
                Edit::Delete { pos, len, removed } => pieces_ok(removed@, o, a),
            });
        }
        let fits = match &self.redo_stack[n - 1] {
            Edit::Insert { pos, start, end } => *pos <= total && *end - *start <= u64::MAX - total,
            Edit::Delete { pos, len, removed } => *pos <= total && *len <= total - *pos,
        };
        if !fits {
            return Err(MathError::OutOfBounds(total as usize));
        }
        let cmd = self.redo_stack.pop().unwrap();
        proof {
            assert(journal_ok(self.redo_stack@, o, a)) by {
                assert forall|i: int| 0 <= i < self.redo_stack@.len() implies match #[trigger] self.redo_stack@[i] {
                    Edit::Insert { pos, start, end } => start < end <= a.len(),
                    Edit::Delete { pos, len, removed } => pieces_ok(removed@, o, a),
                } by {
                    assert(self.redo_stack@[i] == old(self).redo_stack@[i]);
                }
            }
        }
        let ghost u0 = self.undo_stack@;
        match cmd {
            Edit::Insert { pos, start, end } => {
                let q = Piece { buf_kind: BufferKind::Add, start, end };
                self.insert_no_history(pos, q);
                self.undo_stack.push(Edit::Insert { pos, start, end });
            },
            Edit::Delete { pos, len, removed } => {
                let again = self.delete_no_history(pos, len);
                self.undo_stack.push(Edit::Delete { pos, len, removed: again });
            },
        }
        proof {
            assert(journal_ok(self.undo_stack@, o, a)) by {
                assert forall|i: int| 0 <= i < self.undo_stack@.len() implies match #[trigger] self.undo_stack@[i] {
                    Edit::Insert { pos, start, end } => start < end <= a.len(),
                    Edit::Delete { pos, len, removed } => pieces_ok(removed@, o, a),
                } by {
                    if i < self.undo_stack@.len() - 1 {
                        assert(self.undo_stack@[i] == u0[i]);
                    }
                }
            }
        }
        Ok(())
    }
}


/// The text that `String::from_utf8_lossy` makes of `b`.
pub uninterp spec fn utf8_lossy(b: Seq<u8>) -> Seq<char>;

/// `t` is the text that `String::from_utf8_lossy` makes of `b`: exactly
/// the decoded characters when `b` is valid UTF-8.
pub open spec fn lossy_text_is(t: Seq<char>, b: Seq<u8>) -> bool {
    t == utf8_lossy(b) && (vstd::utf8::valid_utf8(b) ==> t == vstd::utf8::decode_utf8(b))
}

/// Relies on `String::from_utf8_lossy`: the bytes read as UTF-8, with each
/// invalid sequence replaced by U+FFFD.
#[verifier::external_body]
pub(crate) fn lossy_string(b: &[u8]) -> (r: String)
    ensures
        r@ == utf8_lossy(b@),
        vstd::utf8::valid_utf8(b@) ==> r@ == vstd::utf8::decode_utf8(b@),
{
    String::from_utf8_lossy(b).into_owned()
}

/// The bytes of a chunk list laid end to end.
pub open spec fn joined(cs: Seq<&[u8]>) -> Seq<u8>
    decreases cs.len(),
{
    if cs.len() == 0 {
        Seq::empty()
    } else {
        joined(cs.drop_last()) + cs.last()@
    }
}

/// The range of text bytes that a request for `len` bytes at `pos` gets.
pub open spec fn clipped(d: Seq<u8>, pos: int, len: int) -> Seq<u8> {
    let lo = if pos < d.len() { pos } else { d.len() as int };
    let hi = if pos + len < d.len() { pos + len } else { d.len() as int };
    d.subrange(lo, if hi < lo { lo } else { hi })
}

impl PieceTable {
    /// Bytes `[from, to)` of the store that piece `p` reads.
    fn store_slice(&self, p: Piece, from: u64, to: u64) -> (r: &[u8])
        requires
            self.wf(),
            from <= to <= store(p.buf_kind, self.original@, self.buf@).len(),
        ensures
            r@ == store(p.buf_kind, self.original@, self.buf@).subrange(from as int, to as int),
    {
        let all: &[u8] = match p.buf_kind {
            BufferKind::Original => self.original.as_slice(),
            BufferKind::Add => self.buf.as_slice(),
        };
        let n = all.len();
        assert(to <= n);
        slice_subrange(all, from as usize, to as usize)
    }

    /// The text bytes of `[pos, pos + len)`, cut short at the end of the text.
    #[verifier::rlimit(80)]
    pub fn get_bytes_at(&self, pos: u64, len: u64) -> (r: Result<Vec<u8>, MathError>)
        requires
            self.wf(),
        ensures
            r matches Ok(v) && v@ == clipped(self.doc(), pos as int, len as int),
    {
        let ghost ps = self.pieces@;
        let ghost o = self.original@;
        let ghost a = self.buf@;
        let ghost d = self.doc();
        let total = self.len();
        let lo = if pos < total { pos } else { total };
        let want = if len > u64::MAX - pos { u64::MAX } else { pos + len };
        let hi0 = if want < total { want } else { total };
        let hi = if hi0 < lo { lo } else { hi0 };
        let mut res: Vec<u8> = Vec::new();
        let mut at: u64 = 0;
        let mut k: usize = 0;
        proof {
            assert(d.subrange(lo as int, lo as int) =~= Seq::<u8>::empty());
        }
        while k < self.pieces.len()
            invariant
                ps == self.pieces@,
                o == self.original@,
                a == self.buf@,
                d == self.doc(),
                self.wf(),
                lo <= hi <= d.len(),
                k <= ps.len(),
                at == spell(ps.take(k as int), o, a).len(),
                spell(ps.take(k as int), o, a) == d.take(at as int),
                res@ == d.subrange(
                    lo as int,
                    if at < lo { lo as int } else if at < hi { at as int } else { hi as int },
                ),
            decreases ps.len() - k,
        {
            let p = self.pieces[k];
            proof {
                lemma_spell_step(ps, k as int, o, a);
                assert(piece_ok(ps[k as int], o, a));
                lemma_spell_concat(ps.take(k + 1), ps.skip(k + 1), o, a);
                assert(ps.take(k + 1) + ps.skip(k + 1) =~= ps);
                assert(d.take(at + p.spec_len()) =~= d.take(at as int) + piece_bytes(p, o, a));
            }
            let next = at + (p.end - p.start);
            let from = if lo > at { lo } else { at };
            let to = if hi < next { hi } else { next };
            if from < to {
                let chunk = self.store_slice(p, p.start + (from - at), p.start + (to - at));
                proof {
                    let s = store(p.buf_kind, o, a);
                    assert forall|j: int| at <= j < next implies #[trigger] d[j] == s[p.start + (j - at)] by {
                        assert(d.take(next as int)[j] == d[j]);
                    }
                    assert(chunk@ =~= d.subrange(from as int, to as int));
                }
                append_bytes(&mut res, chunk);
                proof {
                    assert(res@ =~= d.subrange(
                        lo as int,
                        if next < lo { lo as int } else if next < hi { next as int } else { hi as int },
                    ));
                }
            }
            at = next;
            k = k + 1;
        }
        proof {
            assert(ps.take(k as int) =~= ps);
        }
        Ok(res)
    }

    /// The text bytes of `[pos, pos + len)` as a string, with invalid UTF-8
    /// replaced.
    pub fn get_string(&self, pos: u64, len: u64) -> (r: Result<String, MathError>)
        requires
            self.wf(),
        ensures
            r matches Ok(s) && lossy_text_is(s@, clipped(self.doc(), pos as int, len as int)),
    {
        let bytes = self.get_bytes_at(pos, len).unwrap();
        Ok(lossy_string(bytes.as_slice()))
    }

    /// The text as one borrowed chunk per piece, in order.
    pub fn iter_bytes(&self) -> (r: Vec<&[u8]>)
        requires
            self.wf(),
        ensures
            joined(r@) == self.doc(),
            r@.len() == self.pieces@.len(),
            forall|i: int|
                0 <= i < r@.len() ==> (#[trigger] r@[i])@ == piece_bytes(self.pieces@[i], self.original@, self.buf@),
    {
        let ghost ps = self.pieces@;
        let ghost o = self.original@;
        let ghost a = self.buf@;
        let mut out: Vec<&[u8]> = Vec::new();
        let mut k: usize = 0;
        proof {
            assert(joined(Seq::<&[u8]>::empty()) =~= spell(ps.take(0), o, a));
        }
        while k < self.pieces.len()
            invariant
                ps == self.pieces@,
                o == self.original@,
                a == self.buf@,
                self.wf(),
                k <= ps.len(),
                joined(out@) == spell(ps.take(k as int), o, a),
                out@.len() == k,
                forall|i: int| 0 <= i < k ==> (#[trigger] out@[i])@ == piece_bytes(ps[i], o, a),
            decreases ps.len() - k,
        {
            let p = self.pieces[k];
            proof {
                lemma_spell_step(ps, k as int, o, a);
                assert(piece_ok(ps[k as int], o, a));
            }
            let chunk = self.store_slice(p, p.start, p.end);
            let ghost before = out@;
            out.push(chunk);
            proof {
                assert(out@.drop_last() =~= before);
            }
            k = k + 1;
        }
        proof {
            assert(ps.take(k as int) =~= ps);
        }
        out
    }

    /// After a save: the saved file becomes the original, the add buffer
    /// starts over at its baseline capacity, one piece covers the whole
    /// file, and both journals are emptied.
    pub fn reset_to_mmap(&mut self, new_mmap: MmapFile)
        requires
            new_mmap@.len() <= u64::MAX,
        ensures
            final(self).wf(),
            final(self).doc() == new_mmap@,
            final(self).original@ == new_mmap@,
            final(self).buf@.len() == 0,
            final(self).undo_stack@.len() == 0,
            final(self).redo_stack@.len() == 0,
            final(self).pieces@ == whole_original(new_mmap@.len()),
    {
        let n = new_mmap.len();
        let mut pieces: Vec<Piece> = Vec::new();
        if n > 0 {
            pieces.push(Piece { buf_kind: BufferKind::Original, start: 0, end: n as u64 });
        }
        self.original = new_mmap;
        self.buf = Vec::with_capacity(BASELINE_CAPACITY);
        self.pieces = pieces;
        self.undo_stack = Vec::new();
        self.redo_stack = Vec::new();
        proof {
            if n > 0 {
                assert(self.pieces@.drop_last() =~= Seq::<Piece>::empty());
                assert(spell(Seq::<Piece>::empty(), self.original@, self.buf@) =~= Seq::<u8>::empty());
            }
            assert(self.doc() =~= self.original@);
        }
    }
}

/// Concatenating the chunks handed out by `iter_bytes` gives exactly the
/// bytes that `get_bytes_at(0, len())` returns.
pub proof fn lemma_chunks_agree(t: PieceTable, chunks: Seq<&[u8]>, all: Seq<u8>)
    requires
        t.wf(),
        joined(chunks) == t.doc(),
        all == clipped(t.doc(), 0, t.doc().len() as int),
    ensures
        joined(chunks) == all,
{
    assert(t.doc().subrange(0, t.doc().len() as int) =~= t.doc());
}


/// The journal entry of an insertion undoes it, and redoing it performs it
/// again: for text `d`, inserting the add-buffer bytes `[start, end)` at
/// `pos` and undoing gives `d` back.
pub proof fn lemma_insert_entry_round_trip(d: Seq<u8>, pos: u64, start: u64, end: u64, orig: Seq<u8>, add: Seq<u8>)
    requires
        pos <= d.len(),
        start <= end <= add.len(),
        d.len() + (end - start) <= u64::MAX,
    ensures
        redo_effect(Edit::Insert { pos, start, end }, d, orig, add) == Some(
            spliced_in(d, pos as int, add.subrange(start as int, end as int)),
        ),
        undo_effect(
            Edit::Insert { pos, start, end },
            spliced_in(d, pos as int, add.subrange(start as int, end as int)),
            orig,
            add,
        ) == Some(d),
{
    let x = add.subrange(start as int, end as int);
    let d1 = spliced_in(d, pos as int, x);
    assert(cut_out(d1, pos as int, end - start) =~= d);
}

/// The journal entry of a deletion, which holds the removed pieces, undoes
/// it, and redoing it performs it again.
pub proof fn lemma_delete_entry_round_trip(
    d: Seq<u8>,
    pos: u64,
    len: u64,
    removed: Vec<Piece>,
    orig: Seq<u8>,
    add: Seq<u8>,
)
    requires
        pos + len <= d.len(),
        d.len() <= u64::MAX,
        spell(removed@, orig, add) == d.subrange(pos as int, pos + len),
    ensures
        redo_effect(Edit::Delete { pos, len, removed }, d, orig, add) == Some(cut_out(d, pos as int, len as int)),
        undo_effect(Edit::Delete { pos, len, removed }, cut_out(d, pos as int, len as int), orig, add) == Some(d),
{
    let d1 = cut_out(d, pos as int, len as int);
    assert(spliced_in(d1, pos as int, d.subrange(pos as int, pos + len)) =~= d);
}


/// Reads the bytes of part of a piece.
pub trait SliceOfWithStartEnd {
    /// The bytes a piece reads from its store.
    spec fn store_bytes(&self, piece: Piece) -> Seq<u8>;

    /// Bytes `[start, end)` of the store that `piece` reads from.
    fn slice_of(&self, piece: &Piece, start: u64, end: u64) -> (r: Result<&[u8], MathError>)
        ensures
            start <= end <= self.store_bytes(*piece).len() ==> (r matches Ok(s) && s@ == self.store_bytes(
                *piece,
            ).subrange(start as int, end as int)),
            !(start <= end <= self.store_bytes(*piece).len()) ==> r is Err,
    ;
}

/// Reads the bytes of a whole piece.
pub trait SliceOf {
    /// The bytes a piece reads from its store.
    spec fn store_bytes(&self, piece: Piece) -> Seq<u8>;

    /// The bytes that `piece` stands for.
    fn slice_of(&self, piece: &Piece) -> (r: Result<&[u8], MathError>)
        ensures
            piece.start <= piece.end <= self.store_bytes(*piece).len() ==> (r matches Ok(s) && s@
                == self.store_bytes(*piece).subrange(piece.start as int, piece.end as int)),
            !(piece.start <= piece.end <= self.store_bytes(*piece).len()) ==> r is Err,
    ;
}

impl PieceTable {
    /// Bytes `[start, end)` of the store `kind`, when they exist.
    fn checked_slice(&self, kind: BufferKind, start: u64, end: u64) -> (r: Result<&[u8], MathError>)
        ensures
            start <= end <= store(kind, self.original@, self.buf@).len() ==> (r matches Ok(s) && s@ == store(
                kind,
                self.original@,
                self.buf@,
            ).subrange(start as int, end as int)),
            !(start <= end <= store(kind, self.original@, self.buf@).len()) ==> r == Err::<&[u8], MathError>(
                MathError::OutOfBounds(store(kind, self.original@, self.buf@).len() as usize),
            ),
    {
        let all: &[u8] = match kind {
            BufferKind::Original => self.original.as_slice(),
            BufferKind::Add => self.buf.as_slice(),
        };
        let n = all.len();
        if start > end || end > n as u64 {
            return Err(MathError::OutOfBounds(n));
        }
        Ok(slice_subrange(all, start as usize, end as usize))
    }
}

impl SliceOfWithStartEnd for PieceTable {
    open spec fn store_bytes(&self, piece: Piece) -> Seq<u8> {
        store(piece.buf_kind, self.original@, self.buf@)
    }

    fn slice_of(&self, piece: &Piece, start: u64, end: u64) -> (r: Result<&[u8], MathError>) {
        self.checked_slice(piece.buf_kind, start, end)
    }
}

impl SliceOf for PieceTable {
    open spec fn store_bytes(&self, piece: Piece) -> Seq<u8> {
        store(piece.buf_kind, self.original@, self.buf@)
    }

    fn slice_of(&self, piece: &Piece) -> (r: Result<&[u8], MathError>) {
        self.checked_slice(piece.buf_kind, piece.start, piece.end)
    }
}

} // verus!
