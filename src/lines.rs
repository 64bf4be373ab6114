//! The mathematical model of line structure: how a byte sequence splits
//! into lines, and how the line lengths change under an edit.
use vstd::prelude::*;

verus! {

/// The newline byte.
pub const NEWLINE: u8 = 10;

/// Sum of a sequence of lengths.
pub open spec fn sum(s: Seq<nat>) -> nat
    decreases s.len(),
{
    if s.len() == 0 {
        0
    } else {
        sum(s.drop_last()) + s.last()
    }
}

/// Number of newline bytes in `t`.
pub open spec fn count_newlines(t: Seq<u8>) -> nat
    decreases t.len(),
{
    if t.len() == 0 {
        0
    } else {
        count_newlines(t.drop_last()) + if t.last() == NEWLINE {
            1nat
        } else {
            0nat
        }
    }
}

/// The length of each line of `t`, each counting its trailing newline.
/// The last entry covers the bytes after the last newline and is zero when
/// `t` is empty or ends with a newline.
pub open spec fn lines_of(t: Seq<u8>) -> Seq<nat>
    decreases t.len(),
{
    if t.len() == 0 {
        seq![0nat]
    } else {
        let r = lines_of(t.drop_last());
        let r2 = r.update(r.len() - 1, r.last() + 1);
        if t.last() == NEWLINE {
            r2.push(0nat)
        } else {
            r2
        }
    }
}

/// Glues two line-length sequences: the last line of `a` continues with the
/// first line of `b`.
pub open spec fn join(a: Seq<nat>, b: Seq<nat>) -> Seq<nat> {
    a.drop_last() + seq![a.last() + b[0]] + b.drop_first()
}

/// The line that holds byte offset `off`, and the offset within it: the
/// first line whose end lies beyond `off`, or the last line when none does.
pub open spec fn line_at(l: Seq<nat>, off: int) -> (int, int)
    decreases l.len(),
{
    if l.len() <= 1 || off < l[0] {
        (0, off)
    } else {
        let r = line_at(l.drop_first(), off - l[0]);
        (r.0 + 1, r.1)
    }
}

/// Byte offset at which line `i` starts.
pub open spec fn line_start(l: Seq<nat>, i: int) -> nat {
    sum(l.take(i))
}

/// Line lengths after inserting text with line lengths `n` at byte `off`.
pub open spec fn insert_lines(l: Seq<nat>, off: int, n: Seq<nat>) -> Seq<nat> {
    let (t, p) = line_at(l, off);
    l.take(t) + join(join(seq![p as nat], n), seq![(l[t] - p) as nat]) + l.skip(t + 1)
}

/// Line lengths after removing `len` bytes at byte `off`.
pub open spec fn remove_lines(l: Seq<nat>, off: int, len: int) -> Seq<nat> {
    let (s, p) = line_at(l, off);
    let (e, q) = line_at(l, off + len);
    l.take(s) + seq![(p + l[e] - q) as nat] + l.skip(e + 1)
}

pub proof fn lemma_sum_concat(a: Seq<nat>, b: Seq<nat>)
    ensures
        sum(a + b) == sum(a) + sum(b),
    decreases b.len(),
{
    if b.len() == 0 {
        assert(a + b =~= a);
    } else {
        lemma_sum_concat(a, b.drop_last());
        assert((a + b).drop_last() =~= a + b.drop_last());
    }
}

pub proof fn lemma_sum_first(a: Seq<nat>)
    requires
        a.len() >= 1,
    ensures
        sum(a) == a[0] + sum(a.drop_first()),
{
    let h = seq![a[0]];
    assert(h.drop_last() =~= Seq::<nat>::empty());
    assert(sum(h.drop_last()) == 0);
    assert(sum(h) == a[0]);
    lemma_sum_concat(h, a.drop_first());
    assert(h + a.drop_first() =~= a);
}

pub proof fn lemma_sum_take_step(a: Seq<nat>, i: int)
    requires
        0 <= i < a.len(),
    ensures
        sum(a.take(i + 1)) == sum(a.take(i)) + a[i],
{
    assert(a.take(i + 1).drop_last() =~= a.take(i));
}

pub proof fn lemma_sum_take_le(a: Seq<nat>, i: int)
    requires
        0 <= i <= a.len(),
    ensures
        sum(a.take(i)) <= sum(a),
{
    lemma_sum_concat(a.take(i), a.skip(i));
    assert(a.take(i) + a.skip(i) =~= a);
}

/// `lines_of` has one entry more than there are newlines.
pub proof fn lemma_lines_len(t: Seq<u8>)
    ensures
        lines_of(t).len() == 1 + count_newlines(t),
    decreases t.len(),
{
    if t.len() > 0 {
        lemma_lines_len(t.drop_last());
    }
}

/// The line lengths of `t` add up to its length.
pub proof fn lemma_lines_sum(t: Seq<u8>)
    ensures
        sum(lines_of(t)) == t.len(),
    decreases t.len(),
{
    if t.len() == 0 {
        let z = seq![0nat];
        assert(z.drop_last() =~= Seq::<nat>::empty());
        assert(sum(Seq::<nat>::empty()) == 0);
        assert(z.last() == 0);
        assert(sum(z) == sum(z.drop_last()) + z.last());
    } else {
        let r = lines_of(t.drop_last());
        lemma_lines_len(t.drop_last());
        lemma_lines_sum(t.drop_last());
        let r2 = r.update(r.len() - 1, r.last() + 1);
        assert(r2.drop_last() =~= r.drop_last());
        assert(sum(r) == sum(r.drop_last()) + r.last());
        assert(sum(r2) == sum(r2.drop_last()) + r2.last());
        if t.last() == NEWLINE {
            assert(r2.push(0nat).drop_last() =~= r2);
            assert(sum(r2.push(0nat)) == sum(r2));
        }
    }
}

/// The first line of a non-empty text is not empty.
pub proof fn lemma_first_line_pos(t: Seq<u8>)
    requires
        t.len() > 0,
    ensures
        lines_of(t)[0] >= 1,
    decreases t.len(),
{
    lemma_lines_len(t.drop_last());
    if t.len() > 1 {
        lemma_first_line_pos(t.drop_last());
    }
}

/// Every line but the last is not empty.
pub proof fn lemma_inner_lines_pos(t: Seq<u8>, i: int)
    requires
        0 <= i < lines_of(t).len() - 1,
    ensures
        lines_of(t)[i] >= 1,
    decreases t.len(),
{
    lemma_lines_len(t);
    if t.len() > 0 {
        let r = lines_of(t.drop_last());
        lemma_lines_len(t.drop_last());
        if i < r.len() - 1 {
            lemma_inner_lines_pos(t.drop_last(), i);
        }
    }
}

/// The lines of a concatenation are the lines of the two parts, glued.
pub proof fn lemma_lines_concat(a: Seq<u8>, b: Seq<u8>)
    ensures
        lines_of(a + b) == join(lines_of(a), lines_of(b)),
    decreases b.len(),
{
    lemma_lines_len(a);
    lemma_lines_len(b);
    if b.len() == 0 {
        assert(a + b =~= a);
        assert(join(lines_of(a), lines_of(b)) =~= lines_of(a));
    } else {
        let b0 = b.drop_last();
        lemma_lines_concat(a, b0);
        lemma_lines_len(b0);
        assert((a + b).drop_last() =~= a + b0);
        let la = lines_of(a);
        let lb0 = lines_of(b0);
        let j = join(la, lb0);
        let r2 = j.update(j.len() - 1, j.last() + 1);
        let s2 = lb0.update(lb0.len() - 1, lb0.last() + 1);
        if lb0.len() == 1 {
            assert(r2 =~= join(la, s2));
            if b.last() == NEWLINE {
                assert(r2.push(0nat) =~= join(la, s2.push(0nat)));
            }
        } else {
            assert(r2 =~= join(la, s2));
            if b.last() == NEWLINE {
                assert(r2.push(0nat) =~= join(la, s2.push(0nat)));
            }
        }
    }
}

/// `line_at` over a concatenation descends into the part that holds `off`.
pub proof fn lemma_line_at_concat(x: Seq<nat>, y: Seq<nat>, off: int)
    requires
        0 <= off,
        y.len() >= 1 || off < sum(x),
    ensures
        off < sum(x) ==> line_at(x + y, off) == line_at(x, off),
        off >= sum(x) ==> line_at(x + y, off) == (
            line_at(y, off - sum(x)).0 + x.len(),
            line_at(y, off - sum(x)).1,
        ),
    decreases x.len(),
{
    if x.len() == 0 {
        assert(x + y =~= y);
    } else if y.len() == 0 {
        assert(x + y =~= x);
    } else {
        lemma_sum_first(x);
        let xy = x + y;
        if x.len() == 1 {
            assert(xy.drop_first() =~= y);
            assert(x.drop_first().len() == 0);
        } else {
            assert(xy.drop_first() =~= x.drop_first() + y);
            if off >= x[0] {
                lemma_line_at_concat(x.drop_first(), y, off - x[0]);
            }
        }
    }
}

/// `line_at` finds the seam of a join when `off` is the length of the left part.
pub proof fn lemma_line_at_join(a: Seq<nat>, b: Seq<nat>, off: int)
    requires
        a.len() >= 1,
        b.len() >= 1,
        b.len() == 1 || b[0] >= 1,
        off == sum(a),
    ensures
        line_at(join(a, b), off) == (a.len() - 1, a.last() as int),
    decreases a.len(),
{
    lemma_sum_first(a);
    let j = join(a, b);
    if a.len() > 1 {
        assert(j.drop_first() =~= join(a.drop_first(), b));
        lemma_line_at_join(a.drop_first(), b, off - a[0]);
    } else {
        assert(a.drop_first().len() == 0);
    }
}

/// What `line_at` returns: a line index in range and an offset within it.
pub proof fn lemma_line_at_bounds(l: Seq<nat>, off: int)
    requires
        l.len() >= 1,
        0 <= off <= sum(l),
    ensures
        0 <= line_at(l, off).0 < l.len(),
        line_start(l, line_at(l, off).0) + line_at(l, off).1 == off,
        0 <= line_at(l, off).1 <= l[line_at(l, off).0],
        off < sum(l) ==> line_at(l, off).1 < l[line_at(l, off).0],
    decreases l.len(),
{
    lemma_sum_first(l);
    let (t, p) = line_at(l, off);
    if l.len() <= 1 || off < l[0] {
        assert(l.take(0) =~= Seq::<nat>::empty());
        if l.len() == 1 {
            assert(l.drop_first().len() == 0);
        }
    } else {
        let d = l.drop_first();
        lemma_line_at_bounds(d, off - l[0]);
        let (t2, p2) = line_at(d, off - l[0]);
        lemma_sum_first(l.take(t2 + 1));
        assert(l.take(t2 + 1).drop_first() =~= d.take(t2));
    }
}

/// The lines of a text after an insertion, from the lines before it.
#[verifier::rlimit(40)]
pub proof fn lemma_insert_text(t: Seq<u8>, off: int, ins: Seq<u8>)
    requires
        0 <= off <= t.len(),
    ensures
        lines_of(t.take(off) + ins + t.skip(off)) == insert_lines(lines_of(t), off, lines_of(ins)),
{
    let pre = t.take(off);
    let post = t.skip(off);
    assert(pre + post =~= t);
    lemma_lines_concat(pre, post);
    lemma_lines_concat(pre, ins);
    lemma_lines_concat(pre + ins, post);
    lemma_lines_len(pre);
    lemma_lines_len(post);
    lemma_lines_len(ins);
    lemma_lines_sum(pre);
    if post.len() > 0 {
        lemma_first_line_pos(post);
    }
    let a = lines_of(pre);
    let b = lines_of(post);
    let n = lines_of(ins);
    lemma_line_at_join(a, b, off);
    let l = lines_of(t);
    assert(l.take(a.len() - 1) =~= a.drop_last());
    assert(l.skip(a.len() as int) =~= b.drop_first());
    assert(join(join(a, n), b) =~= a.drop_last() + join(
        join(seq![a.last()], n),
        seq![b[0]],
    ) + b.drop_first());
}

/// Where the cut at `off` falls in the lines of `t`: the lines of the text
/// before it, glued to the lines of the text after it.
pub proof fn lemma_cut_point(t: Seq<u8>, off: int)
    requires
        0 <= off <= t.len(),
    ensures
        lines_of(t) == join(lines_of(t.take(off)), lines_of(t.skip(off))),
        line_at(lines_of(t), off) == (lines_of(t.take(off)).len() - 1, lines_of(t.take(off)).last() as int),
        lines_of(t.take(off)).len() >= 1,
        lines_of(t.skip(off)).len() >= 1,
{
    let pre = t.take(off);
    let post = t.skip(off);
    assert(pre + post =~= t);
    lemma_lines_concat(pre, post);
    lemma_lines_len(pre);
    lemma_lines_len(post);
    lemma_lines_sum(pre);
    if post.len() > 0 {
        lemma_first_line_pos(post);
    }
    lemma_line_at_join(lines_of(pre), lines_of(post), off);
}

/// The lines of a text after a removal, from the lines before it.
#[verifier::rlimit(40)]
pub proof fn lemma_remove_text(t: Seq<u8>, off: int, len: int)
    requires
        0 <= off,
        0 <= len,
        off + len <= t.len(),
    ensures
        lines_of(t.take(off) + t.skip(off + len)) == remove_lines(lines_of(t), off, len),
{
    let pre = t.take(off);
    let post = t.skip(off + len);
    lemma_cut_point(t, off);
    lemma_cut_point(t, off + len);
    lemma_lines_concat(pre, post);
    lemma_lines_len(post);
    let a = lines_of(pre);
    let c = lines_of(t.take(off + len));
    let b = lines_of(post);
    let l = lines_of(t);
    assert(l.take(a.len() - 1) =~= a.drop_last());
    assert(l.skip(c.len() as int) =~= b.drop_first());
    assert(l[c.len() - 1] == c.last() + b[0]);
    assert(join(a, b) =~= a.drop_last() + seq![(a.last() + b[0]) as nat] + b.drop_first());
}

/// `x` clamped into `[0, l.len()]`.
pub open spec fn clamp(l: Seq<nat>, x: int) -> int {
    if x < 0 {
        0
    } else if x > l.len() {
        l.len() as int
    } else {
        x
    }
}

/// `l` without the entries at indices `s..=e` (those that exist).
pub open spec fn remove_range(l: Seq<nat>, s: int, e: int) -> Seq<nat> {
    if s > e {
        l
    } else {
        l.take(clamp(l, s)) + l.skip(clamp(l, e + 1))
    }
}

/// Removing a range from a concatenation removes it from each part.
pub proof fn lemma_remove_range_concat(x: Seq<nat>, y: Seq<nat>, s: int, e: int)
    ensures
        remove_range(x + y, s, e) == remove_range(x, s, e) + remove_range(y, s - x.len(), e - x.len()),
{
    let n = x.len() as int;
    let xy = x + y;
    if s <= e {
        let cs = clamp(xy, s);
        let ce = clamp(xy, e + 1);
        if ce <= n {
            assert(y.take(0) + y.skip(0) =~= y);
            assert(xy.take(cs) =~= x.take(cs));
            assert(xy.skip(ce) =~= x.skip(ce) + y);
            assert(remove_range(xy, s, e) =~= remove_range(x, s, e) + remove_range(y, s - n, e - n));
        } else if cs >= n {
            assert(x.take(n) + x.skip(n) =~= x);
            assert(xy.take(cs) =~= x + y.take(cs - n));
            assert(xy.skip(ce) =~= y.skip(ce - n));
            assert(remove_range(xy, s, e) =~= remove_range(x, s, e) + remove_range(y, s - n, e - n));
        } else {
            assert(xy.take(cs) =~= x.take(cs));
            assert(xy.skip(ce) =~= y.skip(ce - n));
            assert(x.skip(n) =~= Seq::<nat>::empty());
            assert(y.take(0) =~= Seq::<nat>::empty());
            assert(remove_range(xy, s, e) =~= remove_range(x, s, e) + remove_range(y, s - n, e - n));
        }
    }
}


/// A text without newlines is one line.
pub proof fn lemma_lines_no_newline(s: Seq<u8>)
    requires
        forall|j: int| 0 <= j < s.len() ==> s[j] != NEWLINE,
    ensures
        lines_of(s) == seq![s.len()],
    decreases s.len(),
{
    if s.len() > 0 {
        lemma_lines_no_newline(s.drop_last());
        assert(lines_of(s) =~= seq![s.len()]);
    }
}

/// A text whose only newline is its last byte is one line and an empty one.
pub proof fn lemma_lines_one_newline(s: Seq<u8>)
    requires
        s.len() >= 1,
        s.last() == NEWLINE,
        forall|j: int| 0 <= j < s.len() - 1 ==> s[j] != NEWLINE,
    ensures
        lines_of(s) == seq![s.len(), 0nat],
{
    lemma_lines_no_newline(s.drop_last());
    assert(lines_of(s) =~= seq![s.len(), 0nat]);
}

pub proof fn lemma_sum_join(a: Seq<nat>, b: Seq<nat>)
    requires
        a.len() >= 1,
        b.len() >= 1,
    ensures
        sum(join(a, b)) == sum(a) + sum(b),
        join(a, b).len() == a.len() + b.len() - 1,
{
    lemma_sum_concat(a.drop_last() + seq![a.last() + b[0]], b.drop_first());
    lemma_sum_concat(a.drop_last(), seq![a.last() + b[0]]);
    lemma_sum_single(a.last() + b[0]);
    lemma_sum_first(b);
    assert(a =~= a.drop_last() + seq![a.last()]);
    lemma_sum_concat(a.drop_last(), seq![a.last()]);
    lemma_sum_single(a.last());
}

pub proof fn lemma_sum_single(v: nat)
    ensures
        sum(seq![v]) == v,
{
    let s = seq![v];
    assert(s.drop_last() =~= Seq::<nat>::empty());
    assert(sum(Seq::<nat>::empty()) == 0);
}

/// Size of the line sequence after an insertion.
pub proof fn lemma_insert_lines_size(l: Seq<nat>, off: int, n: Seq<nat>)
    requires
        l.len() >= 1,
        n.len() >= 1,
        0 <= off <= sum(l),
    ensures
        sum(insert_lines(l, off, n)) == sum(l) + sum(n),
        insert_lines(l, off, n).len() == l.len() + n.len() - 1,
{
    lemma_line_at_bounds(l, off);
    let (t, p) = line_at(l, off);
    let j1 = join(seq![p as nat], n);
    lemma_sum_join(seq![p as nat], n);
    lemma_sum_single(p as nat);
    lemma_sum_join(j1, seq![(l[t] - p) as nat]);
    lemma_sum_single((l[t] - p) as nat);
    let mid = join(j1, seq![(l[t] - p) as nat]);
    lemma_sum_concat(l.take(t) + mid, l.skip(t + 1));
    lemma_sum_concat(l.take(t), mid);
    assert(l =~= l.take(t) + seq![l[t]] + l.skip(t + 1));
    lemma_sum_concat(l.take(t) + seq![l[t]], l.skip(t + 1));
    lemma_sum_concat(l.take(t), seq![l[t]]);
    lemma_sum_single(l[t]);
}

/// An insertion into a concatenation happens inside the part that holds
/// the offset.
pub proof fn lemma_insert_lines_concat(x: Seq<nat>, c: Seq<nat>, y: Seq<nat>, off: int, n: Seq<nat>)
    requires
        c.len() >= 1,
        0 <= off <= sum(c),
        off < sum(c) || y.len() == 0,
    ensures
        insert_lines(x + c + y, sum(x) + off, n) == x + insert_lines(c, off, n) + y,
{
    let whole = x + c + y;
    assert(whole =~= x + (c + y));
    lemma_line_at_concat(x, c + y, sum(x) + off);
    if y.len() == 0 {
        assert(c + y =~= c);
    } else {
        lemma_line_at_concat(c, y, off);
    }
    lemma_line_at_bounds(c, off);
    let (t, p) = line_at(c, off);
    assert(line_at(whole, sum(x) + off) == (t + x.len(), p));
    assert(whole[t + x.len()] == c[t]);
    assert(whole.take(t + x.len()) =~= x + c.take(t));
    assert(whole.skip(t + x.len() + 1) =~= c.skip(t + 1) + y);
    assert(insert_lines(whole, sum(x) + off, n) =~= x + insert_lines(c, off, n) + y);
}


/// At the very end, `line_at` names the last line and its full length.
pub proof fn lemma_line_at_end(l: Seq<nat>)
    requires
        l.len() >= 1,
    ensures
        line_at(l, sum(l) as int) == (l.len() - 1, l.last() as int),
    decreases l.len(),
{
    lemma_sum_first(l);
    if l.len() > 1 {
        lemma_line_at_end(l.drop_first());
    }
}

/// `line_at` does not go back as the offset grows.
pub proof fn lemma_line_at_monotone(l: Seq<nat>, a: int, b: int)
    requires
        a <= b,
    ensures
        0 <= line_at(l, a).0 <= line_at(l, b).0,
    decreases l.len(),
{
    if l.len() > 1 && a >= l[0] {
        lemma_line_at_monotone(l.drop_first(), a - l[0], b - l[0]);
    } else {
        lemma_line_at_nonneg(l, b);
    }
}

pub proof fn lemma_line_at_nonneg(l: Seq<nat>, a: int)
    ensures
        0 <= line_at(l, a).0,
    decreases l.len(),
{
    if l.len() > 1 && a >= l[0] {
        lemma_line_at_nonneg(l.drop_first(), a - l[0]);
    }
}


/// A byte strictly inside line `row` is found in that line.
pub proof fn lemma_line_at_within(l: Seq<nat>, row: int, s: int)
    requires
        0 <= row < l.len(),
        line_start(l, row) <= s < line_start(l, row) + l[row],
    ensures
        line_at(l, s) == (row, s - line_start(l, row)),
    decreases row,
{
    lemma_sum_first(l);
    if row == 0 {
        assert(l.take(0) =~= Seq::<nat>::empty());
    } else {
        let d = l.drop_first();
        lemma_sum_first(l.take(row));
        assert(l.take(row).drop_first() =~= d.take(row - 1));
        lemma_line_at_within(d, row - 1, s - l[0]);
    }
}

/// A byte at or past the end of line `row`, which is not the last line,
/// is found in a later line.
pub proof fn lemma_line_at_after(l: Seq<nat>, row: int, s: int)
    requires
        0 <= row < l.len() - 1,
        line_start(l, row) + l[row] <= s,
    ensures
        line_at(l, s).0 > row,
    decreases row,
{
    lemma_sum_first(l);
    if row == 0 {
        assert(l.take(0) =~= Seq::<nat>::empty());
        lemma_line_at_nonneg(l.drop_first(), s - l[0]);
    } else {
        let d = l.drop_first();
        lemma_sum_first(l.take(row));
        assert(l.take(row).drop_first() =~= d.take(row - 1));
        lemma_line_at_after(d, row - 1, s - l[0]);
    }
}

/// A `(row, col)` that names byte `s` still names it after bytes from `s`
/// on are removed.
pub proof fn lemma_offset_survives_remove(l: Seq<nat>, row: int, col: int, s: int, len: int)
    requires
        0 <= row < l.len(),
        0 <= col <= l[row],
        s == line_start(l, row) + col,
        0 <= len,
        s + len <= sum(l),
    ensures
        row < remove_lines(l, s, len).len(),
        col <= remove_lines(l, s, len)[row],
        line_start(remove_lines(l, s, len), row) == s - col,
{
    lemma_line_at_bounds(l, s);
    lemma_line_at_bounds(l, s + len);
    lemma_line_at_monotone(l, s, s + len);
    let (t, p) = line_at(l, s);
    let (e, q) = line_at(l, s + len);
    let r = remove_lines(l, s, len);
    if col < l[row] {
        lemma_line_at_within(l, row, s);
    } else if row < l.len() - 1 {
        lemma_line_at_after(l, row, s);
    } else {
        lemma_line_at_end(l);
        lemma_sum_take_le(l, row);
        assert(l.take(row + 1) =~= l);
        lemma_sum_take_step(l, row);
    }
    assert(r.take(row) =~= l.take(row));
}

} // verus!
