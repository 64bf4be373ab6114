//! Newline search over byte slices.
use crate::lines::{lemma_lines_concat, lemma_lines_no_newline, lemma_lines_one_newline, lines_of, NEWLINE, join};
use vstd::prelude::*;
use vstd::slice::slice_subrange;

verus! {

/// Relies on `memchr::memchr`: the index of the first occurrence of
/// `needle` in `haystack`, or `None` when it does not occur.
#[verifier::external_body]
fn first_index_of(needle: u8, haystack: &[u8]) -> (r: Option<usize>)
    ensures
        match r {
            Some(i) => i < haystack@.len() && haystack@[i as int] == needle && forall|j: int|
                0 <= j < i ==> haystack@[j] != needle,
            None => forall|j: int| 0 <= j < haystack@.len() ==> haystack@[j] != needle,
        },
{
    memchr::memchr(needle, haystack)
}

/// Index of the first newline in `bytes`, if any.
pub fn find_newline(bytes: &[u8]) -> (r: Option<usize>)
    ensures
        match r {
            Some(i) => i < bytes@.len() && bytes@[i as int] == NEWLINE && forall|j: int|
                0 <= j < i ==> bytes@[j] != NEWLINE,
            None => forall|j: int| 0 <= j < bytes@.len() ==> bytes@[j] != NEWLINE,
        },
{
    first_index_of(NEWLINE, bytes)
}

/// The line lengths of `bytes`: one entry per newline (counting it), then
/// the length of what follows the last newline.
#[verifier::rlimit(80)]
pub fn newline_lengths(bytes: &[u8]) -> (r: Vec<u64>)
    ensures
        r@.len() == lines_of(bytes@).len(),
        forall|i: int| 0 <= i < r@.len() ==> r@[i] as nat == #[trigger] lines_of(bytes@)[i],
{
    let n = bytes.len();
    let mut out: Vec<u64> = Vec::new();
    let mut start: usize = 0;
    proof {
        assert(bytes@.take(0) =~= Seq::<u8>::empty());
        assert(lines_of(Seq::<u8>::empty()) =~= seq![0nat]);
    }
    while start < n
        invariant
            n == bytes@.len(),
            start <= n,
            lines_of(bytes@.take(start as int)) =~= out@.map_values(|x: u64| x as nat) + seq![0nat],
        decreases n - start,
    {
        let rest = slice_subrange(bytes, start, n);
        let ghost pre = bytes@.take(start as int);
        let ghost outn = out@.map_values(|x: u64| x as nat);
        match first_index_of(NEWLINE, rest) {
            Some(i) => {
                let ghost piece = rest@.take(i + 1);
                proof {
                    lemma_lines_one_newline(piece);
                    assert(bytes@.take(start + i + 1) =~= pre + piece);
                    lemma_lines_concat(pre, piece);
                    assert(join(outn + seq![0nat], seq![(i + 1) as nat, 0nat]) =~= outn + seq![
                        (i + 1) as nat,
                    ] + seq![0nat]);
                }
                out.push((i + 1) as u64);
                proof {
                    assert(out@.map_values(|x: u64| x as nat) =~= outn + seq![(i + 1) as nat]);
                }
                start = start + i + 1;
            },
            None => {
                proof {
                    lemma_lines_no_newline(rest@);
                    assert(bytes@ =~= pre + rest@);
                    lemma_lines_concat(pre, rest@);
                    assert(join(outn + seq![0nat], seq![rest@.len()]) =~= outn + seq![rest@.len()]);
                }
                out.push((n - start) as u64);
                proof {
                    assert(out@.map_values(|x: u64| x as nat) =~= outn + seq![rest@.len()]);
                }
                return out;
            },
        }
    }
    proof {
        assert(bytes@.take(n as int) =~= bytes@);
    }
    out.push(0);
    proof {
        assert(out@.map_values(|x: u64| x as nat) =~= lines_of(bytes@));
    }
    out
}

} // verus!
