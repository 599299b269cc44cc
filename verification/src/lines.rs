//! Lines in byte strings.
//!
//! A line is a maximal run of bytes that ends with its terminator, the byte
//! `\n`; the last line of a byte string may lack the terminator. Nothing is
//! trimmed: a line keeps its terminator, and a carriage return before it.

use bstr::io::BufReadExt;
use vstd::prelude::*;

verus! {

/// The line terminator, `\n`.
pub const NEWLINE: u8 = 10;

/// The number of bytes of `s` up to and including the first `delim`, or the
/// length of `s` where no byte of it is `delim`.
pub open spec fn bytes_through(s: Seq<u8>, delim: u8) -> nat
    decreases s.len(),
{
    if s.len() == 0 {
        0
    } else if s[0] == delim {
        1
    } else {
        1 + bytes_through(s.drop_first(), delim)
    }
}

/// The lines of `s`, in order, each with its terminator: their concatenation
/// is `s`, and only the last one may lack the terminator.
pub open spec fn split_lines(s: Seq<u8>) -> Seq<Seq<u8>>
    decreases s.len(),
{
    if s.len() == 0 {
        Seq::empty()
    } else {
        proof {
            lemma_bytes_through(s, NEWLINE);
        }
        let n = bytes_through(s, NEWLINE) as int;
        seq![s.take(n)] + split_lines(s.skip(n))
    }
}

/// Whether `l` is a line as `split_lines` yields them: not empty, and with no
/// terminator before its last byte.
pub open spec fn is_line(l: Seq<u8>) -> bool {
    &&& l.len() > 0
    &&& forall|j: int| 0 <= j < l.len() - 1 ==> l[j] != NEWLINE
}

/// Whether `l` ends with the terminator.
pub open spec fn is_terminated(l: Seq<u8>) -> bool {
    l.len() > 0 && l.last() == NEWLINE
}

/// Whether `pos` is a place in `data` where a line begins or the data ends:
/// the start, the end, or just after a terminator.
pub open spec fn at_line_boundary(data: Seq<u8>, pos: int) -> bool {
    &&& 0 <= pos <= data.len()
    &&& (pos == 0 || pos == data.len() || data[pos - 1] == NEWLINE)
}

/// What `bytes_through` counts: everything before the last counted byte
/// differs from `delim`, and the count stops short of the end only on `delim`.
pub proof fn lemma_bytes_through(s: Seq<u8>, delim: u8)
    ensures
        bytes_through(s, delim) <= s.len(),
        s.len() > 0 ==> bytes_through(s, delim) > 0,
        forall|j: int| 0 <= j < bytes_through(s, delim) - 1 ==> s[j] != delim,
        bytes_through(s, delim) < s.len() ==> s[bytes_through(s, delim) - 1] == delim,
        s.contains(delim) ==> s[bytes_through(s, delim) - 1] == delim,
    decreases s.len(),
{
    if s.len() > 0 && s[0] != delim {
        let rest = s.drop_first();
        lemma_bytes_through(rest, delim);
        let n = bytes_through(rest, delim) as int;
        assert forall|j: int| 0 <= j < n + 1 - 1 implies s[j] != delim by {
            if j > 0 {
                assert(rest[j - 1] == s[j]);
            }
        }
        if n < rest.len() {
            assert(rest[n - 1] == s[n]);
        }
        if s.contains(delim) {
            let k = choose|k: int| 0 <= k < s.len() && s[k] == delim;
            assert(rest[k - 1] == delim);
            assert(rest.contains(delim));
            assert(rest[n - 1] == s[n]);
        }
    }
}

/// With the first `delim` of `s` at index `i`, the count is `i + 1`.
pub proof fn lemma_bytes_through_first(s: Seq<u8>, delim: u8, i: int)
    requires
        0 <= i < s.len(),
        s[i] == delim,
        forall|j: int| 0 <= j < i ==> s[j] != delim,
    ensures
        bytes_through(s, delim) == i + 1,
    decreases i,
{
    if i > 0 {
        let rest = s.drop_first();
        assert forall|j: int| 0 <= j < i - 1 implies rest[j] != delim by {
            assert(rest[j] == s[j + 1]);
        }
        lemma_bytes_through_first(rest, delim, i - 1);
    }
}

/// Where no byte of `s` is `delim`, the count is the length of `s`.
pub proof fn lemma_bytes_through_none(s: Seq<u8>, delim: u8)
    requires
        forall|j: int| 0 <= j < s.len() ==> s[j] != delim,
    ensures
        bytes_through(s, delim) == s.len(),
    decreases s.len(),
{
    if s.len() > 0 {
        let rest = s.drop_first();
        assert forall|j: int| 0 <= j < rest.len() implies rest[j] != delim by {
            assert(rest[j] == s[j + 1]);
        }
        lemma_bytes_through_none(rest, delim);
    }
}

/// What `split_lines` yields: lines, each but perhaps the last one
/// terminated, that put together are `s`.
pub proof fn lemma_split_lines(s: Seq<u8>)
    ensures
        split_lines(s).flatten() == s,
        s.len() > 0 ==> split_lines(s).len() > 0,
        forall|i: int| 0 <= i < split_lines(s).len() ==> is_line(#[trigger] split_lines(s)[i]),
        forall|i: int|
            0 <= i < split_lines(s).len() - 1 ==> is_terminated(#[trigger] split_lines(s)[i]),
    decreases s.len(),
{
    if s.len() > 0 {
        lemma_bytes_through(s, NEWLINE);
        let n = bytes_through(s, NEWLINE) as int;
        let first = s.take(n);
        let rest = split_lines(s.skip(n));
        let all = seq![first] + rest;
        lemma_split_lines(s.skip(n));
        assert(all.drop_first() =~= rest);
        assert(all.flatten() =~= s);
        assert(is_line(first));
        assert forall|i: int| 0 <= i < all.len() implies is_line(#[trigger] all[i]) by {
            if i > 0 {
                assert(all[i] == rest[i - 1]);
            }
        }
        assert forall|i: int| 0 <= i < all.len() - 1 implies is_terminated(#[trigger] all[i]) by {
            if i > 0 {
                assert(all[i] == rest[i - 1]);
            } else {
                assert(s.skip(n).len() > 0);
            }
        }
    }
}

/// Counting goes on from one buffer to the next: through a byte string
/// followed by another, the count is that through the first where the first
/// holds `delim`, and else all of the first and the count through the other.
pub proof fn lemma_bytes_through_add(a: Seq<u8>, b: Seq<u8>, delim: u8)
    ensures
        bytes_through(a + b, delim) == if a.contains(delim) {
            bytes_through(a, delim)
        } else {
            a.len() + bytes_through(b, delim)
        },
    decreases a.len(),
{
    if a.len() == 0 {
        assert(a + b =~= b);
    } else {
        assert((a + b)[0] == a[0]);
        if a[0] != delim {
            let rest = a.drop_first();
            assert((a + b).drop_first() =~= rest + b);
            lemma_bytes_through_add(rest, b, delim);
            if a.contains(delim) {
                let k = choose|k: int| 0 <= k < a.len() && a[k] == delim;
                assert(rest[k - 1] == delim);
            }
            if rest.contains(delim) {
                let k = choose|k: int| 0 <= k < rest.len() && rest[k] == delim;
                assert(a[k + 1] == delim);
            }
        }
    }
}

/// After whole lines, lines go on as if from a start: the lines of a byte
/// string that is empty or ends with the terminator, followed by another,
/// are the lines of the one followed by the lines of the other.
pub proof fn lemma_split_lines_add(a: Seq<u8>, b: Seq<u8>)
    requires
        a.len() == 0 || is_terminated(a),
    ensures
        split_lines(a + b) == split_lines(a) + split_lines(b),
    decreases a.len(),
{
    if a.len() == 0 {
        assert(a + b =~= b);
        assert(split_lines(a) + split_lines(b) =~= split_lines(b));
    } else {
        assert(a[a.len() - 1] == NEWLINE);
        lemma_bytes_through(a, NEWLINE);
        lemma_bytes_through_add(a, b, NEWLINE);
        let n = bytes_through(a, NEWLINE) as int;
        assert((a + b).take(n) =~= a.take(n));
        assert((a + b).skip(n) =~= a.skip(n) + b);
        if n < a.len() {
            assert(a.skip(n).last() == a.last());
        }
        lemma_split_lines_add(a.skip(n), b);
        assert(split_lines(a + b) =~= split_lines(a) + split_lines(b));
    }
}

/// `memchr::memchr`: the index of the first byte of `haystack` equal to
/// `needle`, or `None` where there is no such byte.
pub assume_specification[ memchr::memchr ](needle: u8, haystack: &[u8]) -> (found: Option<usize>)
    ensures
        match found {
            Some(i) => {
                &&& i < haystack@.len()
                &&& haystack@[i as int] == needle
                &&& forall|j: int| 0 <= j < i ==> haystack@[j] != needle
            },
            None => forall|j: int| 0 <= j < haystack@.len() ==> haystack@[j] != needle,
        },
;

/// Looks for `delim` in `available`, the bytes a reader has at hand.
///
/// Returns whether `delim` was found, and how many bytes the reader is to
/// consume: those through the first `delim`, or all of them.
pub fn scan(delim: u8, available: &[u8]) -> (r: (bool, usize))
    ensures
        r.0 <==> available@.contains(delim),
        r.1 == bytes_through(available@, delim),
{
    let len: usize = available.len();
    match memchr::memchr(delim, available) {
        Some(i) => {
            proof {
                lemma_bytes_through_first(available@, delim, i as int);
            }
            (true, i + 1)
        },
        None => {
            proof {
                lemma_bytes_through_none(available@, delim);
            }
            (false, len)
        },
    }
}

/// The number of bytes of `data` up to and including the first `delim`, or
/// the length of `data` where it holds no `delim`.
pub fn read_until(delim: u8, data: &[u8]) -> (read: usize)
    ensures
        read == bytes_through(data@, delim),
{
    let (_, used) = scan(delim, data);
    used
}

/// What a vector of byte vectors holds: the byte strings, in order.
pub open spec fn byte_seqs(v: Seq<Vec<u8>>) -> Seq<Seq<u8>> {
    v.map_values(|b: Vec<u8>| b@)
}

/// Appends a copy of `line` to `lines`, and asks for the line after it.
fn keep_line(lines: &mut Vec<Vec<u8>>, line: &[u8]) -> (more: bool)
    ensures
        more,
        byte_seqs(final(lines)@) == byte_seqs(old(lines)@).push(line@),
{
    let copy: Vec<u8> = vstd::slice::slice_to_vec(line);
    lines.push(copy);
    assert(byte_seqs(lines@) =~= byte_seqs(old(lines)@).push(line@));
    true
}

/// `bstr::io::BufReadExt::for_byte_line_with_terminator`, with `data` itself
/// as the reader: the lines of `data` in order, each with its terminator where
/// it has one. Reading from memory does not fail.
#[verifier::external_body]
pub(crate) fn byte_lines(data: &[u8]) -> (lines: Vec<Vec<u8>>)
    ensures
        byte_seqs(lines@) == split_lines(data@),
{
    let mut reader: &[u8] = data;
    let mut lines: Vec<Vec<u8>> = Vec::new();
    let _ = reader.for_byte_line_with_terminator(|line| Ok(keep_line(&mut lines, line)));
    lines
}

} // verus!
