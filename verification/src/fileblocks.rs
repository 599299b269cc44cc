//! Cutting files into chunks of whole lines.
//!
//! A file is a byte string. A chunk is a byte range of one file that begins
//! where a line begins and ends where a line ends, so that chunks can be
//! handed to independent readers.

use crate::lines::{
    at_line_boundary, byte_lines, byte_seqs, bytes_through, lemma_bytes_through,
    lemma_split_lines_add, read_until, split_lines, NEWLINE,
};
use std::path::PathBuf;
use vstd::prelude::*;

verus! {

/// `std::path::PathBuf`, which the library carries along and never looks into.
#[verifier::external_type_specification]
#[verifier::external_body]
pub struct ExPathBuf(PathBuf);

/// `PathBuf::clone`: the copy is the same path.
pub assume_specification[ <PathBuf as Clone>::clone ](path: &PathBuf) -> (copy: PathBuf)
    ensures
        copy == *path,
;

/// A byte range `start..stop` of the file at `path`, with `start <= stop`.
#[derive(Debug)]
pub struct FileChunk {
    path: PathBuf,
    start: usize,
    stop: usize,
}

impl View for FileChunk {
    type V = (PathBuf, nat, nat);

    /// The chunk as the triple of its path, start and stop.
    closed spec fn view(&self) -> (PathBuf, nat, nat) {
        (self.path, self.start as nat, self.stop as nat)
    }
}

/// Where the lines that begin at `cur` in `data` first reach `stop`: `cur`
/// itself once it is at `stop`, beyond it, or at the end of `data`, and
/// otherwise where the lines after the line at `cur` do.
pub open spec fn lines_reach(data: Seq<u8>, cur: int, stop: int) -> int
    decreases data.len() - cur,
{
    if cur < 0 || cur >= stop || cur >= data.len() {
        cur
    } else {
        proof {
            lemma_bytes_through(data.skip(cur), NEWLINE);
        }
        lines_reach(data, cur + bytes_through(data.skip(cur), NEWLINE), stop)
    }
}

/// Whole lines from `cur` on reach a line boundary `stop` exactly.
pub proof fn lemma_lines_reach_boundary(data: Seq<u8>, cur: int, stop: int)
    requires
        0 <= cur <= stop,
        at_line_boundary(data, stop),
    ensures
        lines_reach(data, cur, stop) == stop,
    decreases data.len() - cur,
{
    if cur < stop {
        let rest = data.skip(cur);
        let n = bytes_through(rest, NEWLINE) as int;
        lemma_bytes_through(rest, NEWLINE);
        if stop < data.len() && cur + n > stop {
            assert(rest[stop - 1 - cur] == data[stop - 1]);
        }
        lemma_lines_reach_boundary(data, cur + n, stop);
    }
}

impl FileChunk {
    #[verifier::type_invariant]
    spec fn well_formed(self) -> bool {
        self.start <= self.stop
    }

    /// The path of the file that the chunk is a range of.
    pub fn path(&self) -> (path: &PathBuf)
        ensures
            *path == self@.0,
    {
        &self.path
    }

    /// The offset of the chunk's first byte.
    pub fn start(&self) -> (start: usize)
        ensures
            start == self@.1,
            start <= self@.2,
    {
        proof {
            use_type_invariant(self);
        }
        self.start
    }

    /// The offset just past the chunk's last byte.
    pub fn stop(&self) -> (stop: usize)
        ensures
            stop == self@.2,
            self@.1 <= stop,
    {
        proof {
            use_type_invariant(self);
        }
        self.stop
    }

    /// Return the number of bytes to read for this chunk.
    pub fn nbytes(&self) -> (n: usize)
        ensures
            n == self@.2 - self@.1,
    {
        proof {
            use_type_invariant(self);
        }
        self.stop - self.start
    }

    /// The lines of `data`, the file's bytes, that the chunk refers to: whole
    /// lines from `start` on, until they reach `stop` or the end of `data`.
    /// For a chunk that ends at a line boundary of `data` these are the bytes
    /// `start..stop`.
    pub fn dump(&self, data: &[u8]) -> (out: Vec<u8>)
        ensures
            self@.1 <= data@.len() ==> out@ == data@.subrange(
                self@.1 as int,
                lines_reach(data@, self@.1 as int, self@.2 as int),
            ),
            self@.1 > data@.len() ==> out@.len() == 0,
            at_line_boundary(data@, self@.2 as int) ==> out@ == data@.subrange(
                self@.1 as int,
                self@.2 as int,
            ),
    {
        proof {
            use_type_invariant(self);
        }
        let mut out: Vec<u8> = Vec::new();
        let len: usize = data.len();
        if self.start > len {
            return out;
        }
        let lines = byte_lines(vstd::slice::slice_subrange(data, self.start, len));
        let mut current: usize = self.start;
        let mut i: usize = 0;
        assert(data@.subrange(self.start as int, len as int) == data@.skip(self.start as int));
        while i < lines.len() && current < self.stop
            invariant
                len == data@.len(),
                self.start <= current <= len,
                i <= lines.len(),
                byte_seqs(lines@).skip(i as int) == split_lines(
                    data@.skip(current as int),
                ),
                out@ == data@.subrange(self.start as int, current as int),
                lines_reach(data@, self.start as int, self.stop as int) == lines_reach(
                    data@,
                    current as int,
                    self.stop as int,
                ),
            decreases lines.len() - i,
        {
            let line = &lines[i];
            proof {
                let rest = data@.skip(current as int);
                let n = bytes_through(rest, NEWLINE) as int;
                lemma_bytes_through(rest, NEWLINE);
                let tail = byte_seqs(lines@).skip(i as int);
                assert(tail[0] == byte_seqs(lines@)[i as int]);
                assert(rest.len() > 0) by {
                    if rest.len() == 0 {
                        assert(tail.len() == 0);
                    }
                }
                assert(tail[0] == rest.take(n));
                assert(line@ =~= rest.take(n));
                assert(tail.skip(1) == split_lines(rest.skip(n)));
                assert(byte_seqs(lines@).skip(i as int + 1) =~= tail.skip(1));
                assert(rest.skip(n) =~= data@.skip(current as int + n));
                assert(data@.subrange(self.start as int, current as int + n) =~= data@.subrange(
                    self.start as int,
                    current as int,
                ) + rest.take(n));
            }
            out.extend_from_slice(line.as_slice());
            current = current + line.len();
            i = i + 1;
        }
        proof {
            if i == lines.len() {
                let rest = data@.skip(current as int);
                assert(byte_seqs(lines@).skip(i as int).len() == 0);
                assert(rest.len() == 0) by {
                    if rest.len() > 0 {
                        lemma_bytes_through(rest, NEWLINE);
                    }
                }
            }
            if at_line_boundary(data@, self.stop as int) {
                lemma_lines_reach_boundary(data@, self.start as int, self.stop as int);
            }
        }
        out
    }
}

/// Why a file list cannot be cut into chunks.
#[derive(Debug, Clone, Copy, PartialEq, Eq, Structural)]
pub enum ChunkError {
    /// The parameters make no sense: no chunk was allowed, or no file given.
    InvariantViolation,
}

/// Into how many pieces a file of `size` bytes is to be cut: as many as
/// `max_chunks` allows while each piece can still have `min_size` bytes, and
/// one at least.
pub open spec fn target_pieces(size: nat, max_chunks: nat, min_size: nat) -> nat
    recommends
        min_size > 0,
{
    let by_size = size / min_size;
    let wanted = if max_chunks < by_size {
        max_chunks
    } else {
        by_size
    };
    if wanted < 1 {
        1
    } else {
        wanted
    }
}

/// Where piece `i` of `pieces` equal pieces of `size` bytes would end.
pub open spec fn tentative_stop(size: nat, pieces: nat, i: nat) -> nat {
    size * (i + 1) / pieces
}

/// The offset just past the first terminator of `data` at or after `pos`, or
/// the length of `data` where there is none.
pub open spec fn line_end(data: Seq<u8>, pos: int) -> int {
    pos + bytes_through(data.skip(pos), NEWLINE)
}

/// The ranges cut from `data` by pieces `i..pieces`, when the ranges cut
/// before end at `cursor`. A piece whose tentative stop the cursor has already
/// reached cuts nothing; any other cuts the range from the cursor to the end
/// of the line at its tentative stop.
pub open spec fn split_from(data: Seq<u8>, pieces: nat, i: nat, cursor: nat) -> Seq<(nat, nat)>
    decreases pieces - i,
{
    if i >= pieces {
        Seq::empty()
    } else {
        let tentative = tentative_stop(data.len(), pieces, i);
        if cursor >= tentative {
            split_from(data, pieces, i + 1, cursor)
        } else {
            let stop = line_end(data, tentative as int) as nat;
            seq![(cursor, stop)] + split_from(data, pieces, i + 1, stop)
        }
    }
}

/// The ranges that `data` is cut into for a target of `pieces` pieces.
pub open spec fn split_ranges(data: Seq<u8>, pieces: nat) -> Seq<(nat, nat)> {
    split_from(data, pieces, 0, 0)
}

/// Whether `ranges` are non-empty, each begins where the one before it ends,
/// the first begins at `from` and the last ends at `to`; with no range at all,
/// whether `from` is `to`.
pub open spec fn tiles(ranges: Seq<(nat, nat)>, from: nat, to: nat) -> bool {
    &&& forall|i: int| 0 <= i < ranges.len() ==> (#[trigger] ranges[i]).0 < ranges[i].1
    &&& forall|i: int, j: int|
        0 <= i && j == i + 1 && j < ranges.len() ==> (#[trigger] ranges[i]).1 == (
        #[trigger] ranges[j]).0
    &&& ranges.len() > 0 ==> ranges[0].0 == from && ranges.last().1 == to
    &&& ranges.len() == 0 ==> from == to
}

/// Whether every one of `ranges` begins and ends at a line boundary of `data`.
pub open spec fn line_coherent(data: Seq<u8>, ranges: Seq<(nat, nat)>) -> bool {
    forall|i: int|
        0 <= i < ranges.len() ==> at_line_boundary(data, (#[trigger] ranges[i]).0 as int)
            && at_line_boundary(data, ranges[i].1 as int)
}

/// The bytes of `data` in `ranges`, one range after the other.
pub open spec fn chunk_bytes(data: Seq<u8>, ranges: Seq<(nat, nat)>) -> Seq<u8>
    decreases ranges.len(),
{
    if ranges.len() == 0 {
        Seq::empty()
    } else {
        chunk_bytes(data, ranges.drop_last()) + data.subrange(
            ranges.last().0 as int,
            ranges.last().1 as int,
        )
    }
}

/// `ranges` as chunks of the file at `path`.
pub open spec fn with_path(path: PathBuf, ranges: Seq<(nat, nat)>) -> Seq<(PathBuf, nat, nat)> {
    ranges.map_values(|r: (nat, nat)| (path, r.0, r.1))
}

/// The views of `chunks`.
pub open spec fn chunk_views(chunks: Seq<FileChunk>) -> Seq<(PathBuf, nat, nat)> {
    chunks.map_values(|c: FileChunk| c@)
}

/// The first piece from `i` on whose tentative stop lies beyond `cursor`, or
/// `pieces` where there is none.
pub open spec fn next_piece(size: nat, pieces: nat, i: nat, cursor: nat) -> nat
    decreases pieces - i,
{
    if i >= pieces {
        pieces
    } else if tentative_stop(size, pieces, i) > cursor {
        i
    } else {
        next_piece(size, pieces, i + 1, cursor)
    }
}

proof fn lemma_tentative_stop(size: nat, pieces: nat, i: nat)
    requires
        i < pieces,
    ensures
        tentative_stop(size, pieces, i) <= size,
        i + 1 == pieces ==> tentative_stop(size, pieces, i) == size,
{
    assert(size * (i + 1) / pieces <= size) by (nonlinear_arith)
        requires
            i < pieces,
    ;
    assert(i + 1 == pieces ==> size * (i + 1) / pieces == size) by (nonlinear_arith)
        requires
            i < pieces,
    ;
}

/// The end of the line at `pos` is a line boundary at or after `pos`, and
/// beyond `pos` unless `pos` is the end of `data`.
pub proof fn lemma_line_end(data: Seq<u8>, pos: int)
    requires
        0 <= pos <= data.len(),
    ensures
        pos <= line_end(data, pos) <= data.len(),
        pos < data.len() ==> pos < line_end(data, pos),
        at_line_boundary(data, line_end(data, pos)),
{
    let rest = data.skip(pos);
    lemma_bytes_through(rest, NEWLINE);
    let n = bytes_through(rest, NEWLINE) as int;
    if 0 < n < rest.len() {
        assert(rest[n - 1] == data[pos + n - 1]);
    }
}

/// From any line boundary on, the pieces that are left cut `data` up to its
/// end into non-empty ranges of whole lines, one for each piece at most.
pub proof fn lemma_split_from(data: Seq<u8>, pieces: nat, i: nat, cursor: nat)
    requires
        1 <= pieces,
        i <= pieces,
        at_line_boundary(data, cursor as int),
        i > 0 ==> cursor >= tentative_stop(data.len(), pieces, (i - 1) as nat),
    ensures
        tiles(split_from(data, pieces, i, cursor), cursor, data.len()),
        line_coherent(data, split_from(data, pieces, i, cursor)),
        split_from(data, pieces, i, cursor).len() <= pieces - i,
    decreases pieces - i,
{
    if i >= pieces {
        lemma_tentative_stop(data.len(), pieces, (i - 1) as nat);
    } else {
        let tentative = tentative_stop(data.len(), pieces, i);
        lemma_tentative_stop(data.len(), pieces, i);
        if cursor >= tentative {
            lemma_split_from(data, pieces, i + 1, cursor);
        } else {
            lemma_line_end(data, tentative as int);
            let stop = line_end(data, tentative as int) as nat;
            let rest = split_from(data, pieces, i + 1, stop);
            lemma_split_from(data, pieces, i + 1, stop);
            let all = seq![(cursor, stop)] + rest;
            assert forall|k: int| 0 <= k < all.len() implies (#[trigger] all[k]).0 < all[k].1
                && at_line_boundary(data, all[k].0 as int) && at_line_boundary(
                data,
                all[k].1 as int,
            ) by {
                if k > 0 {
                    assert(all[k] == rest[k - 1]);
                }
            }
            assert forall|k: int, j: int| 0 <= k && j == k + 1 && j < all.len() implies (
            #[trigger] all[k]).1 == (#[trigger] all[j]).0 by {
                assert(all[j] == rest[j - 1]);
                if k > 0 {
                    assert(all[k] == rest[k - 1]);
                }
            }
            if rest.len() > 0 {
                assert(all.last() == rest.last());
            }
        }
    }
}

/// Ranges that tile `from..to` tile, without the last of them, what lies
/// before it.
proof fn lemma_tiles_front(ranges: Seq<(nat, nat)>, from: nat, to: nat)
    requires
        tiles(ranges, from, to),
        ranges.len() > 0,
    ensures
        tiles(ranges.drop_last(), from, ranges.last().0),
{
    let front = ranges.drop_last();
    assert forall|i: int| 0 <= i < front.len() implies (#[trigger] front[i]).0 < front[i].1 by {
        assert(front[i] == ranges[i]);
    }
    assert forall|i: int, j: int| 0 <= i && j == i + 1 && j < front.len() implies (
    #[trigger] front[i]).1 == (#[trigger] front[j]).0 by {
        assert(front[i] == ranges[i]);
        assert(front[j] == ranges[j]);
    }
    if front.len() > 0 {
        assert(front[0] == ranges[0]);
        assert(front.last() == ranges[ranges.len() - 2]);
    }
}

/// Ranges that tile `from..to` hold, one after the other, the bytes
/// `from..to`.
pub proof fn lemma_tiles_bytes(data: Seq<u8>, ranges: Seq<(nat, nat)>, from: nat, to: nat)
    requires
        tiles(ranges, from, to),
        to <= data.len(),
    ensures
        from <= to,
        chunk_bytes(data, ranges) == data.subrange(from as int, to as int),
    decreases ranges.len(),
{
    if ranges.len() > 0 {
        let front = ranges.drop_last();
        let last = ranges.last();
        lemma_tiles_front(ranges, from, to);
        lemma_tiles_bytes(data, front, from, last.0);
        assert(data.subrange(from as int, last.0 as int) + data.subrange(
            last.0 as int,
            last.1 as int,
        ) =~= data.subrange(from as int, to as int));
    } else {
        assert(data.subrange(from as int, to as int) =~= Seq::<u8>::empty());
    }
}

/// The lines of the bytes in `ranges`, range after range.
pub open spec fn chunk_lines(data: Seq<u8>, ranges: Seq<(nat, nat)>) -> Seq<Seq<u8>>
    decreases ranges.len(),
{
    if ranges.len() == 0 {
        Seq::empty()
    } else {
        chunk_lines(data, ranges.drop_last()) + split_lines(
            data.subrange(ranges.last().0 as int, ranges.last().1 as int),
        )
    }
}

/// Ranges of whole lines that tile a file from its start hold, range after
/// range, the lines of what they cover: no line is cut in two.
pub proof fn lemma_tiles_lines(data: Seq<u8>, ranges: Seq<(nat, nat)>, to: nat)
    requires
        tiles(ranges, 0, to),
        line_coherent(data, ranges),
        to <= data.len(),
    ensures
        chunk_lines(data, ranges) == split_lines(data.subrange(0, to as int)),
    decreases ranges.len(),
{
    if ranges.len() == 0 {
        assert(data.subrange(0, 0) =~= Seq::<u8>::empty());
    } else {
        let front = ranges.drop_last();
        let last = ranges.last();
        lemma_tiles_front(ranges, 0, to);
        assert(line_coherent(data, front)) by {
            assert forall|i: int| 0 <= i < front.len() implies at_line_boundary(
                data,
                (#[trigger] front[i]).0 as int,
            ) && at_line_boundary(data, front[i].1 as int) by {
                assert(front[i] == ranges[i]);
            }
        }
        lemma_tiles_bytes(data, front, 0, last.0);
        lemma_tiles_lines(data, front, last.0);
        let before = data.subrange(0, last.0 as int);
        let these = data.subrange(last.0 as int, last.1 as int);
        assert(before + these =~= data.subrange(0, to as int));
        if before.len() > 0 {
            assert(before.last() == data[last.0 - 1]);
        }
        lemma_split_lines_add(before, these);
    }
}

/// The chunks of a file hold, chunk after chunk, the file's lines: a reader
/// of each chunk sees whole lines of the file, and the readers together see
/// every line once, in order.
pub proof fn lemma_chunks_hold_lines(data: Seq<u8>, pieces: nat)
    requires
        1 <= pieces,
    ensures
        chunk_lines(data, split_ranges(data, pieces)) == split_lines(data),
{
    lemma_split_from(data, pieces, 0, 0);
    lemma_tiles_lines(data, split_ranges(data, pieces), data.len());
    assert(data.subrange(0, data.len() as int) =~= data);
}

/// Coverage: the ranges that a file is cut into are non-empty, follow one
/// another from the file's start to its end, and hold, one after the other,
/// the file's bytes.
pub proof fn lemma_chunks_cover(data: Seq<u8>, pieces: nat)
    requires
        1 <= pieces,
    ensures
        tiles(split_ranges(data, pieces), 0, data.len()),
        chunk_bytes(data, split_ranges(data, pieces)) == data,
        split_ranges(data, pieces).len() <= pieces,
{
    lemma_split_from(data, pieces, 0, 0);
    lemma_tiles_bytes(data, split_ranges(data, pieces), 0, data.len());
    assert(data.subrange(0, data.len() as int) =~= data);
}

/// Line coherence: every range that a file is cut into begins at the file's
/// start or just after a terminator, and ends at the file's end or just after
/// a terminator.
pub proof fn lemma_chunks_line_coherent(data: Seq<u8>, pieces: nat)
    requires
        1 <= pieces,
    ensures
        line_coherent(data, split_ranges(data, pieces)),
{
    lemma_split_from(data, pieces, 0, 0);
}

/// What a `ChunkPlan` stands for.
pub struct PlanView {
    /// The path of the file being cut.
    pub path: PathBuf,
    /// The size of the file in bytes.
    pub size: nat,
    /// The number of pieces aimed at.
    pub pieces: nat,
    /// The piece to consider next.
    pub piece: nat,
    /// Where the chunks cut so far end.
    pub cursor: nat,
    /// The chunks cut so far.
    pub chunks: Seq<(PathBuf, nat, nat)>,
}

impl PlanView {
    /// The ranges of the chunks cut so far.
    pub open spec fn ranges(self) -> Seq<(nat, nat)> {
        self.chunks.map_values(|c: (PathBuf, nat, nat)| (c.1, c.2))
    }

    /// What holds of every plan: the chunks cut so far are chunks of the
    /// plan's file and tile it from its start up to the cursor, and the cursor
    /// has reached the tentative stop of every piece considered.
    pub open spec fn well_formed(self) -> bool {
        &&& 1 <= self.pieces
        &&& self.piece <= self.pieces
        &&& self.cursor <= self.size
        &&& self.piece > 0 ==> self.cursor >= tentative_stop(
            self.size,
            self.pieces,
            (self.piece - 1) as nat,
        )
        &&& self.chunks == with_path(self.path, self.ranges())
        &&& tiles(self.ranges(), 0, self.cursor)
        &&& self.chunks.len() <= self.piece
    }

    /// Whether a cut is due: there is a piece left, and its tentative stop
    /// lies beyond the cursor.
    pub open spec fn cut_due(self) -> bool {
        self.piece < self.pieces && self.cursor < tentative_stop(self.size, self.pieces, self.piece)
    }

    /// The plan after the pieces that cut nothing are passed over.
    pub open spec fn probed(self) -> PlanView {
        PlanView { piece: next_piece(self.size, self.pieces, self.piece, self.cursor), ..self }
    }

    /// Where the chunk ends that is cut `advance` bytes past the tentative
    /// stop of the next piece.
    pub open spec fn stop_after(self, advance: nat) -> nat {
        tentative_stop(self.size, self.pieces, self.piece) + advance
    }

    /// The plan after that chunk is cut.
    pub open spec fn cut(self, advance: nat) -> PlanView {
        PlanView {
            piece: self.piece + 1,
            cursor: self.stop_after(advance),
            chunks: self.chunks.push((self.path, self.cursor, self.stop_after(advance))),
            ..self
        }
    }

    /// Whether the plan is a plan for `data` that has cut `data` as far as it
    /// has come: the chunks cut so far, with those that are left to cut from
    /// `data`, are the chunks of `data`.
    pub open spec fn follows(self, data: Seq<u8>) -> bool {
        &&& self.size == data.len()
        &&& self.chunks + with_path(
            self.path,
            split_from(data, self.pieces, self.piece, self.cursor),
        ) == with_path(self.path, split_ranges(data, self.pieces))
    }
}

/// The cutting of one file, for a reader that cannot hold the file in memory.
///
/// The plan says where to look for the end of a line (`probe`), is told how
/// far from there the line ends (`cut`), and so on until `probe` has nothing
/// left to ask.
pub struct ChunkPlan {
    path: PathBuf,
    size: usize,
    pieces: usize,
    piece: usize,
    cursor: usize,
    chunks: Vec<FileChunk>,
}

impl View for ChunkPlan {
    type V = PlanView;

    closed spec fn view(&self) -> PlanView {
        PlanView {
            path: self.path,
            size: self.size as nat,
            pieces: self.pieces as nat,
            piece: self.piece as nat,
            cursor: self.cursor as nat,
            chunks: chunk_views(self.chunks@),
        }
    }
}

/// Where piece `i` of `pieces` equal pieces of `size` bytes would end.
fn tentative(size: usize, pieces: usize, i: usize) -> (stop: usize)
    requires
        i < pieces,
    ensures
        stop == tentative_stop(size as nat, pieces as nat, i as nat),
        stop <= size,
{
    proof {
        lemma_tentative_stop(size as nat, pieces as nat, i as nat);
        assert(size * (i + 1) <= usize::MAX * (usize::MAX + 1)) by (nonlinear_arith)
            requires
                size <= usize::MAX,
                i < usize::MAX,
        ;
    }
    let product: u128 = (size as u128) * (i as u128 + 1);
    (product / (pieces as u128)) as usize
}

impl ChunkPlan {
    /// A plan for cutting the file at `path`, of `size` bytes, into
    /// `max_chunks` chunks at most, and one at least, of `min_size` bytes or
    /// more on average where there are several. Nothing is cut yet.
    pub fn new(path: PathBuf, size: usize, max_chunks: usize, min_size: usize) -> (plan: Self)
        requires
            min_size > 0,
        ensures
            plan@ == (PlanView {
                path,
                size: size as nat,
                pieces: target_pieces(size as nat, max_chunks as nat, min_size as nat),
                piece: 0,
                cursor: 0,
                chunks: Seq::empty(),
            }),
            plan@.well_formed(),
    {
        let by_size: usize = size / min_size;
        let wanted: usize = if max_chunks < by_size {
            max_chunks
        } else {
            by_size
        };
        let pieces: usize = if wanted < 1 {
            1
        } else {
            wanted
        };
        let chunks: Vec<FileChunk> = Vec::new();
        proof {
            let views = chunk_views(chunks@);
            let ranges = views.map_values(|c: (PathBuf, nat, nat)| (c.1, c.2));
            assert(views =~= Seq::empty());
            assert(views =~= with_path(path, ranges));
        }
        ChunkPlan { path, size, pieces, piece: 0, cursor: 0, chunks }
    }

    /// Where to look for the end of a line next.
    ///
    /// Passes over the pieces whose tentative stop the cursor has already
    /// reached. Returns the tentative stop of the first piece left, for the
    /// caller to report to `cut` how far from there the line ends; or `None`
    /// once the chunks reach the end of the file.
    pub fn probe(&mut self) -> (at: Option<usize>)
        requires
            old(self)@.well_formed(),
        ensures
            final(self)@ == old(self)@.probed(),
            final(self)@.well_formed(),
            at is Some <==> old(self)@.cursor < old(self)@.size,
            at is Some <==> final(self)@.cut_due(),
            at is None ==> final(self)@.piece == final(self)@.pieces,
            old(self)@.piece <= final(self)@.piece,
            at matches Some(t) ==> t == tentative_stop(
                final(self)@.size,
                final(self)@.pieces,
                final(self)@.piece,
            ) && final(self)@.cursor < t <= final(self)@.size,
    {
        while self.piece < self.pieces
            invariant
                self@.well_formed(),
                old(self)@.piece <= self@.piece,
                self@ == (PlanView { piece: self@.piece, ..old(self)@ }),
                next_piece(self@.size, self@.pieces, old(self)@.piece, self@.cursor) == next_piece(
                    self@.size,
                    self@.pieces,
                    self@.piece,
                    self@.cursor,
                ),
            decreases self.pieces - self.piece,
        {
            let stop = tentative(self.size, self.pieces, self.piece);
            if stop > self.cursor {
                return Some(stop);
            }
            self.piece = self.piece + 1;
        }
        proof {
            lemma_tentative_stop(self@.size, self@.pieces, (self@.piece - 1) as nat);
        }
        None
    }

    /// Cuts the next chunk: from the cursor to `advance` bytes past the
    /// tentative stop that `probe` returned.
    ///
    /// Returns whether the chunk was cut. It is not, and the plan is left as
    /// it was, where no cut is due or the chunk would end beyond the file.
    pub fn cut(&mut self, advance: usize) -> (done: bool)
        requires
            old(self)@.well_formed(),
        ensures
            done <==> old(self)@.cut_due() && old(self)@.stop_after(advance as nat) <= old(
                self,
            )@.size,
            done ==> final(self)@ == old(self)@.cut(advance as nat),
            !done ==> final(self)@ == old(self)@,
            final(self)@.well_formed(),
    {
        if self.piece >= self.pieces {
            return false;
        }
        let at = tentative(self.size, self.pieces, self.piece);
        if self.cursor >= at || advance > self.size - at {
            return false;
        }
        let stop: usize = at + advance;
        let chunk = FileChunk { path: self.path.clone(), start: self.cursor, stop };
        proof {
            let before = self@;
            let views = before.chunks.push(chunk@);
            let ranges = views.map_values(|c: (PathBuf, nat, nat)| (c.1, c.2));
            assert(ranges =~= before.ranges().push((before.cursor, stop as nat)));
            assert(views =~= with_path(before.path, ranges));
            assert(tiles(ranges, 0, stop as nat)) by {
                assert forall|i: int| 0 <= i < ranges.len() implies (#[trigger] ranges[i]).0
                    < ranges[i].1 by {
                    if i < before.ranges().len() {
                        assert(ranges[i] == before.ranges()[i]);
                    }
                }
                assert forall|i: int, j: int| 0 <= i && j == i + 1 && j < ranges.len() implies (
                #[trigger] ranges[i]).1 == (#[trigger] ranges[j]).0 by {
                    assert(ranges[i] == before.ranges()[i]);
                    if j < before.ranges().len() {
                        assert(ranges[j] == before.ranges()[j]);
                    }
                }
                if before.ranges().len() > 0 {
                    assert(ranges[0] == before.ranges()[0]);
                }
            }
            assert(chunk_views(self.chunks@.push(chunk)) =~= views);
        }
        self.chunks.push(chunk);
        self.cursor = stop;
        self.piece = self.piece + 1;
        true
    }

    /// The chunks cut so far.
    pub fn into_chunks(self) -> (chunks: Vec<FileChunk>)
        ensures
            chunk_views(chunks@) == self@.chunks,
    {
        self.chunks
    }
}

/// A file is cut into one piece at least, into no more pieces than
/// `max_chunks` unless that is 0, and into more than one only as far as every
/// piece can have `min_size` bytes.
pub proof fn lemma_target_pieces(size: nat, max_chunks: nat, min_size: nat)
    requires
        min_size > 0,
    ensures
        1 <= target_pieces(size, max_chunks, min_size),
        max_chunks > 0 ==> target_pieces(size, max_chunks, min_size) <= max_chunks,
        target_pieces(size, max_chunks, min_size) > 1 ==> target_pieces(size, max_chunks, min_size)
            * min_size <= size,
{
    let pieces = target_pieces(size, max_chunks, min_size);
    if pieces > 1 {
        assert(pieces * min_size <= size) by (nonlinear_arith)
            requires
                pieces <= size / min_size,
                min_size > 0,
        ;
    }
}

/// Passing over the pieces that cut nothing changes nothing of what is cut.
proof fn lemma_split_from_skips(data: Seq<u8>, pieces: nat, i: nat, cursor: nat)
    ensures
        split_from(data, pieces, i, cursor) == split_from(
            data,
            pieces,
            next_piece(data.len(), pieces, i, cursor),
            cursor,
        ),
    decreases pieces - i,
{
    if i < pieces && tentative_stop(data.len(), pieces, i) <= cursor {
        lemma_split_from_skips(data, pieces, i + 1, cursor);
    }
}

/// A plan that has cut nothing yet follows every file of its size.
pub proof fn lemma_plan_begins(plan: PlanView, data: Seq<u8>)
    requires
        plan.size == data.len(),
        plan.piece == 0,
        plan.cursor == 0,
        plan.chunks.len() == 0,
    ensures
        plan.follows(data),
{
    assert(plan.chunks + with_path(plan.path, split_ranges(data, plan.pieces)) =~= with_path(
        plan.path,
        split_ranges(data, plan.pieces),
    ));
}

/// A plan that follows a file still follows it after `probe`.
pub proof fn lemma_probe_follows(plan: PlanView, data: Seq<u8>)
    requires
        plan.follows(data),
    ensures
        plan.probed().follows(data),
{
    lemma_split_from_skips(data, plan.pieces, plan.piece, plan.cursor);
}

/// A plan that follows a file still follows it after a cut that is due,
/// where the cut is made as many bytes past the tentative stop as the line
/// there goes on in the file, terminator included.
pub proof fn lemma_cut_follows(plan: PlanView, data: Seq<u8>)
    requires
        plan.follows(data),
        plan.cut_due(),
    ensures
        ({
            let at = tentative_stop(plan.size, plan.pieces, plan.piece) as int;
            let advance = bytes_through(data.skip(at), NEWLINE);
            &&& plan.stop_after(advance) <= plan.size
            &&& plan.cut(advance).follows(data)
        }),
{
    let at = tentative_stop(plan.size, plan.pieces, plan.piece) as int;
    let advance = bytes_through(data.skip(at), NEWLINE);
    let stop = plan.stop_after(advance);
    lemma_tentative_stop(plan.size, plan.pieces, plan.piece);
    lemma_line_end(data, at);
    let rest = split_from(data, plan.pieces, plan.piece + 1, stop);
    assert(split_from(data, plan.pieces, plan.piece, plan.cursor) == seq![(plan.cursor, stop)]
        + rest);
    assert(with_path(plan.path, seq![(plan.cursor, stop)] + rest) =~= seq![
        (plan.path, plan.cursor, stop),
    ] + with_path(plan.path, rest));
    assert(plan.cut(advance).chunks + with_path(plan.path, rest) =~= plan.chunks + (seq![
        (plan.path, plan.cursor, stop),
    ] + with_path(plan.path, rest)));
}

/// A plan that follows a file and has no piece left has cut the file into
/// its chunks.
pub proof fn lemma_plan_ends(plan: PlanView, data: Seq<u8>)
    requires
        plan.follows(data),
        plan.piece >= plan.pieces,
    ensures
        plan.chunks == with_path(plan.path, split_ranges(data, plan.pieces)),
{
    assert(plan.chunks + with_path(
        plan.path,
        split_from(data, plan.pieces, plan.piece, plan.cursor),
    ) =~= plan.chunks);
}

/// Cuts `data`, the bytes of the file at `path`, into chunks of whole lines,
/// for a target of `target_pieces` pieces.
fn split_file(path: &PathBuf, data: &[u8], max_chunks: usize, min_size: usize) -> (chunks: Vec<
    FileChunk,
>)
    requires
        min_size > 0,
    ensures
        chunk_views(chunks@) == with_path(
            *path,
            split_ranges(
                data@,
                target_pieces(data@.len(), max_chunks as nat, min_size as nat),
            ),
        ),
{
    let size: usize = data.len();
    let mut plan = ChunkPlan::new(path.clone(), size, max_chunks, min_size);
    let ghost pieces = plan@.pieces;
    proof {
        lemma_plan_begins(plan@, data@);
    }
    loop
        invariant
            size == data@.len(),
            plan@.well_formed(),
            plan@.follows(data@),
            plan@.path == *path,
            plan@.pieces == pieces,
        ensures
            plan@.chunks == with_path(*path, split_ranges(data@, pieces)),
        decreases plan@.pieces - plan@.piece,
    {
        proof {
            lemma_probe_follows(plan@, data@);
        }
        match plan.probe() {
            None => {
                proof {
                    lemma_plan_ends(plan@, data@);
                }
                break ;
            },
            Some(at) => {
                proof {
                    lemma_cut_follows(plan@, data@);
                    assert(data@.subrange(at as int, size as int) == data@.skip(at as int));
                }
                let advance = read_until(NEWLINE, vstd::slice::slice_subrange(data, at, size));
                let cut = plan.cut(advance);
                assert(cut);
            },
        }
    }
    plan.into_chunks()
}

/// Returns the chunks, `max_chunks` at most, that split the file at `path`
/// with the bytes `data` into parts of roughly the same size, of `min_size`
/// bytes or more on average where there are several, each made of whole
/// lines. An empty file has no chunk.
///
/// Fails with `InvariantViolation` where `max_chunks` is 0.
pub fn chunkify(path: &PathBuf, data: &[u8], max_chunks: usize, min_size: usize) -> (r: Result<
    Vec<FileChunk>,
    ChunkError,
>)
    requires
        min_size > 0,
    ensures
        r is Err <==> max_chunks == 0,
        r matches Err(e) ==> e == ChunkError::InvariantViolation,
        r matches Ok(chunks) ==> {
            let ranges = split_ranges(
                data@,
                target_pieces(data@.len(), max_chunks as nat, min_size as nat),
            );
            &&& chunk_views(chunks@) == with_path(*path, ranges)
            &&& chunks@.len() <= max_chunks
            &&& chunks@.len() > 1 ==> chunks@.len() * min_size <= data@.len()
            &&& tiles(ranges, 0, data@.len())
            &&& line_coherent(data@, ranges)
            &&& chunk_bytes(data@, ranges) == data@
            &&& chunk_lines(data@, ranges) == split_lines(data@)
        },
{
    if max_chunks == 0 {
        return Err(ChunkError::InvariantViolation);
    }
    let chunks = split_file(path, data, max_chunks, min_size);
    proof {
        let pieces = target_pieces(data@.len(), max_chunks as nat, min_size as nat);
        lemma_chunks_cover(data@, pieces);
        lemma_chunks_line_coherent(data@, pieces);
        lemma_chunks_hold_lines(data@, pieces);
        lemma_target_pieces(data@.len(), max_chunks as nat, min_size as nat);
        assert(chunk_views(chunks@).len() == chunks@.len());
        if chunks@.len() > 1 {
            assert(chunks@.len() * min_size <= pieces * min_size) by (nonlinear_arith)
                requires
                    chunks@.len() <= pieces,
            ;
        }
    }
    Ok(chunks)
}

/// `sizes` added up.
pub open spec fn total_size(sizes: Seq<usize>) -> nat
    decreases sizes.len(),
{
    if sizes.len() == 0 {
        0
    } else {
        total_size(sizes.drop_last()) + sizes.last() as nat
    }
}

/// The average of `sizes`, rounded up; 0 where there is no size.
pub open spec fn mean_size(sizes: Seq<usize>) -> nat {
    if sizes.len() == 0 {
        0
    } else {
        ((total_size(sizes) + sizes.len() - 1) / (sizes.len() as int)) as nat
    }
}

/// How many chunks a file of `size` bytes is to give among files of the
/// average size `average`: one for each `average` bytes, begun or full.
pub open spec fn wanted_chunks(size: nat, average: nat) -> nat {
    if average == 0 {
        0
    } else {
        ((size + average - 1) / (average as int)) as nat
    }
}

/// The sizes of `files`.
pub open spec fn sizes_of(files: Seq<(PathBuf, Vec<u8>)>) -> Seq<usize> {
    files.map_values(|f: (PathBuf, Vec<u8>)| f.1@.len() as usize)
}

/// The ranges that file `i` of `files` is cut into.
pub open spec fn file_ranges(files: Seq<(PathBuf, Vec<u8>)>, min_size: nat, i: int) -> Seq<
    (nat, nat),
> {
    let data = files[i].1@;
    split_ranges(
        data,
        target_pieces(
            data.len(),
            wanted_chunks(data.len(), mean_size(sizes_of(files))),
            min_size,
        ),
    )
}

/// The chunks that the first `n` of `files` are cut into, file by file.
pub open spec fn files_chunks(files: Seq<(PathBuf, Vec<u8>)>, min_size: nat, n: nat) -> Seq<
    (PathBuf, nat, nat),
> {
    Seq::new(n, |i: int| with_path(files[i].0, file_ranges(files, min_size, i))).flatten()
}

/// The bytes of the chunks that `files` are cut into, chunk after chunk.
pub open spec fn files_chunk_bytes(files: Seq<(PathBuf, Vec<u8>)>, min_size: nat) -> Seq<u8> {
    Seq::new(files.len(), |i: int| chunk_bytes(files[i].1@, file_ranges(files, min_size, i)))
        .flatten()
}

/// The bytes of `files`, file after file.
pub open spec fn files_bytes(files: Seq<(PathBuf, Vec<u8>)>) -> Seq<u8> {
    Seq::new(files.len(), |i: int| files[i].1@).flatten()
}

/// Coverage, over several files: the bytes of the chunks, in chunk order, are
/// the bytes of the files, in input order; and each file's chunks are
/// non-empty, follow one another from the file's start to its end, and are
/// made of whole lines.
pub proof fn lemma_files_covered(files: Seq<(PathBuf, Vec<u8>)>, min_size: nat)
    ensures
        files_chunk_bytes(files, min_size) == files_bytes(files),
        forall|i: int|
            0 <= i < files.len() ==> {
                let ranges = #[trigger] file_ranges(files, min_size, i);
                &&& tiles(ranges, 0, files[i].1@.len())
                &&& line_coherent(files[i].1@, ranges)
                &&& chunk_bytes(files[i].1@, ranges) == files[i].1@
                &&& chunk_lines(files[i].1@, ranges) == split_lines(files[i].1@)
                &&& min_size > 0 && ranges.len() > 1 ==> ranges.len() * min_size <= files[i].1@.len()
            },
{
    assert forall|i: int| 0 <= i < files.len() implies {
        let ranges = #[trigger] file_ranges(files, min_size, i);
        &&& tiles(ranges, 0, files[i].1@.len())
        &&& line_coherent(files[i].1@, ranges)
        &&& chunk_bytes(files[i].1@, ranges) == files[i].1@
        &&& chunk_lines(files[i].1@, ranges) == split_lines(files[i].1@)
        &&& min_size > 0 && ranges.len() > 1 ==> ranges.len() * min_size <= files[i].1@.len()
    } by {
        let data = files[i].1@;
        let pieces = target_pieces(
            data.len(),
            wanted_chunks(data.len(), mean_size(sizes_of(files))),
            min_size,
        );
        lemma_chunks_cover(data, pieces);
        lemma_chunks_line_coherent(data, pieces);
        lemma_chunks_hold_lines(data, pieces);
        let ranges = file_ranges(files, min_size, i);
        if min_size > 0 && ranges.len() > 1 {
            lemma_target_pieces(
                data.len(),
                wanted_chunks(data.len(), mean_size(sizes_of(files))),
                min_size,
            );
            assert(ranges.len() * min_size <= pieces * min_size) by (nonlinear_arith)
                requires
                    ranges.len() <= pieces,
            ;
        }
    }
    assert(Seq::new(
        files.len(),
        |i: int| chunk_bytes(files[i].1@, file_ranges(files, min_size, i)),
    ) =~= Seq::new(files.len(), |i: int| files[i].1@));
}

/// The average of `sizes`, rounded up; 0 where there is no size.
pub fn average_size(sizes: &[usize]) -> (average: usize)
    ensures
        average == mean_size(sizes@),
{
    let count: usize = sizes.len();
    if count == 0 {
        return 0;
    }
    let mut total: u128 = 0;
    let mut i: usize = 0;
    while i < count
        invariant
            count == sizes@.len(),
            i <= count,
            total == total_size(sizes@.take(i as int)),
            total <= i * usize::MAX,
        decreases count - i,
    {
        proof {
            assert(sizes@.take(i as int + 1).drop_last() =~= sizes@.take(i as int));
            assert((i + 1) * usize::MAX <= usize::MAX * usize::MAX) by (nonlinear_arith)
                requires
                    i < usize::MAX,
            ;
            assert((i + 1) * usize::MAX == i * usize::MAX + usize::MAX) by (nonlinear_arith);
        }
        total = total + sizes[i] as u128;
        i = i + 1;
    }
    proof {
        assert(sizes@.take(count as int) =~= sizes@);
        assert((total + count - 1) / (count as int) <= usize::MAX) by (nonlinear_arith)
            requires
                total <= count * usize::MAX,
                count > 0,
        ;
    }
    ((total + count as u128 - 1) / count as u128) as usize
}

/// How many chunks a file of `size` bytes is to give among files of the
/// average size `average`: one for each `average` bytes, begun or full.
pub fn desired_chunks(size: usize, average: usize) -> (chunks: usize)
    ensures
        chunks == wanted_chunks(size as nat, average as nat),
{
    if average == 0 {
        0
    } else {
        proof {
            assert((size + average - 1) / (average as int) <= size) by (nonlinear_arith)
                requires
                    average >= 1,
                    size >= 0,
            ;
        }
        ((size as u128 + average as u128 - 1) / average as u128) as usize
    }
}

/// Whether `files` files can be cut into `max_chunks` chunks: not where
/// either number is 0.
pub fn check_parameters(files: usize, max_chunks: usize) -> (r: Result<(), ChunkError>)
    ensures
        r is Err <==> max_chunks == 0 || files == 0,
        r matches Err(e) ==> e == ChunkError::InvariantViolation,
{
    if max_chunks == 0 || files == 0 {
        Err(ChunkError::InvariantViolation)
    } else {
        Ok(())
    }
}

/// Cuts several files into chunks of whole lines; `files` holds each file's
/// path and bytes. A file gives one chunk for each average file size that it
/// holds, begun or full, as far as its chunks can have `min_size` bytes on
/// average, so that files of any size come out in chunks of about the same
/// size. How many chunks there are follows from the sizes alone: of
/// `max_chunks` it only matters that it is not 0.
///
/// Fails with `InvariantViolation` where `max_chunks` is 0 or `files` is
/// empty.
pub fn chunkify_multiple(files: &[(PathBuf, Vec<u8>)], max_chunks: usize, min_size: usize) -> (r:
    Result<Vec<FileChunk>, ChunkError>)
    requires
        min_size > 0,
    ensures
        r is Err <==> max_chunks == 0 || files@.len() == 0,
        r matches Err(e) ==> e == ChunkError::InvariantViolation,
        r matches Ok(chunks) ==> {
            &&& chunk_views(chunks@) == files_chunks(files@, min_size as nat, files@.len())
            &&& files_chunk_bytes(files@, min_size as nat) == files_bytes(files@)
            &&& forall|i: int|
                0 <= i < files@.len() ==> {
                    let ranges = #[trigger] file_ranges(files@, min_size as nat, i);
                    &&& tiles(ranges, 0, files@[i].1@.len())
                    &&& line_coherent(files@[i].1@, ranges)
                    &&& chunk_lines(files@[i].1@, ranges) == split_lines(files@[i].1@)
                    &&& ranges.len() > 1 ==> ranges.len() * min_size <= files@[i].1@.len()
                }
        },
{
    match check_parameters(files.len(), max_chunks) {
        Err(e) => {
            return Err(e);
        },
        Ok(_) => {},
    }
    let mut sizes: Vec<usize> = Vec::new();
    let mut k: usize = 0;
    while k < files.len()
        invariant
            k <= files@.len(),
            sizes@ == sizes_of(files@).take(k as int),
        decreases files@.len() - k,
    {
        sizes.push(files[k].1.len());
        k = k + 1;
        assert(sizes@ =~= sizes_of(files@).take(k as int));
    }
    assert(sizes@ =~= sizes_of(files@));
    let average = average_size(sizes.as_slice());
    let mut chunks: Vec<FileChunk> = Vec::new();
    let mut i: usize = 0;
    assert(chunk_views(chunks@) =~= files_chunks(files@, min_size as nat, 0));
    while i < files.len()
        invariant
            min_size > 0,
            i <= files@.len(),
            average == mean_size(sizes_of(files@)),
            chunk_views(chunks@) == files_chunks(files@, min_size as nat, i as nat),
        decreases files@.len() - i,
    {
        let file = &files[i];
        let wanted = desired_chunks(file.1.len(), average);
        let mut more = split_file(&file.0, file.1.as_slice(), wanted, min_size);
        proof {
            let per_file = |k: int| with_path(files@[k].0, file_ranges(files@, min_size as nat, k));
            let before = Seq::new(i as nat, per_file);
            let after = Seq::new((i + 1) as nat, per_file);
            assert(after =~= before.push(per_file(i as int)));
            before.lemma_flatten_push(per_file(i as int));
            assert(chunk_views(chunks@ + more@) =~= chunk_views(chunks@) + chunk_views(more@));
        }
        chunks.append(&mut more);
        i = i + 1;
    }
    proof {
        lemma_files_covered(files@, min_size as nat);
    }
    Ok(chunks)
}

} // verus!
