//! Shard by first key into buffers.
//!
//! Every line has a key, the bytes before its first space. A line goes to the
//! partition that the hash of its key selects, so that lines with one key
//! meet in one partition. Lines gather in one buffer for each partition; once
//! the buffers together hold enough, all of them are flushed.

use crate::lines::{
    byte_lines, byte_seqs, is_terminated, lemma_split_lines, split_lines, NEWLINE,
};
use std::collections::hash_map::DefaultHasher;
use std::hash::Hasher;
use vstd::prelude::*;
use vstd::std_specs::hash::DefaultHasherAdditionalSpecFns;

verus! {

/// The byte that ends a key, the space.
pub const SPACE: u8 = 32;

/// How many bytes at the start of `s` differ from `delim`.
pub open spec fn bytes_before(s: Seq<u8>, delim: u8) -> nat
    decreases s.len(),
{
    if s.len() == 0 || s[0] == delim {
        0
    } else {
        1 + bytes_before(s.drop_first(), delim)
    }
}

/// The key of `line`: of the line less its terminator, what comes before the
/// first space, or all of it where it holds no space.
pub open spec fn key_of(line: Seq<u8>) -> Seq<u8> {
    let body = if is_terminated(line) {
        line.drop_last()
    } else {
        line
    };
    body.take(bytes_before(body, SPACE) as int)
}

/// The hash of a key: what a fresh `DefaultHasher` makes of the key's bytes,
/// written to it at once.
pub open spec fn key_hash(key: Seq<u8>) -> u64 {
    DefaultHasher::spec_finish(seq![key])
}

/// The partition, of `npartitions`, that `line` belongs to.
pub open spec fn partition_of(line: Seq<u8>, npartitions: nat) -> nat {
    (key_hash(key_of(line)) as nat) % npartitions
}

proof fn lemma_bytes_before(s: Seq<u8>, delim: u8)
    ensures
        bytes_before(s, delim) <= s.len(),
        forall|j: int| 0 <= j < bytes_before(s, delim) ==> s[j] != delim,
        bytes_before(s, delim) < s.len() ==> s[bytes_before(s, delim) as int] == delim,
    decreases s.len(),
{
    if s.len() > 0 && s[0] != delim {
        let rest = s.drop_first();
        lemma_bytes_before(rest, delim);
        let n = bytes_before(rest, delim) as int;
        assert forall|j: int| 0 <= j < n + 1 implies s[j] != delim by {
            if j > 0 {
                assert(rest[j - 1] == s[j]);
            }
        }
        if n < rest.len() {
            assert(rest[n] == s[n + 1]);
        }
    }
}

proof fn lemma_bytes_before_is(s: Seq<u8>, delim: u8, n: int)
    requires
        0 <= n <= s.len(),
        forall|j: int| 0 <= j < n ==> s[j] != delim,
        n < s.len() ==> s[n] == delim,
    ensures
        bytes_before(s, delim) == n,
{
    lemma_bytes_before(s, delim);
    let m = bytes_before(s, delim) as int;
    if m < n {
        assert(s[m] != delim);
    }
}

/// The key of `line`: of the line less its terminator, what comes before the
/// first space, or all of it where it holds no space.
pub fn key(line: &[u8]) -> (key: &[u8])
    ensures
        key@ == key_of(line@),
{
    let len: usize = line.len();
    let body_len: usize = if len > 0 && line[len - 1] == NEWLINE {
        len - 1
    } else {
        len
    };
    let end: usize = match memchr::memchr(SPACE, line) {
        Some(i) => i,
        None => body_len,
    };
    proof {
        let body = if is_terminated(line@) {
            line@.drop_last()
        } else {
            line@
        };
        assert(body =~= line@.take(body_len as int));
        lemma_bytes_before_is(body, SPACE, end as int);
        assert(line@.subrange(0, end as int) =~= key_of(line@));
    }
    vstd::slice::slice_subrange(line, 0, end)
}

/// The partition, of `npartitions`, that the hash `hash` selects.
pub fn partition_for(hash: u64, npartitions: usize) -> (partition: usize)
    requires
        npartitions > 0,
    ensures
        partition == hash as nat % npartitions as nat,
        partition < npartitions,
{
    (hash % (npartitions as u64)) as usize
}

/// The partition of `line` among `npartitions`: the hash of the line's key,
/// modulo `npartitions`.
pub fn hash_key(line: &[u8], npartitions: usize) -> (partition: usize)
    requires
        npartitions > 0,
    ensures
        partition == partition_of(line@, npartitions as nat),
        partition < npartitions,
{
    let mut hasher = DefaultHasher::new();
    hasher.write(key(line));
    proof {
        assert(hasher@ =~= seq![key_of(line@)]);
    }
    partition_for(hasher.finish(), npartitions)
}

/// How many partitions a run over `chunks` chunks has: one for each chunk,
/// and one at least, so that a run over no input still has an output.
pub fn partition_count(chunks: usize) -> (npartitions: usize)
    ensures
        npartitions == if chunks == 0 {
            1
        } else {
            chunks as int
        },
{
    if chunks == 0 {
        1
    } else {
        chunks
    }
}

/// How many bytes `bufs` hold together.
pub open spec fn pending_bytes(bufs: Seq<Seq<u8>>) -> nat
    decreases bufs.len(),
{
    if bufs.len() == 0 {
        0
    } else {
        pending_bytes(bufs.drop_last()) + bufs.last().len()
    }
}

/// `n` empty buffers.
pub open spec fn emptied(n: nat) -> Seq<Seq<u8>> {
    Seq::new(n, |i: int| Seq::<u8>::empty())
}

/// `bufs` with `line` added to the buffer of `partition`.
pub open spec fn routed_to(bufs: Seq<Seq<u8>>, partition: int, line: Seq<u8>) -> Seq<Seq<u8>> {
    bufs.update(partition, bufs[partition] + line)
}

/// `bufs` with `line` added to the buffer of the line's partition.
pub open spec fn routed(bufs: Seq<Seq<u8>>, line: Seq<u8>) -> Seq<Seq<u8>> {
    routed_to(bufs, partition_of(line, bufs.len()) as int, line)
}

/// Whether a buffer handed on with its partition holds any byte.
pub open spec fn holds_bytes() -> spec_fn((usize, Seq<u8>)) -> bool {
    |e: (usize, Seq<u8>)| e.1.len() > 0
}

/// Every buffer of `bufs` with its partition, in the order of the partitions.
pub open spec fn entries(bufs: Seq<Seq<u8>>) -> Seq<(usize, Seq<u8>)> {
    Seq::new(bufs.len(), |i: int| (i as usize, bufs[i]))
}

/// What a flush of `bufs` hands on: every buffer that holds a byte, with its
/// partition, in the order of the partitions.
pub open spec fn flushed(bufs: Seq<Seq<u8>>) -> Seq<(usize, Seq<u8>)> {
    entries(bufs).filter(holds_bytes())
}

/// What a vector of flushed buffers holds: each buffer's partition and bytes.
pub open spec fn emissions(out: Seq<(usize, Vec<u8>)>) -> Seq<(usize, Seq<u8>)> {
    out.map_values(|e: (usize, Vec<u8>)| (e.0, e.1@))
}

proof fn lemma_pending_routed(bufs: Seq<Seq<u8>>, partition: int, line: Seq<u8>)
    requires
        0 <= partition < bufs.len(),
    ensures
        pending_bytes(bufs.update(partition, bufs[partition] + line)) == pending_bytes(bufs)
            + line.len(),
    decreases bufs.len(),
{
    let after = bufs.update(partition, bufs[partition] + line);
    if partition == bufs.len() - 1 {
        assert(after.drop_last() =~= bufs.drop_last());
    } else {
        lemma_pending_routed(bufs.drop_last(), partition, line);
        assert(after.drop_last() =~= bufs.drop_last().update(
            partition,
            bufs.drop_last()[partition] + line,
        ));
    }
}

proof fn lemma_pending_emptied(n: nat)
    ensures
        pending_bytes(emptied(n)) == 0,
    decreases n,
{
    if n > 0 {
        lemma_pending_emptied((n - 1) as nat);
        assert(emptied(n).drop_last() =~= emptied((n - 1) as nat));
    }
}

/// What a `Sharder` stands for.
pub struct SharderView {
    /// The bytes gathered for each partition since the last flush.
    pub bufs: Seq<Seq<u8>>,
    /// How many bytes the buffers may hold together before they are flushed.
    pub bufsize: nat,
}

/// A buffer of bytes for each partition, flushed all together.
pub struct Sharder {
    bufs: Vec<Vec<u8>>,
    used_space: usize,
    bufsize: usize,
}

impl View for Sharder {
    type V = SharderView;

    closed spec fn view(&self) -> SharderView {
        SharderView { bufs: byte_seqs(self.bufs@), bufsize: self.bufsize as nat }
    }
}

impl Sharder {
    /// What holds of every sharder: it has a partition at least, and knows
    /// how many bytes its buffers hold.
    pub closed spec fn well_formed(&self) -> bool {
        &&& self.bufs@.len() > 0
        &&& self.used_space == pending_bytes(byte_seqs(self.bufs@))
    }

    /// A sharder for `npartitions` partitions, with empty buffers, that
    /// flushes once the buffers hold `bufsize` bytes together.
    pub fn new(npartitions: usize, bufsize: usize) -> (sharder: Self)
        requires
            npartitions > 0,
        ensures
            sharder.well_formed(),
            sharder@ == (SharderView { bufs: emptied(npartitions as nat), bufsize: bufsize as nat }),
    {
        let mut bufs: Vec<Vec<u8>> = Vec::new();
        let mut i: usize = 0;
        while i < npartitions
            invariant
                i <= npartitions,
                bufs@.len() == i,
                byte_seqs(bufs@) == emptied(i as nat),
            decreases npartitions - i,
        {
            let ghost before = bufs@;
            bufs.push(Vec::new());
            i = i + 1;
            assert forall|j: int| 0 <= j < i implies (#[trigger] byte_seqs(bufs@)[j]).len() == 0 by {
                if j < i - 1 {
                    assert(byte_seqs(before)[j] == emptied((i - 1) as nat)[j]);
                }
            }
            assert(byte_seqs(bufs@) =~~= emptied(i as nat));
        }
        proof {
            lemma_pending_emptied(npartitions as nat);
            assert(byte_seqs(bufs@).len() == bufs@.len());
        }
        Sharder { bufs, used_space: 0, bufsize }
    }

    /// Adds `line` to the buffer of its partition; once the buffers together
    /// hold `bufsize` bytes or more, flushes them all.
    ///
    /// Returns the buffers handed on, each with its partition, in the order of
    /// the partitions: none where the buffers hold fewer bytes.
    pub fn push_line(&mut self, line: &[u8]) -> (out: Vec<(usize, Vec<u8>)>)
        requires
            old(self).well_formed(),
        ensures
            final(self).well_formed(),
            final(self)@.bufsize == old(self)@.bufsize,
            final(self)@.bufs.len() == old(self)@.bufs.len(),
            ({
                let bufs = routed(old(self)@.bufs, line@);
                if pending_bytes(bufs) >= old(self)@.bufsize {
                    &&& final(self)@.bufs == emptied(bufs.len())
                    &&& emissions(out@) == flushed(bufs)
                } else {
                    &&& final(self)@.bufs == bufs
                    &&& out@.len() == 0
                }
            }),
    {
        let partition = hash_key(line, self.bufs.len());
        self.push_to(partition, line)
    }

    /// Adds `line` to the buffer of `partition`; once the buffers together
    /// hold `bufsize` bytes or more, flushes them all.
    ///
    /// Returns the buffers handed on, each with its partition, in the order of
    /// the partitions: none where the buffers hold fewer bytes.
    pub fn push_to(&mut self, partition: usize, line: &[u8]) -> (out: Vec<(usize, Vec<u8>)>)
        requires
            old(self).well_formed(),
            partition < old(self)@.bufs.len(),
        ensures
            final(self).well_formed(),
            final(self)@.bufsize == old(self)@.bufsize,
            final(self)@.bufs.len() == old(self)@.bufs.len(),
            ({
                let bufs = routed_to(old(self)@.bufs, partition as int, line@);
                if pending_bytes(bufs) >= old(self)@.bufsize {
                    &&& final(self)@.bufs == emptied(bufs.len())
                    &&& emissions(out@) == flushed(bufs)
                } else {
                    &&& final(self)@.bufs == bufs
                    &&& out@.len() == 0
                }
            }),
    {
        let ghost before = byte_seqs(self.bufs@);
        let ghost held = self.bufs@;
        self.bufs[partition].extend_from_slice(line);
        proof {
            assert(self.bufs@[partition as int]@ =~= held[partition as int]@ + line@);
            assert(byte_seqs(self.bufs@) =~= routed_to(before, partition as int, line@));
            lemma_pending_routed(before, partition as int, line@);
        }
        let filled: bool = match self.used_space.checked_add(line.len()) {
            Some(used) => {
                self.used_space = used;
                used >= self.bufsize
            },
            None => true,
        };
        if filled {
            self.drain()
        } else {
            Vec::new()
        }
    }

    /// Flushes the buffers: hands on every buffer that holds a byte, with its
    /// partition, in the order of the partitions, and leaves all buffers
    /// empty.
    pub fn flush(&mut self) -> (out: Vec<(usize, Vec<u8>)>)
        requires
            old(self).well_formed(),
        ensures
            final(self).well_formed(),
            final(self)@ == (SharderView {
                bufs: emptied(old(self)@.bufs.len()),
                bufsize: old(self)@.bufsize,
            }),
            emissions(out@) == flushed(old(self)@.bufs),
    {
        self.drain()
    }

    /// Hands on every buffer that holds a byte and leaves all buffers empty.
    fn drain(&mut self) -> (out: Vec<(usize, Vec<u8>)>)
        requires
            old(self).bufs@.len() > 0,
        ensures
            final(self).well_formed(),
            final(self)@ == (SharderView {
                bufs: emptied(old(self)@.bufs.len()),
                bufsize: old(self)@.bufsize,
            }),
            emissions(out@) == flushed(old(self)@.bufs),
    {
        let ghost before = byte_seqs(self.bufs@);
        let npartitions: usize = self.bufs.len();
        let mut out: Vec<(usize, Vec<u8>)> = Vec::new();
        let mut i: usize = 0;
        assert(emissions(out@) =~= entries(before).take(0).filter(holds_bytes())) by {
            reveal(Seq::filter);
        }
        while i < npartitions
            invariant
                i <= npartitions,
                npartitions == self.bufs@.len(),
                npartitions == before.len(),
                self.bufsize == old(self).bufsize,
                forall|j: int| 0 <= j < i ==> (#[trigger] self.bufs@[j])@ == Seq::<u8>::empty(),
                forall|j: int| i <= j < npartitions ==> (#[trigger] self.bufs@[j])@ == before[j],
                emissions(out@) == entries(before).take(i as int).filter(holds_bytes()),
            decreases npartitions - i,
        {
            let ghost sofar = entries(before).take(i as int);
            proof {
                assert(entries(before).take(i as int + 1) =~= sofar.push(
                    (i, before[i as int]),
                ));
                sofar.lemma_filter_push((i, before[i as int]), holds_bytes());
            }
            if self.bufs[i].len() > 0 {
                let ghost handed = emissions(out@);
                let mut taken: Vec<u8> = Vec::new();
                core::mem::swap(&mut self.bufs[i], &mut taken);
                out.push((i, taken));
                assert(emissions(out@) =~= handed.push((i, before[i as int])));
            }
            i = i + 1;
        }
        self.used_space = 0;
        proof {
            assert(entries(before).take(npartitions as int) =~= entries(before));
            assert(byte_seqs(self.bufs@) =~= emptied(npartitions as nat));
            lemma_pending_emptied(npartitions as nat);
        }
        out
    }
}

/// Whether a line belongs to `partition` of `npartitions`.
pub open spec fn in_partition(npartitions: nat, partition: nat) -> spec_fn(Seq<u8>) -> bool {
    |line: Seq<u8>| partition_of(line, npartitions) == partition
}

/// Those of `lines` that belong to `partition`, in their order.
pub open spec fn lines_for(lines: Seq<Seq<u8>>, npartitions: nat, partition: nat) -> Seq<Seq<u8>> {
    lines.filter(in_partition(npartitions, partition))
}

/// How many of `lines` are flushed together first: the fewest leading lines,
/// one at least, that hold `bufsize` bytes or more together, or all lines
/// where they hold fewer.
pub open spec fn batch_len(lines: Seq<Seq<u8>>, bufsize: int) -> nat
    decreases lines.len(),
{
    if lines.len() == 0 {
        0
    } else if lines[0].len() >= bufsize {
        1
    } else {
        1 + batch_len(lines.skip(1), bufsize - lines[0].len())
    }
}

/// Whether a line list handed on with its partition holds any line.
pub open spec fn holds_lines() -> spec_fn((usize, Seq<Seq<u8>>)) -> bool {
    |e: (usize, Seq<Seq<u8>>)| e.1.len() > 0
}

/// Every partition with those of `batch` that belong to it.
pub open spec fn line_entries(batch: Seq<Seq<u8>>, npartitions: nat) -> Seq<(usize, Seq<Seq<u8>>)> {
    Seq::new(npartitions, |p: int| (p as usize, lines_for(batch, npartitions, p as nat)))
}

/// What a flush hands on when the buffers were filled from the lines of
/// `batch`: for every partition that a line of `batch` belongs to, in the
/// order of the partitions, the partition with its lines of `batch`, in their
/// order.
pub open spec fn flush_lines(batch: Seq<Seq<u8>>, npartitions: nat) -> Seq<
    (usize, Seq<Seq<u8>>),
> {
    line_entries(batch, npartitions).filter(holds_lines())
}

/// What sharding hands on, flush after flush, as lines: `lines` fall into
/// batches, each the fewest lines that fill the buffers, and every batch is
/// flushed.
pub open spec fn shard_lines(lines: Seq<Seq<u8>>, npartitions: nat, bufsize: nat) -> Seq<
    (usize, Seq<Seq<u8>>),
>
    decreases lines.len(),
{
    if lines.len() == 0 {
        Seq::empty()
    } else {
        proof {
            lemma_batch_len(lines, bufsize as int);
        }
        let first = batch_len(lines, bufsize as int) as int;
        flush_lines(lines.take(first), npartitions) + shard_lines(
            lines.skip(first),
            npartitions,
            bufsize,
        )
    }
}

/// Flushed line lists as the buffers that hold them: each list's lines put
/// together.
pub open spec fn joined(flushes: Seq<(usize, Seq<Seq<u8>>)>) -> Seq<(usize, Seq<u8>)> {
    flushes.map_values(|e: (usize, Seq<Seq<u8>>)| (e.0, e.1.flatten()))
}

/// A batch of lines holds a line at least, and no more than there are.
pub proof fn lemma_batch_len(lines: Seq<Seq<u8>>, bufsize: int)
    ensures
        batch_len(lines, bufsize) <= lines.len(),
        lines.len() > 0 ==> batch_len(lines, bufsize) >= 1,
    decreases lines.len(),
{
    if lines.len() > 0 && lines[0].len() < bufsize {
        lemma_batch_len(lines.skip(1), bufsize - lines[0].len());
    }
}

proof fn lemma_flatten_take(lines: Seq<Seq<u8>>, k: int)
    requires
        1 <= k <= lines.len(),
    ensures
        lines.take(k).flatten().len() == lines[0].len() + lines.skip(1).take(k - 1).flatten().len(),
{
    assert(lines.take(k).drop_first() =~= lines.skip(1).take(k - 1));
}

/// The first batch ends with the line that fills the buffers.
proof fn lemma_batch_full(lines: Seq<Seq<u8>>, bufsize: int, k: int)
    requires
        1 <= k <= lines.len(),
        lines.take(k).flatten().len() >= bufsize,
        k > 1 ==> lines.take(k - 1).flatten().len() < bufsize,
    ensures
        batch_len(lines, bufsize) == k,
    decreases k,
{
    lemma_flatten_take(lines, k);
    if k == 1 {
        assert(lines.skip(1).take(0) =~= Seq::<Seq<u8>>::empty());
    } else {
        lemma_flatten_take(lines, k - 1);
        let rest = lines.skip(1);
        if k > 2 {
            assert(rest.take(k - 2).flatten().len() < bufsize - lines[0].len());
        }
        lemma_batch_full(rest, bufsize - lines[0].len(), k - 1);
    }
}

/// Lines that do not fill the buffers are one batch.
proof fn lemma_batch_all(lines: Seq<Seq<u8>>, bufsize: int)
    requires
        lines.flatten().len() < bufsize,
    ensures
        batch_len(lines, bufsize) == lines.len(),
    decreases lines.len(),
{
    if lines.len() > 0 {
        assert(lines.drop_first() =~= lines.skip(1));
        lemma_batch_all(lines.skip(1), bufsize - lines[0].len());
    }
}

/// Lines that hold a byte each hold a byte together.
proof fn lemma_flatten_holds_bytes(lines: Seq<Seq<u8>>)
    requires
        lines.len() > 0,
        forall|k: int| 0 <= k < lines.len() ==> (#[trigger] lines[k]).len() > 0,
    ensures
        lines.flatten().len() > 0,
{
}

/// Buffers filled from the lines of a batch are flushed as the batch's lines
/// are: partition by partition, each buffer holding its lines put together.
proof fn lemma_flushed_joined(bufs: Seq<Seq<u8>>, batch: Seq<Seq<u8>>, upto: int)
    requires
        bufs.len() <= usize::MAX,
        0 <= upto <= bufs.len(),
        forall|p: int|
            0 <= p < bufs.len() ==> #[trigger] bufs[p] == lines_for(
                batch,
                bufs.len(),
                p as nat,
            ).flatten(),
        forall|k: int| 0 <= k < batch.len() ==> (#[trigger] batch[k]).len() > 0,
    ensures
        entries(bufs).take(upto).filter(holds_bytes()) == joined(
            line_entries(batch, bufs.len()).take(upto).filter(holds_lines()),
        ),
    decreases upto,
{
    let n = bufs.len();
    let bytes = entries(bufs);
    let lines = line_entries(batch, n);
    if upto == 0 {
        reveal(Seq::filter);
        assert(bytes.take(0).filter(holds_bytes()) =~= Seq::empty());
        assert(joined(lines.take(0).filter(holds_lines())) =~= Seq::empty());
    } else {
        lemma_flushed_joined(bufs, batch, upto - 1);
        let p = upto - 1;
        let these = lines_for(batch, n, p as nat);
        assert(bytes.take(upto) =~= bytes.take(p).push((p as usize, bufs[p])));
        assert(lines.take(upto) =~= lines.take(p).push((p as usize, these)));
        bytes.take(p).lemma_filter_push((p as usize, bufs[p]), holds_bytes());
        lines.take(p).lemma_filter_push((p as usize, these), holds_lines());
        if these.len() > 0 {
            assert forall|k: int| 0 <= k < these.len() implies (#[trigger] these[k]).len() > 0 by {
                assert(these.contains(these[k]));
                batch.lemma_filter_contains_rev(in_partition(n, p as nat), these[k]);
            }
            lemma_flatten_holds_bytes(these);
        }
        let kept = lines.take(p).filter(holds_lines());
        assert(joined(kept.push((p as usize, these))) =~= joined(kept).push(
            (p as usize, these.flatten()),
        ));
    }
}

/// All lines of `flushes`, flush after flush.
pub open spec fn all_lines(flushes: Seq<(usize, Seq<Seq<u8>>)>) -> Seq<Seq<u8>>
    decreases flushes.len(),
{
    if flushes.len() == 0 {
        Seq::empty()
    } else {
        all_lines(flushes.drop_last()) + flushes.last().1
    }
}

/// The lines that `flushes` hand to `partition`, flush after flush.
pub open spec fn handed_to(flushes: Seq<(usize, Seq<Seq<u8>>)>, partition: nat) -> Seq<Seq<u8>>
    decreases flushes.len(),
{
    if flushes.len() == 0 {
        Seq::empty()
    } else if flushes.last().0 == partition {
        handed_to(flushes.drop_last(), partition) + flushes.last().1
    } else {
        handed_to(flushes.drop_last(), partition)
    }
}

/// Whether every flush is for one of `npartitions` partitions and holds
/// lines of that partition only.
pub open spec fn key_local(flushes: Seq<(usize, Seq<Seq<u8>>)>, npartitions: nat) -> bool {
    &&& forall|i: int| 0 <= i < flushes.len() ==> (#[trigger] flushes[i]).0 < npartitions
    &&& forall|i: int, j: int|
        0 <= i < flushes.len() && 0 <= j < flushes[i].1.len() ==> partition_of(
            #[trigger] flushes[i].1[j],
            npartitions,
        ) == flushes[i].0
}

/// Whether every flush holds a line at least, and holds, in their order, the
/// lines of its partition among some run of consecutive `lines`.
pub open spec fn in_input_order(
    flushes: Seq<(usize, Seq<Seq<u8>>)>,
    lines: Seq<Seq<u8>>,
    npartitions: nat,
) -> bool {
    forall|i: int|
        0 <= i < flushes.len() ==> (#[trigger] flushes[i]).1.len() > 0 && exists|a: int, b: int|
            0 <= a <= b <= lines.len() && flushes[i].1 == lines_for(
                #[trigger] lines.subrange(a, b),
                npartitions,
                flushes[i].0 as nat,
            )
}

proof fn lemma_all_lines_add(a: Seq<(usize, Seq<Seq<u8>>)>, b: Seq<(usize, Seq<Seq<u8>>)>)
    ensures
        all_lines(a + b) == all_lines(a) + all_lines(b),
    decreases b.len(),
{
    if b.len() == 0 {
        assert(a + b =~= a);
    } else {
        lemma_all_lines_add(a, b.drop_last());
        assert((a + b).drop_last() =~= a + b.drop_last());
        assert((a + b).last() == b.last());
        assert(all_lines(a + b) =~= all_lines(a) + all_lines(b));
    }
}

proof fn lemma_handed_to_add(
    a: Seq<(usize, Seq<Seq<u8>>)>,
    b: Seq<(usize, Seq<Seq<u8>>)>,
    partition: nat,
)
    ensures
        handed_to(a + b, partition) == handed_to(a, partition) + handed_to(b, partition),
    decreases b.len(),
{
    if b.len() == 0 {
        assert(a + b =~= a);
    } else {
        lemma_handed_to_add(a, b.drop_last(), partition);
        assert((a + b).drop_last() =~= a + b.drop_last());
        assert((a + b).last() == b.last());
        assert(handed_to(a + b, partition) =~= handed_to(a, partition) + handed_to(
            b,
            partition,
        ));
    }
}

/// Every flush of a batch is a partition with the batch's lines of it, of
/// which there is one at least.
proof fn lemma_flush_lines_entry(batch: Seq<Seq<u8>>, npartitions: nat, i: int)
    requires
        npartitions <= usize::MAX,
        0 <= i < flush_lines(batch, npartitions).len(),
    ensures
        flush_lines(batch, npartitions)[i].0 < npartitions,
        flush_lines(batch, npartitions)[i].1.len() > 0,
        flush_lines(batch, npartitions)[i].1 == lines_for(
            batch,
            npartitions,
            flush_lines(batch, npartitions)[i].0 as nat,
        ),
{
    let all = line_entries(batch, npartitions);
    let kept = flush_lines(batch, npartitions);
    all.lemma_filter_pred(holds_lines(), i);
    assert(kept.contains(kept[i]));
    all.lemma_filter_contains_rev(holds_lines(), kept[i]);
    let p = choose|p: int| 0 <= p < all.len() && all[p] == kept[i];
    assert(all[p] == (p as usize, lines_for(batch, npartitions, p as nat)));
}

/// Up to any partition, the flushes of a batch hand to a partition the
/// batch's lines of it.
proof fn lemma_flush_lines_handed(batch: Seq<Seq<u8>>, npartitions: nat, upto: int, partition: nat)
    requires
        npartitions <= usize::MAX,
        0 <= upto <= npartitions,
    ensures
        handed_to(line_entries(batch, npartitions).take(upto).filter(holds_lines()), partition)
            == if partition < upto {
            lines_for(batch, npartitions, partition)
        } else {
            Seq::empty()
        },
    decreases upto,
{
    let all = line_entries(batch, npartitions);
    if upto == 0 {
        reveal(Seq::filter);
        assert(all.take(0).filter(holds_lines()) =~= Seq::empty());
    } else {
        let p = upto - 1;
        lemma_flush_lines_handed(batch, npartitions, p, partition);
        let entry = (p as usize, lines_for(batch, npartitions, p as nat));
        assert(all.take(upto) =~= all.take(p).push(entry));
        all.take(p).lemma_filter_push(entry, holds_lines());
        let kept = all.take(p).filter(holds_lines());
        if holds_lines()(entry) {
            assert(kept.push(entry).drop_last() =~= kept);
            if p == partition {
                assert(Seq::<Seq<u8>>::empty() + entry.1 =~= entry.1);
            }
        } else if p == partition {
            assert(entry.1 =~= Seq::<Seq<u8>>::empty());
        }
    }
}

/// Whether a line belongs to a partition before `upto`.
spec fn before_partition(npartitions: nat, upto: int) -> spec_fn(Seq<u8>) -> bool {
    |line: Seq<u8>| partition_of(line, npartitions) < upto
}

/// Up to any partition, the lines in the flushes of a batch are, counted
/// with their repetitions, the batch's lines of the partitions before it.
proof fn lemma_flush_lines_counted(batch: Seq<Seq<u8>>, npartitions: nat, upto: int)
    requires
        npartitions <= usize::MAX,
        0 <= upto <= npartitions,
    ensures
        all_lines(line_entries(batch, npartitions).take(upto).filter(holds_lines())).to_multiset()
            == batch.filter(before_partition(npartitions, upto)).to_multiset(),
    decreases upto,
{
    broadcast use vstd::seq_lib::group_to_multiset_ensures;

    let all = line_entries(batch, npartitions);
    let below = before_partition(npartitions, upto);
    if upto == 0 {
        reveal(Seq::filter);
        assert(all.take(0).filter(holds_lines()) =~= Seq::empty());
        batch.lemma_all_neg_filter_empty(below);
    } else {
        let p = upto - 1;
        lemma_flush_lines_counted(batch, npartitions, p);
        let before = before_partition(npartitions, p);
        let entry = (p as usize, lines_for(batch, npartitions, p as nat));
        assert(all.take(upto) =~= all.take(p).push(entry));
        all.take(p).lemma_filter_push(entry, holds_lines());
        let kept = all.take(p).filter(holds_lines());
        if holds_lines()(entry) {
            assert(kept.push(entry).drop_last() =~= kept);
        } else {
            assert(entry.1 =~= Seq::<Seq<u8>>::empty());
            assert(all_lines(kept) + entry.1 =~= all_lines(kept));
        }
        vstd::seq_lib::lemma_multiset_commutative(all_lines(kept), entry.1);
        lemma_filter_split(batch, before, in_partition(npartitions, p as nat), below);
    }
}

/// Lines that pass one of two tests that no line passes both of are, counted
/// with their repetitions, those that pass the one and those that pass the
/// other.
proof fn lemma_filter_split(
    lines: Seq<Seq<u8>>,
    one: spec_fn(Seq<u8>) -> bool,
    other: spec_fn(Seq<u8>) -> bool,
    either: spec_fn(Seq<u8>) -> bool,
)
    requires
        forall|l: Seq<u8>| #[trigger] either(l) <==> one(l) || other(l),
        forall|l: Seq<u8>| !(#[trigger] one(l) && other(l)),
    ensures
        lines.filter(either).to_multiset() == lines.filter(one).to_multiset().add(
            lines.filter(other).to_multiset(),
        ),
    decreases lines.len(),
{
    broadcast use vstd::seq_lib::group_to_multiset_ensures;

    if lines.len() == 0 {
        reveal(Seq::filter);
        assert(lines.filter(either).to_multiset() =~= lines.filter(one).to_multiset().add(
            lines.filter(other).to_multiset(),
        ));
    } else {
        let front = lines.drop_last();
        let last = lines.last();
        lemma_filter_split(front, one, other, either);
        assert(lines =~= front.push(last));
        front.lemma_filter_push(last, one);
        front.lemma_filter_push(last, other);
        front.lemma_filter_push(last, either);
        assert(either(last) <==> one(last) || other(last));
        assert(!(one(last) && other(last)));
        assert(lines.filter(either).to_multiset() =~= lines.filter(one).to_multiset().add(
            lines.filter(other).to_multiset(),
        ));
    }
}

proof fn lemma_filter_all(lines: Seq<Seq<u8>>, pred: spec_fn(Seq<u8>) -> bool)
    requires
        forall|l: Seq<u8>| #[trigger] pred(l),
    ensures
        lines.filter(pred) == lines,
    decreases lines.len(),
{
    reveal(Seq::filter);
    if lines.len() > 0 {
        lemma_filter_all(lines.drop_last(), pred);
        assert(lines.drop_last().push(lines.last()) =~= lines);
    }
}

/// Key locality: whatever is flushed is flushed for one of the partitions,
/// and every line in it belongs to that partition.
pub proof fn lemma_key_locality(lines: Seq<Seq<u8>>, npartitions: nat, bufsize: nat)
    requires
        npartitions <= usize::MAX,
    ensures
        key_local(shard_lines(lines, npartitions, bufsize), npartitions),
    decreases lines.len(),
{
    if lines.len() > 0 {
        lemma_batch_len(lines, bufsize as int);
        let first = batch_len(lines, bufsize as int) as int;
        let batch = lines.take(first);
        let flush = flush_lines(batch, npartitions);
        let rest = shard_lines(lines.skip(first), npartitions, bufsize);
        lemma_key_locality(lines.skip(first), npartitions, bufsize);
        let all = flush + rest;
        assert forall|i: int| 0 <= i < all.len() implies (#[trigger] all[i]).0 < npartitions by {
            if i < flush.len() {
                lemma_flush_lines_entry(batch, npartitions, i);
            } else {
                assert(all[i] == rest[i - flush.len()]);
            }
        }
        assert forall|i: int, j: int|
            0 <= i < all.len() && 0 <= j < all[i].1.len() implies partition_of(
            #[trigger] all[i].1[j],
            npartitions,
        ) == all[i].0 by {
            if i < flush.len() {
                lemma_flush_lines_entry(batch, npartitions, i);
                batch.lemma_filter_pred(in_partition(npartitions, flush[i].0 as nat), j);
            } else {
                assert(all[i].1[j] == rest[i - flush.len()].1[j]);
            }
        }
    }
}

/// Order within a buffer: whatever is flushed holds a line at least, and
/// holds the lines of its partition among some run of consecutive input lines,
/// in the order of the input.
pub proof fn lemma_buffer_order(lines: Seq<Seq<u8>>, npartitions: nat, bufsize: nat)
    requires
        npartitions <= usize::MAX,
    ensures
        in_input_order(shard_lines(lines, npartitions, bufsize), lines, npartitions),
    decreases lines.len(),
{
    if lines.len() > 0 {
        lemma_batch_len(lines, bufsize as int);
        let first = batch_len(lines, bufsize as int) as int;
        let batch = lines.take(first);
        let later = lines.skip(first);
        let flush = flush_lines(batch, npartitions);
        let rest = shard_lines(later, npartitions, bufsize);
        lemma_buffer_order(later, npartitions, bufsize);
        let all = flush + rest;
        assert forall|i: int| 0 <= i < all.len() implies (#[trigger] all[i]).1.len() > 0
            && exists|a: int, b: int|
            0 <= a <= b <= lines.len() && all[i].1 == lines_for(
                #[trigger] lines.subrange(a, b),
                npartitions,
                all[i].0 as nat,
            ) by {
            if i < flush.len() {
                lemma_flush_lines_entry(batch, npartitions, i);
                assert(lines.subrange(0, first) =~= batch);
            } else {
                let e = rest[i - flush.len()];
                assert(all[i] == e);
                let (a, b) = choose|a: int, b: int|
                    0 <= a <= b <= later.len() && e.1 == lines_for(
                        #[trigger] later.subrange(a, b),
                        npartitions,
                        e.0 as nat,
                    );
                assert(lines.subrange(a + first, b + first) =~= later.subrange(a, b));
            }
        }
    }
}

/// Every partition is handed, flush after flush, the input lines that belong
/// to it, in the order of the input: each of them once, and no other line.
pub proof fn lemma_partition_lines(
    lines: Seq<Seq<u8>>,
    npartitions: nat,
    bufsize: nat,
    partition: nat,
)
    requires
        partition < npartitions <= usize::MAX,
    ensures
        handed_to(shard_lines(lines, npartitions, bufsize), partition) == lines_for(
            lines,
            npartitions,
            partition,
        ),
    decreases lines.len(),
{
    if lines.len() == 0 {
        reveal(Seq::filter);
    } else {
        lemma_batch_len(lines, bufsize as int);
        let first = batch_len(lines, bufsize as int) as int;
        let batch = lines.take(first);
        let later = lines.skip(first);
        let flush = flush_lines(batch, npartitions);
        let rest = shard_lines(later, npartitions, bufsize);
        lemma_partition_lines(later, npartitions, bufsize, partition);
        lemma_handed_to_add(flush, rest, partition);
        lemma_flush_lines_handed(batch, npartitions, npartitions as int, partition);
        assert(line_entries(batch, npartitions).take(npartitions as int) =~= line_entries(
            batch,
            npartitions,
        ));
        Seq::filter_distributes_over_add(batch, later, in_partition(npartitions, partition));
        assert(batch + later =~= lines);
    }
}

/// Conservation: the lines flushed are, counted with their repetitions, the
/// input lines.
pub proof fn lemma_lines_conserved(lines: Seq<Seq<u8>>, npartitions: nat, bufsize: nat)
    requires
        0 < npartitions <= usize::MAX,
    ensures
        all_lines(shard_lines(lines, npartitions, bufsize)).to_multiset() == lines.to_multiset(),
    decreases lines.len(),
{
    if lines.len() > 0 {
        lemma_batch_len(lines, bufsize as int);
        let first = batch_len(lines, bufsize as int) as int;
        let batch = lines.take(first);
        let later = lines.skip(first);
        let flush = flush_lines(batch, npartitions);
        let rest = shard_lines(later, npartitions, bufsize);
        lemma_lines_conserved(later, npartitions, bufsize);
        lemma_all_lines_add(flush, rest);
        lemma_flush_lines_counted(batch, npartitions, npartitions as int);
        assert(line_entries(batch, npartitions).take(npartitions as int) =~= line_entries(
            batch,
            npartitions,
        ));
        let below = before_partition(npartitions, npartitions as int);
        assert forall|l: Seq<u8>| #[trigger] below(l) by {
            vstd::arithmetic::div_mod::lemma_mod_pos_bound(
                key_hash(key_of(l)) as int,
                npartitions as int,
            );
        }
        lemma_filter_all(batch, below);
        vstd::seq_lib::lemma_multiset_commutative(all_lines(flush), all_lines(rest));
        vstd::seq_lib::lemma_multiset_commutative(batch, later);
        assert(batch + later =~= lines);
    } else {
        assert(lines =~= Seq::empty());
    }
}

/// The bytes that `handed`, buffers with their partitions, bring to
/// `partition`, buffer after buffer.
pub open spec fn bytes_to(handed: Seq<(usize, Seq<u8>)>, partition: nat) -> Seq<u8>
    decreases handed.len(),
{
    if handed.len() == 0 {
        Seq::empty()
    } else if handed.last().0 == partition {
        bytes_to(handed.drop_last(), partition) + handed.last().1
    } else {
        bytes_to(handed.drop_last(), partition)
    }
}

proof fn lemma_bytes_to_joined(flushes: Seq<(usize, Seq<Seq<u8>>)>, partition: nat)
    ensures
        bytes_to(joined(flushes), partition) == handed_to(flushes, partition).flatten(),
    decreases flushes.len(),
{
    if flushes.len() > 0 {
        let front = flushes.drop_last();
        lemma_bytes_to_joined(front, partition);
        assert(joined(flushes).drop_last() =~= joined(front));
        vstd::seq_lib::lemma_flatten_concat(handed_to(front, partition), flushes.last().1);
    }
}

/// What a partition receives: the buffers flushed for it hold, put together,
/// the input lines that belong to it, in the order of the input.
pub proof fn lemma_partition_bytes(
    lines: Seq<Seq<u8>>,
    npartitions: nat,
    bufsize: nat,
    partition: nat,
)
    requires
        partition < npartitions <= usize::MAX,
    ensures
        bytes_to(joined(shard_lines(lines, npartitions, bufsize)), partition) == lines_for(
            lines,
            npartitions,
            partition,
        ).flatten(),
{
    lemma_bytes_to_joined(shard_lines(lines, npartitions, bufsize), partition);
    lemma_partition_lines(lines, npartitions, bufsize, partition);
}

/// Determinism: two runs over the same lines with the same number of
/// partitions bring every partition the same bytes, whatever the sizes at
/// which the two flush.
pub proof fn lemma_runs_agree(
    lines: Seq<Seq<u8>>,
    npartitions: nat,
    bufsize: nat,
    other_bufsize: nat,
    partition: nat,
)
    requires
        partition < npartitions <= usize::MAX,
    ensures
        bytes_to(joined(shard_lines(lines, npartitions, bufsize)), partition) == bytes_to(
            joined(shard_lines(lines, npartitions, other_bufsize)),
            partition,
        ),
{
    lemma_partition_bytes(lines, npartitions, bufsize, partition);
    lemma_partition_bytes(lines, npartitions, other_bufsize, partition);
}

proof fn lemma_joined_add(a: Seq<(usize, Seq<Seq<u8>>)>, b: Seq<(usize, Seq<Seq<u8>>)>)
    ensures
        joined(a + b) == joined(a) + joined(b),
{
    assert(joined(a + b) =~= joined(a) + joined(b));
}

/// Buffers filled from the lines of a batch are flushed as the batch is.
proof fn lemma_flush_of_batch(bufs: Seq<Seq<u8>>, batch: Seq<Seq<u8>>)
    requires
        bufs.len() <= usize::MAX,
        forall|p: int|
            0 <= p < bufs.len() ==> #[trigger] bufs[p] == lines_for(
                batch,
                bufs.len(),
                p as nat,
            ).flatten(),
        forall|k: int| 0 <= k < batch.len() ==> (#[trigger] batch[k]).len() > 0,
    ensures
        flushed(bufs) == joined(flush_lines(batch, bufs.len())),
{
    lemma_flushed_joined(bufs, batch, bufs.len() as int);
    assert(entries(bufs).take(bufs.len() as int) =~= entries(bufs));
    assert(line_entries(batch, bufs.len()).take(bufs.len() as int) =~= line_entries(
        batch,
        bufs.len(),
    ));
}

/// What buffers `bufs` hand on when `lines` are added to them one by one,
/// with a flush whenever they hold `bufsize` bytes or more, and a flush after
/// the last line.
pub open spec fn fed(bufs: Seq<Seq<u8>>, bufsize: nat, lines: Seq<Seq<u8>>) -> Seq<
    (usize, Seq<u8>),
>
    decreases lines.len(),
{
    if lines.len() == 0 {
        flushed(bufs)
    } else {
        let after = routed(bufs, lines[0]);
        if pending_bytes(after) >= bufsize {
            flushed(after) + fed(emptied(bufs.len()), bufsize, lines.skip(1))
        } else {
            fed(after, bufsize, lines.skip(1))
        }
    }
}

/// Buffers that hold the lines of a batch not yet full go on, line by line,
/// as the batch goes on.
proof fn lemma_fed_batch(
    bufs: Seq<Seq<u8>>,
    batch: Seq<Seq<u8>>,
    rest: Seq<Seq<u8>>,
    bufsize: nat,
)
    requires
        0 < bufs.len() <= usize::MAX,
        forall|p: int|
            0 <= p < bufs.len() ==> #[trigger] bufs[p] == lines_for(
                batch,
                bufs.len(),
                p as nat,
            ).flatten(),
        pending_bytes(bufs) == batch.flatten().len(),
        batch.len() > 0 ==> batch.flatten().len() < bufsize,
        forall|k: int| 0 <= k < batch.len() ==> (#[trigger] batch[k]).len() > 0,
        forall|k: int| 0 <= k < rest.len() ==> (#[trigger] rest[k]).len() > 0,
    ensures
        fed(bufs, bufsize, rest) == joined(shard_lines(batch + rest, bufs.len(), bufsize)),
    decreases rest.len(),
{
    let n = bufs.len();
    if rest.len() == 0 {
        assert(batch + rest =~= batch);
        lemma_flush_of_batch(bufs, batch);
        if batch.len() > 0 {
            lemma_batch_all(batch, bufsize as int);
            assert(batch.take(batch.len() as int) =~= batch);
            assert(shard_lines(batch.skip(batch.len() as int), n, bufsize) =~= Seq::empty());
            assert(shard_lines(batch, n, bufsize) =~= flush_lines(batch, n));
        } else {
            assert(flush_lines(batch, n) =~= Seq::empty()) by {
                assert forall|p: int| 0 <= p < n implies !holds_lines()(
                    #[trigger] line_entries(batch, n)[p],
                ) by {
                    reveal(Seq::filter);
                }
                line_entries(batch, n).lemma_all_neg_filter_empty(holds_lines());
            }
        }
    } else {
        let line = rest[0];
        let later = rest.skip(1);
        let grown = batch.push(line);
        let after = routed(bufs, line);
        let q = partition_of(line, n) as int;
        vstd::arithmetic::div_mod::lemma_mod_pos_bound(key_hash(key_of(line)) as int, n as int);
        lemma_pending_routed(bufs, q, line);
        batch.lemma_flatten_push(line);
        assert(batch + rest =~= grown + later);
        assert forall|p: int| 0 <= p < n implies #[trigger] after[p] == lines_for(
            grown,
            n,
            p as nat,
        ).flatten() by {
            batch.lemma_filter_push(line, in_partition(n, p as nat));
            if p == q {
                lines_for(batch, n, p as nat).lemma_flatten_push(line);
            }
        }
        if pending_bytes(after) >= bufsize {
            let none = Seq::<Seq<u8>>::empty();
            let all = grown + later;
            let k = grown.len() as int;
            assert(all.take(k) =~= grown);
            assert(all.take(k - 1) =~= batch);
            assert(all.skip(k) =~= later);
            lemma_batch_full(all, bufsize as int, k);
            lemma_flush_of_batch(after, grown);
            lemma_joined_add(flush_lines(grown, n), shard_lines(later, n, bufsize));
            assert forall|p: int| 0 <= p < n implies #[trigger] emptied(n)[p] == lines_for(
                none,
                n,
                p as nat,
            ).flatten() by {
                reveal(Seq::filter);
            }
            lemma_pending_emptied(n);
            lemma_fed_batch(emptied(n), none, later, bufsize);
            assert(none + later =~= later);
        } else {
            lemma_fed_batch(after, grown, later, bufsize);
        }
    }
}

/// Lines added one by one to empty buffers, with a flush after the last line,
/// are handed on as `shard_lines` says: batch by batch, each partition's lines
/// of a batch in one buffer.
pub proof fn lemma_fed_is_sharded(lines: Seq<Seq<u8>>, npartitions: nat, bufsize: nat)
    requires
        0 < npartitions <= usize::MAX,
        forall|k: int| 0 <= k < lines.len() ==> (#[trigger] lines[k]).len() > 0,
    ensures
        fed(emptied(npartitions), bufsize, lines) == joined(
            shard_lines(lines, npartitions, bufsize),
        ),
{
    let none = Seq::<Seq<u8>>::empty();
    assert forall|p: int| 0 <= p < npartitions implies #[trigger] emptied(npartitions)[p]
        == lines_for(none, npartitions, p as nat).flatten() by {
        reveal(Seq::filter);
    }
    lemma_pending_emptied(npartitions);
    lemma_fed_batch(emptied(npartitions), none, lines, bufsize);
    assert(none + lines =~= lines);
}

/// Reads `data` line by line to its end and gathers each line, terminator
/// included, in the buffer of the partition that the line's key hashes to.
/// Whenever the buffers together hold `bufsize` bytes or more, every buffer
/// that holds a byte is handed on and all start over empty; after the last
/// line, what is left is handed on in the same way.
///
/// Returns what was handed on, in order: pairs of a partition and a buffer
/// of whole lines that belong to it.
pub fn shard(data: &[u8], npartitions: usize, bufsize: usize) -> (out: Vec<(usize, Vec<u8>)>)
    requires
        npartitions > 0,
    ensures
        emissions(out@) == joined(
            shard_lines(split_lines(data@), npartitions as nat, bufsize as nat),
        ),
        ({
            let lines = split_lines(data@);
            let flushes = shard_lines(lines, npartitions as nat, bufsize as nat);
            &&& key_local(flushes, npartitions as nat)
            &&& in_input_order(flushes, lines, npartitions as nat)
            &&& all_lines(flushes).to_multiset() == lines.to_multiset()
            &&& forall|p: nat|
                p < npartitions ==> #[trigger] bytes_to(emissions(out@), p) == lines_for(
                    lines,
                    npartitions as nat,
                    p,
                ).flatten()
        }),
{
    let lines = byte_lines(data);
    let ghost all = split_lines(data@);
    let ghost n = npartitions as nat;
    let mut sharder = Sharder::new(npartitions, bufsize);
    let mut out: Vec<(usize, Vec<u8>)> = Vec::new();
    let mut i: usize = 0;
    proof {
        assert(all.skip(0) =~= all);
        assert(emissions(out@) + fed(emptied(n), bufsize as nat, all) =~= fed(
            emptied(n),
            bufsize as nat,
            all,
        ));
    }
    while i < lines.len()
        invariant
            i <= lines@.len(),
            byte_seqs(lines@) == all,
            sharder.well_formed(),
            sharder@.bufsize == bufsize,
            sharder@.bufs.len() == n,
            emissions(out@) + fed(sharder@.bufs, bufsize as nat, all.skip(i as int)) == fed(
                emptied(n),
                bufsize as nat,
                all,
            ),
        decreases lines@.len() - i,
    {
        let ghost handed = emissions(out@);
        let mut flushed_now = sharder.push_line(lines[i].as_slice());
        proof {
            assert(all.skip(i as int)[0] == lines@[i as int]@);
            assert(all.skip(i as int).skip(1) =~= all.skip(i as int + 1));
            assert(emissions(out@ + flushed_now@) =~= handed + emissions(flushed_now@));
        }
        out.append(&mut flushed_now);
        i = i + 1;
    }
    let ghost handed = emissions(out@);
    let mut last = sharder.flush();
    proof {
        assert(emissions(out@ + last@) =~= handed + emissions(last@));
        lemma_split_lines(data@);
        lemma_fed_is_sharded(all, n, bufsize as nat);
        lemma_key_locality(all, n, bufsize as nat);
        lemma_buffer_order(all, n, bufsize as nat);
        lemma_lines_conserved(all, n, bufsize as nat);
        assert forall|p: nat| p < n implies #[trigger] bytes_to(
            joined(shard_lines(all, n, bufsize as nat)),
            p,
        ) == lines_for(all, n, p).flatten() by {
            lemma_partition_bytes(all, n, bufsize as nat, p);
        }
    }
    out.append(&mut last);
    out
}

} // verus!
