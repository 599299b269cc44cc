//! From files to partitions.
//!
//! A run cuts every input file into chunks, hands the bytes of each chunk to
//! a sharder of its own, and every sharder routes its lines to the
//! partitions. What is proved here holds of the two steps together.

use crate::fileblocks::{chunk_lines, lemma_chunks_hold_lines, split_ranges};
use crate::lines::split_lines;
use crate::sharder::{all_lines, lemma_lines_conserved, shard_lines};
use vstd::prelude::*;

verus! {

/// The lines that the sharders of the chunks `ranges` of `data` flush, chunk
/// after chunk and flush after flush.
pub open spec fn sharded_lines(
    data: Seq<u8>,
    ranges: Seq<(nat, nat)>,
    npartitions: nat,
    bufsize: nat,
) -> Seq<Seq<u8>>
    decreases ranges.len(),
{
    if ranges.len() == 0 {
        Seq::empty()
    } else {
        sharded_lines(data, ranges.drop_last(), npartitions, bufsize) + all_lines(
            shard_lines(
                split_lines(data.subrange(ranges.last().0 as int, ranges.last().1 as int)),
                npartitions,
                bufsize,
            ),
        )
    }
}

/// Whatever the chunks, their sharders flush, counted with their
/// repetitions, the lines that the chunks hold.
pub proof fn lemma_sharders_conserve_lines(
    data: Seq<u8>,
    ranges: Seq<(nat, nat)>,
    npartitions: nat,
    bufsize: nat,
)
    requires
        0 < npartitions <= usize::MAX,
    ensures
        sharded_lines(data, ranges, npartitions, bufsize).to_multiset() == chunk_lines(
            data,
            ranges,
        ).to_multiset(),
    decreases ranges.len(),
{
    if ranges.len() > 0 {
        let front = ranges.drop_last();
        let lines = split_lines(data.subrange(ranges.last().0 as int, ranges.last().1 as int));
        let flushed = all_lines(shard_lines(lines, npartitions, bufsize));
        lemma_sharders_conserve_lines(data, front, npartitions, bufsize);
        lemma_lines_conserved(lines, npartitions, bufsize);
        vstd::seq_lib::lemma_multiset_commutative(
            sharded_lines(data, front, npartitions, bufsize),
            flushed,
        );
        vstd::seq_lib::lemma_multiset_commutative(chunk_lines(data, front), lines);
    }
}

/// Conservation, from file to partitions: when a file is cut into chunks and
/// every chunk is sharded, the lines flushed are, counted with their
/// repetitions, the lines of the file.
pub proof fn lemma_run_conserves_lines(data: Seq<u8>, pieces: nat, npartitions: nat, bufsize: nat)
    requires
        1 <= pieces,
        0 < npartitions <= usize::MAX,
    ensures
        sharded_lines(data, split_ranges(data, pieces), npartitions, bufsize).to_multiset()
            == split_lines(data).to_multiset(),
{
    lemma_sharders_conserve_lines(data, split_ranges(data, pieces), npartitions, bufsize);
    lemma_chunks_hold_lines(data, pieces);
}

} // verus!
