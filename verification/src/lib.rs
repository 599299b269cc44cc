//! Sharded load balancing for line-oriented byte streams.
//!
//! Input files are cut into chunks of whole lines ([`fileblocks`]), one for
//! each reader that is to run in parallel. What the readers make of their
//! chunks is then routed line by line, by the hash of each line's leading
//! key, into one buffer for each partition, and the buffers are flushed
//! together whenever they are full ([`sharder`]), so that all lines with one
//! key reach one partition. Every partition writes to an output file of its
//! own ([`naming`]).
//!
//! All of it rests on what a line of a byte string is ([`lines`]). What holds
//! of cutting and sharding together is proved in [`pipeline`].

pub mod fileblocks;
pub mod lines;
pub mod naming;
pub mod pipeline;
pub mod sharder;
