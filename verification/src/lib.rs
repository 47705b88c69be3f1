//! Compaction of the log files of a continuous backup.
//!
//! A backup stream leaves many small log files, each of one region and one
//! column family. They are merged into fewer, larger, sorted tables in two
//! steps. A collector groups the descriptors of arriving files into batches
//! of bounded size ([`collector`], [`stream`]). A worker then compacts one
//! batch at a time ([`worker`]): it loads the files ([`source`], [`event`],
//! [`load`]), merges their records ([`record`], [`merge`]), and writes them
//! into one table ([`table`], [`mem_table`]). Both keep count of what they
//! did ([`statistic`], [`ext`]).
//!
//! The library only computes; reading and storing bytes is left to the
//! caller. Around the compaction stand the bookkeeping of table files that
//! are handed out for upload ([`checkpoint`], [`segment_manager`]) and the
//! settings and limits of the worker pools that run all of this ([`pool`],
//! [`future_pool`], [`util`]).

pub mod bytes;
pub mod checkpoint;
pub mod collector;
pub mod collector_proofs;
pub mod errors;
pub mod event;
pub mod ext;
pub mod future_pool;
pub mod load;
pub mod mem_table;
pub mod merge;
pub mod pool;
pub mod record;
pub mod segment_manager;
pub mod source;
pub mod statistic;
pub mod storage;
pub mod stream;
pub mod table;
pub mod util;
pub mod worker;
