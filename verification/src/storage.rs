//! Descriptors of the log files that a backup stream has stored.

use std::sync::Arc;
use vstd::prelude::*;

verus! {

/// Where the bytes of one log file lie: a stored object and a range in it.
#[derive(Debug)]
pub struct LogFileId {
    pub name: String,
    pub offset: u64,
    pub length: u64,
}

impl LogFileId {
    /// Makes an id.
    pub fn new(name: String, offset: u64, length: u64) -> (id: LogFileId)
        ensures
            id.name == name,
            id.offset == offset,
            id.length == length,
    {
        LogFileId { name, offset, length }
    }

    /// A second id of the same range.
    pub fn duplicate(&self) -> (id: LogFileId)
        ensures
            id.name@ == self.name@,
            id.offset == self.offset,
            id.length == self.length,
    {
        LogFileId { name: self.name.clone(), offset: self.offset, length: self.length }
    }
}

/// What is known of one log file before it is read.
#[derive(Debug)]
pub struct LogFile {
    pub id: LogFileId,
    pub real_size: u64,
    pub region_id: u64,
    pub cf: &'static str,
    pub min_ts: u64,
    pub max_ts: u64,
    pub min_key: Arc<Vec<u8>>,
    pub max_key: Arc<Vec<u8>>,
}

/// A log file's descriptor as plain values.
pub struct FileView {
    pub id: LogFileId,
    pub real_size: nat,
    pub region_id: u64,
    pub cf: Seq<char>,
    pub min_ts: u64,
    pub max_ts: u64,
    pub min_key: Seq<u8>,
    pub max_key: Seq<u8>,
}

impl View for LogFile {
    type V = FileView;

    open spec fn view(&self) -> FileView {
        FileView {
            id: self.id,
            real_size: self.real_size as nat,
            region_id: self.region_id,
            cf: self.cf@,
            min_ts: self.min_ts,
            max_ts: self.max_ts,
            min_key: self.min_key@,
            max_key: self.max_key@,
        }
    }
}

} // verus!
