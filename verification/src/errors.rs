//! What can go wrong while a batch is compacted.

use vstd::prelude::*;

verus! {

/// The phase that failed.
#[derive(Debug, Clone, Copy, PartialEq, Eq, Structural)]
pub enum ErrorKind {
    /// Reading, decompressing or writing stored bytes failed.
    Io,
    /// A log file's records are malformed.
    Decode,
    /// The table writer refused a key or could not build the table.
    TableWriter,
    /// A key of a file does not start with what the bounds of its batch have
    /// in common.
    KeyOutOfRange,
}

/// A place that an error passed through on its way to the caller.
#[derive(Debug, Clone, Copy, PartialEq, Eq, Structural)]
pub enum Frame {
    /// The operator that groups file descriptors into batches.
    Collector,
    /// Loading the files of a batch.
    Load,
    /// Writing the merged records into a table.
    WriteTable,
    /// Storing the finished table.
    Save,
}

/// An error, with the places that handed it on, innermost first.
#[derive(Debug)]
pub struct Error {
    pub kind: ErrorKind,
    pub message: String,
    pub frames: Vec<Frame>,
}

impl Error {
    /// An error that has not been handed on yet.
    pub fn new(kind: ErrorKind, message: String) -> (e: Error)
        ensures
            e.kind == kind,
            e.message == message,
            e.frames@ == Seq::<Frame>::empty(),
    {
        Error { kind, message, frames: Vec::new() }
    }

    /// Records that the error passed through `frame`.
    pub fn attach_frame(self, frame: Frame) -> (e: Error)
        ensures
            e.kind == self.kind,
            e.message == self.message,
            e.frames@ == self.frames@.push(frame),
    {
        let mut e = self;
        e.frames.push(frame);
        e
    }

    /// What the error says, with the kind in front.
    pub fn describe(&self) -> (s: String)
        ensures
            s@ == kind_label(self.kind) + ": "@ + self.message@,
    {
        let label = match self.kind {
            ErrorKind::Io => "I/O error",
            ErrorKind::Decode => "decode error",
            ErrorKind::TableWriter => "table writer error",
            ErrorKind::KeyOutOfRange => "key out of range",
        };
        let mut s = String::from_str(label);
        s.append(": ");
        s.append(self.message.as_str());
        s
    }
}

/// The words that stand for a kind of error.
pub open spec fn kind_label(kind: ErrorKind) -> Seq<char> {
    match kind {
        ErrorKind::Io => "I/O error"@,
        ErrorKind::Decode => "decode error"@,
        ErrorKind::TableWriter => "table writer error"@,
        ErrorKind::KeyOutOfRange => "key out of range"@,
    }
}

} // verus!
