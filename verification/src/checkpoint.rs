//! What a storage engine tells of its table files, level by level.

use crate::bytes::{bytes_eq, bytes_lt, lex_lt};
use crate::errors::Error;
use vstd::prelude::*;

verus! {

/// One table file: its name, the key at which it ends, and its place among
/// the files of its level.
#[derive(Debug)]
pub struct SstFileInfo {
    pub file_name: String,
    pub end_key: Vec<u8>,
    pub idx: usize,
}

/// A table file filed under the key at which it starts.
#[derive(Debug)]
pub struct LevelEntry {
    pub start_key: Vec<u8>,
    pub info: SstFileInfo,
}

/// The table files of one level, in the order of the keys at which they
/// start. No two files start at one key.
#[derive(Debug)]
pub struct LevelFiles {
    entries: Vec<LevelEntry>,
}

/// Whether the start keys of `entries` increase strictly.
pub open spec fn starts_increase(entries: Seq<LevelEntry>) -> bool {
    forall|i: int, j: int|
        0 <= i < j < entries.len() ==> lex_lt(
            (#[trigger] entries[i]).start_key@,
            (#[trigger] entries[j]).start_key@,
        )
}

/// The number of `entries` that start before `key`.
pub open spec fn rank(entries: Seq<LevelEntry>, key: Seq<u8>) -> int
    decreases entries.len(),
{
    if entries.len() == 0 {
        0
    } else if lex_lt(entries.last().start_key@, key) {
        rank(entries.drop_last(), key) + 1
    } else {
        rank(entries.drop_last(), key)
    }
}

/// In an increasing run, the entries that start before `key` are the first
/// ones.
pub proof fn lemma_rank_splits(entries: Seq<LevelEntry>, key: Seq<u8>)
    requires
        starts_increase(entries),
    ensures
        0 <= rank(entries, key) <= entries.len(),
        forall|i: int| 0 <= i < rank(entries, key) ==> lex_lt((#[trigger] entries[i]).start_key@, key),
        forall|i: int|
            rank(entries, key) <= i < entries.len() ==> !lex_lt((#[trigger] entries[i]).start_key@, key),
    decreases entries.len(),
{
    if entries.len() > 0 {
        let head = entries.drop_last();
        let n = head.len() as int;
        assert(starts_increase(head)) by {
            assert forall|i: int, j: int| 0 <= i < j < head.len() implies lex_lt(
                (#[trigger] head[i]).start_key@,
                (#[trigger] head[j]).start_key@,
            ) by {
                assert(lex_lt(entries[i].start_key@, entries[j].start_key@));
            }
        }
        lemma_rank_splits(head, key);
        if lex_lt(entries.last().start_key@, key) {
            assert forall|i: int| 0 <= i < n implies lex_lt((#[trigger] head[i]).start_key@, key) by {
                assert(lex_lt(entries[i].start_key@, entries[n].start_key@));
                crate::bytes::lemma_lex_transitive(
                    entries[i].start_key@,
                    entries[n].start_key@,
                    key,
                );
            }
            if rank(head, key) < n {
                assert(!lex_lt(head[rank(head, key)].start_key@, key));
            }
            assert forall|i: int| 0 <= i < rank(entries, key) implies lex_lt(
                (#[trigger] entries[i]).start_key@,
                key,
            ) by {
                if i < n {
                    assert(head[i] == entries[i]);
                }
            }
        } else {
            assert forall|i: int| 0 <= i < rank(entries, key) implies lex_lt(
                (#[trigger] entries[i]).start_key@,
                key,
            ) by {
                assert(head[i] == entries[i]);
            }
            assert forall|i: int| rank(entries, key) <= i < entries.len() implies !lex_lt(
                (#[trigger] entries[i]).start_key@,
                key,
            ) by {
                if i < n {
                    assert(head[i] == entries[i]);
                }
            }
        }
    }
}

impl View for LevelFiles {
    type V = Seq<LevelEntry>;

    closed spec fn view(&self) -> Seq<LevelEntry> {
        self.entries@
    }
}

impl LevelFiles {
    /// Whether the files are in the order of their start keys, each key once.
    pub open spec fn wf(&self) -> bool {
        starts_increase(self@)
    }

    /// A level without files.
    pub fn new() -> (l: LevelFiles)
        ensures
            l.wf(),
            l@ == Seq::<LevelEntry>::empty(),
    {
        LevelFiles { entries: Vec::new() }
    }

    /// The number of files.
    pub fn len(&self) -> (n: usize)
        ensures
            n == self@.len(),
    {
        self.entries.len()
    }

    /// The file at place `i` in the order of start keys.
    pub fn get(&self, i: usize) -> (e: &LevelEntry)
        requires
            i < self@.len(),
        ensures
            *e == self@[i as int],
    {
        &self.entries[i]
    }

    /// Sets the `idx` of the file at place `i`.
    pub fn set_idx(&mut self, i: usize, idx: usize)
        requires
            i < old(self)@.len(),
        ensures
            final(self)@.len() == old(self)@.len(),
            forall|j: int| 0 <= j < old(self)@.len() && j != i ==> final(self)@[j] == old(self)@[j],
            final(self)@[i as int].start_key == old(self)@[i as int].start_key,
            final(self)@[i as int].info.file_name == old(self)@[i as int].info.file_name,
            final(self)@[i as int].info.end_key == old(self)@[i as int].info.end_key,
            final(self)@[i as int].info.idx == idx,
            old(self).wf() ==> final(self).wf(),
    {
        self.entries[i].info.idx = idx;
        proof {
            if old(self).wf() {
                assert forall|a: int, b: int| 0 <= a < b < self@.len() implies lex_lt(
                    (#[trigger] self@[a]).start_key@,
                    (#[trigger] self@[b]).start_key@,
                ) by {
                    assert(lex_lt(old(self)@[a].start_key@, old(self)@[b].start_key@));
                }
            }
        }
    }

    /// Files `info` under `start_key`. A file that was filed under that key
    /// before is replaced and returned.
    pub fn insert(&mut self, start_key: Vec<u8>, info: SstFileInfo) -> (replaced: Option<SstFileInfo>)
        requires
            old(self).wf(),
        ensures
            final(self).wf(),
            match replaced {
                Some(was) => {
                    &&& rank(old(self)@, start_key@) < old(self)@.len()
                    &&& old(self)@[rank(old(self)@, start_key@)].start_key@ == start_key@
                    &&& was == old(self)@[rank(old(self)@, start_key@)].info
                    &&& final(self)@ == old(self)@.update(
                        rank(old(self)@, start_key@),
                        LevelEntry { start_key, info },
                    )
                },
                None => {
                    &&& forall|i: int|
                        0 <= i < old(self)@.len() ==> (#[trigger] old(self)@[i]).start_key@
                            != start_key@
                    &&& final(self)@ == old(self)@.insert(
                        rank(old(self)@, start_key@),
                        LevelEntry { start_key, info },
                    )
                },
            },
    {
        let ghost before = self.entries@;
        let ghost key = start_key@;
        proof {
            lemma_rank_splits(before, key);
        }
        let mut pos: usize = 0;
        while pos < self.entries.len() && bytes_lt(
            self.entries[pos].start_key.as_slice(),
            start_key.as_slice(),
        )
            invariant
                self.entries@ == before,
                key == start_key@,
                pos <= before.len(),
                forall|i: int| 0 <= i < pos ==> lex_lt((#[trigger] before[i]).start_key@, key),
            decreases before.len() - pos,
        {
            pos += 1;
        }
        proof {
            let r = rank(before, key);
            if pos < r {
                assert(lex_lt(before[pos as int].start_key@, key));
            }
            if r < pos {
                assert(lex_lt(before[r].start_key@, key));
            }
            assert(pos == r);
        }
        let entry = LevelEntry { start_key, info };
        if pos < self.entries.len() && bytes_eq(
            self.entries[pos].start_key.as_slice(),
            entry.start_key.as_slice(),
        ) {
            self.entries.push(entry);
            let was = self.entries.swap_remove(pos);
            proof {
                assert(self.entries@ =~= before.update(pos as int, entry));
                assert forall|a: int, b: int| 0 <= a < b < self@.len() implies lex_lt(
                    (#[trigger] self@[a]).start_key@,
                    (#[trigger] self@[b]).start_key@,
                ) by {
                    assert(lex_lt(before[a].start_key@, before[b].start_key@));
                }
            }
            Some(was.info)
        } else {
            proof {
                assert forall|i: int| 0 <= i < before.len() implies (#[trigger] before[i]).start_key@
                    != key by {
                    crate::bytes::lemma_lex_trichotomy(before[i].start_key@, key);
                    if i > pos {
                        assert(lex_lt(before[pos as int].start_key@, before[i].start_key@));
                        crate::bytes::lemma_lex_trichotomy(before[pos as int].start_key@, key);
                        if lex_lt(key, before[pos as int].start_key@) {
                            crate::bytes::lemma_lex_transitive(
                                key,
                                before[pos as int].start_key@,
                                before[i].start_key@,
                            );
                        }
                    }
                }
            }
            self.entries.insert(pos, entry);
            proof {
                let after = self.entries@;
                assert forall|a: int, b: int| 0 <= a < b < after.len() implies lex_lt(
                    (#[trigger] after[a]).start_key@,
                    (#[trigger] after[b]).start_key@,
                ) by {
                    let a0 = if a < pos { a } else { a - 1 };
                    let b0 = if b < pos { b } else { b - 1 };
                    if a == pos {
                        crate::bytes::lemma_lex_trichotomy(before[b0].start_key@, key);
                        assert(!lex_lt(before[b0].start_key@, key));
                        assert(before[b0].start_key@ != key);
                    } else if b == pos {
                        assert(lex_lt(before[a0].start_key@, key));
                    } else {
                        assert(lex_lt(before[a0].start_key@, before[b0].start_key@));
                    }
                }
            }
            None
        }
    }
}

/// The table files of a column family: how many there are, how many bytes
/// they hold, and the files of each level.
#[derive(Debug)]
pub struct ColumnFamilyMetadata {
    pub file_count: usize,
    pub file_size: usize,
    pub ssts: Vec<LevelFiles>,
}

/// An engine of which checkpoints can be made.
pub trait Checkpointable: Sized {
    type Checkpointer: Checkpointer;

    /// Makes the handle through which checkpoints of this engine are made.
    fn new_checkpointer(&self) -> Result<Self::Checkpointer, Error>;

    /// Merges other engines into this one.
    fn merge(&self, dbs: &[&Self]) -> Result<(), Error>;
}

/// A handle through which checkpoints of an engine are made.
pub trait Checkpointer {
    /// Makes a checkpoint in the directory `db_out_dir`.
    fn create_at(
        &mut self,
        db_out_dir: &str,
        titan_out_dir: Option<&str>,
        log_size_for_flush: u64,
    ) -> Result<(), Error>;

    /// What the engine holds of the column family `cf`.
    fn column_family_meta_data(&self, cf: &'static str) -> Result<ColumnFamilyMetadata, Error>;
}

} // verus!
