//! A table writer that keeps its entries in memory.
//!
//! The table's bytes are its entries in the format of log events. The writer
//! takes keys in strictly increasing order only, as every table writer does.

use crate::bytes::{bytes_lt, lex_lt};
use crate::errors::{Error, ErrorKind};
use crate::event::{
    decode, decode_events, encodable, encode_event_into, encode_events, event_views,
    lemma_decode_encode, lemma_encode_push, Event, EventView,
};
use crate::table::{FinishedTable, SstInfo, SstWriter};
use vstd::prelude::*;
use vstd::slice::slice_to_vec;

verus! {

/// Whether the keys of `entries` increase strictly.
pub open spec fn keys_increase(entries: Seq<EventView>) -> bool {
    forall|i: int, j: int|
        0 <= i < j < entries.len() ==> lex_lt((#[trigger] entries[i]).key, (#[trigger] entries[j]).key)
}

/// Whether a table that holds `entries` and has room for `limit` takes `key`
/// with `value` next: there is room, the key is beyond the last key, and both
/// are short enough to be encoded.
pub open spec fn takes(entries: Seq<EventView>, limit: usize, key: Seq<u8>, value: Seq<u8>) -> bool {
    &&& entries.len() < limit
    &&& key.len() <= u32::MAX
    &&& value.len() <= u32::MAX
    &&& entries.len() > 0 ==> lex_lt(entries.last().key, key)
}

/// A table that is built in memory.
#[derive(Debug)]
pub struct MemTable {
    entries: Vec<Event>,
    limit: usize,
}

impl MemTable {
    /// The number of entries that the table has room for.
    pub closed spec fn room(&self) -> usize {
        self.limit
    }

    /// A table without entries, with room for any number of them.
    pub fn new() -> (t: MemTable)
        ensures
            t.entries() == Seq::<EventView>::empty(),
            t.room() == usize::MAX,
    {
        let t = MemTable { entries: Vec::new(), limit: usize::MAX };
        assert(t.entries() =~= Seq::<EventView>::empty());
        t
    }

    /// A table without entries, with room for `limit` of them.
    pub fn with_limit(limit: usize) -> (t: MemTable)
        ensures
            t.entries() == Seq::<EventView>::empty(),
            t.room() == limit,
    {
        let t = MemTable { entries: Vec::new(), limit };
        assert(t.entries() =~= Seq::<EventView>::empty());
        t
    }

    /// The number of entries.
    pub fn len(&self) -> (n: usize)
        ensures
            n == self.entries().len(),
    {
        self.entries.len()
    }

    /// Reads the entries of a finished table back.
    pub fn read(content: &[u8]) -> (r: Result<Vec<Event>, Error>)
        ensures
            match r {
                Ok(entries) => decode(content@) == Some(event_views(entries@)) && event_views(
                    entries@,
                ) == Self::table_entries(content@),
                Err(e) => e.kind == ErrorKind::Decode && decode(content@) is None,
            },
    {
        decode_events(content)
    }
}

impl SstWriter for MemTable {
    closed spec fn entries(&self) -> Seq<EventView> {
        event_views(self.entries@)
    }

    open spec fn table_entries(content: Seq<u8>) -> Seq<EventView> {
        match decode(content) {
            Some(entries) => entries,
            None => Seq::empty(),
        }
    }

    /// Takes the entry where the table has room, the key is beyond the last
    /// key, and neither key nor value is too long; refuses it otherwise.
    fn put(&mut self, key: &[u8], value: &[u8]) -> (r: Result<(), Error>)
        ensures
            r is Ok <==> takes(old(self).entries(), old(self).room(), key@, value@),
            r matches Err(e) ==> e.kind == ErrorKind::TableWriter,
            final(self).room() == old(self).room(),
    {
        let ghost before = event_views(self.entries@);
        if self.entries.len() >= self.limit {
            return Err(Error::new(ErrorKind::TableWriter, String::from_str("the table is full")));
        }
        if key.len() > u32::MAX as usize || value.len() > u32::MAX as usize {
            return Err(
                Error::new(ErrorKind::TableWriter, String::from_str("the entry is too long")),
            );
        }
        let n = self.entries.len();
        if n > 0 {
            assert(before[n - 1] == self.entries@[n - 1]@);
            if !bytes_lt(self.entries[n - 1].key.as_slice(), key) {
                return Err(
                    Error::new(
                        ErrorKind::TableWriter,
                        String::from_str("keys must be put in increasing order"),
                    ),
                );
            }
        }
        let entry = Event { key: slice_to_vec(key), value: slice_to_vec(value) };
        assert(event_views(self.entries@.push(entry)) =~= before.push(entry@));
        self.entries.push(entry);
        Ok(())
    }

    /// Builds the table. Its bytes are the entries as encoded events. Fails
    /// where an entry is too long to be encoded.
    fn finish(self) -> (r: Result<FinishedTable, Error>)
        ensures
            r is Ok <==> encodable(self.entries()),
            r matches Ok(table) ==> table.content@ == encode_events(self.entries())
                && table.info.num_entries == self.entries().len() && table.info.file_size
                == table.content@.len(),
            r matches Err(e) ==> e.kind == ErrorKind::TableWriter,
    {
        let ghost views = event_views(self.entries@);
        let mut content: Vec<u8> = Vec::new();
        let mut i: usize = 0;
        assert(views.take(0) =~= Seq::<EventView>::empty());
        while i < self.entries.len()
            invariant
                i <= self.entries@.len(),
                views == event_views(self.entries@),
                encodable(views.take(i as int)),
                content@ == encode_events(views.take(i as int)),
            decreases self.entries@.len() - i,
        {
            assert(views[i as int] == self.entries@[i as int]@);
            if self.entries[i].key.len() > u32::MAX as usize || self.entries[i].value.len()
                > u32::MAX as usize {
                return Err(
                    Error::new(ErrorKind::TableWriter, String::from_str("an entry is too long")),
                );
            }
            proof {
                let now = views.take(i + 1);
                lemma_encode_push(views.take(i as int), views[i as int]);
                assert(now =~= views.take(i as int).push(views[i as int]));
                assert forall|j: int| 0 <= j < now.len() implies (#[trigger] now[j]).key.len()
                    <= u32::MAX && now[j].value.len() <= u32::MAX by {
                    if j < i {
                        assert(views.take(i as int)[j] == now[j]);
                    }
                }
            }
            encode_event_into(
                self.entries[i].key.as_slice(),
                self.entries[i].value.as_slice(),
                &mut content,
            );
            i += 1;
        }
        proof {
            assert(views.take(i as int) =~= views);
            lemma_decode_encode(views);
        }
        let info = SstInfo {
            num_entries: self.entries.len() as u64,
            file_size: content.len() as u64,
        };
        Ok(FinishedTable { info, content })
    }
}

} // verus!
