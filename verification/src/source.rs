//! Turning the stored bytes of one log file into its events.
//!
//! A log file is stored as a Zstandard stream of encoded events. Loading it
//! decompresses the stream, decodes the events, and counts what was read.

use crate::errors::{Error, ErrorKind};
use crate::event::{
    decode, decode_events, event_views, key_bytes, lemma_decoded_length, value_bytes, Event,
    EventView,
};
use crate::statistic::{LoadStatistic, LoadTotals};
use async_compression::futures::write::ZstdDecoder;
use futures::future::FutureExt;
use futures::io::{AsyncWriteExt, Cursor};
use vstd::prelude::*;

verus! {

/// The I/O error of std, which decompressing can fail with. It is handed on
/// as it is; nothing is known of what it holds.
#[verifier::external_type_specification]
#[verifier::external_body]
pub struct ExIoError(std::io::Error);

/// What the Zstandard stream decoder writes when it is fed `compressed` from
/// the first byte to the last and then flushed; `None` where it refuses the
/// input.
pub uninterp spec fn zstd_stream_output(compressed: Seq<u8>) -> Option<Seq<u8>>;

/// Decompresses a Zstandard stream with `ZstdDecoder` of async-compression:
/// the bytes are copied into the decoder by `futures::io::copy`, and the
/// decoder is flushed. Reader and writer are in memory, so each of the two
/// is done when it is polled once. Nothing is proved of it; the contract only
/// gives the outcome a name, which says that the same bytes always
/// decompress to the same result.
#[verifier::external_body]
fn zstd_decompress(compressed: &[u8]) -> (r: Result<Vec<u8>, std::io::Error>)
    ensures
        match r {
            Ok(content) => zstd_stream_output(compressed@) == Some(content@),
            Err(_) => zstd_stream_output(compressed@) is None,
        },
{
    let mut content = vec![];
    let mut decompress = ZstdDecoder::new(Cursor::new(&mut content));
    let pending = std::io::ErrorKind::WouldBlock;
    futures::io::copy(compressed, &mut decompress).now_or_never().unwrap_or(Err(pending.into()))?;
    decompress.flush().now_or_never().unwrap_or(Err(pending.into()))?;
    drop(decompress);
    Ok(content)
}

/// The text of an I/O error, as its `Display` of std writes it.
#[verifier::external_body]
fn io_error_text(e: &std::io::Error) -> String {
    e.to_string()
}

/// What loading one file counts: one file, its events, its stored bytes, and
/// the bytes of its keys and of its values.
pub open spec fn load_totals(physical_bytes: nat, events: Seq<EventView>) -> LoadTotals {
    LoadTotals {
        files_in: 1,
        keys_in: events.len(),
        physical_bytes_in: physical_bytes,
        logical_key_bytes_in: key_bytes(events),
        logical_value_bytes_in: value_bytes(events),
    }
}

/// The events of one file, and the counts of what was read for them.
#[derive(Debug)]
pub struct Loaded {
    pub events: Vec<Event>,
    pub stat: LoadStatistic,
}

/// What loading makes of a decompressed content: its events with their
/// counts, or nothing where the content is malformed.
pub open spec fn loaded_from(physical_bytes: nat, content: Seq<u8>) -> Option<
    (Seq<EventView>, LoadTotals),
> {
    match decode(content) {
        Some(events) => Some((events, load_totals(physical_bytes, events))),
        None => None,
    }
}

/// Whether `r` is what loading makes of `content`.
pub open spec fn loads_as(r: Result<Loaded, Error>, physical_bytes: nat, content: Seq<u8>) -> bool {
    match r {
        Ok(loaded) => loaded_from(physical_bytes, content) == Some(
            (event_views(loaded.events@), loaded.stat@),
        ),
        Err(e) => e.kind == ErrorKind::Decode && loaded_from(physical_bytes, content) is None,
    }
}

/// The prefix of a sequence of events adds no more bytes than the whole.
proof fn lemma_bytes_of_prefix(events: Seq<EventView>, i: int)
    requires
        0 <= i <= events.len(),
    ensures
        key_bytes(events.take(i)) <= key_bytes(events),
        value_bytes(events.take(i)) <= value_bytes(events),
        i < events.len() ==> key_bytes(events.take(i + 1)) == key_bytes(events.take(i)) + events[i].key.len(),
        i < events.len() ==> value_bytes(events.take(i + 1)) == value_bytes(events.take(i))
            + events[i].value.len(),
    decreases events.len() - i,
{
    if i == events.len() {
        assert(events.take(i) =~= events);
    } else {
        lemma_bytes_of_prefix(events, i + 1);
        assert(events.take(i + 1).drop_last() =~= events.take(i));
        assert(events.take(i + 1).last() == events[i]);
    }
}

/// Decodes the content of one file and counts what was read. `physical_bytes`
/// is the number of stored bytes that the content was decompressed from.
pub fn load_content(content: &[u8], physical_bytes: u64) -> (r: Result<Loaded, Error>)
    ensures
        loads_as(r, physical_bytes as nat, content@),
{
    let events = match decode_events(content) {
        Ok(events) => events,
        Err(e) => {
            return Err(e);
        },
    };
    let ghost views = event_views(events@);
    let content_len = content.len();
    proof {
        lemma_decoded_length(content@, 0);
        assert(key_bytes(views) + value_bytes(views) <= content_len);
    }
    let mut key_total: u64 = 0;
    let mut value_total: u64 = 0;
    let mut i: usize = 0;
    while i < events.len()
        invariant
            i <= events@.len(),
            views == event_views(events@),
            key_total == key_bytes(views.take(i as int)),
            value_total == value_bytes(views.take(i as int)),
            key_bytes(views) + value_bytes(views) <= usize::MAX,
        decreases events@.len() - i,
    {
        proof {
            lemma_bytes_of_prefix(views, i as int);
            lemma_bytes_of_prefix(views, i + 1);
        }
        key_total += events[i].key.len() as u64;
        value_total += events[i].value.len() as u64;
        i += 1;
    }
    assert(views.take(i as int) =~= views);
    let stat = LoadStatistic {
        files_in: 1,
        keys_in: events.len() as u64,
        physical_bytes_in: physical_bytes,
        logical_key_bytes_in: key_total,
        logical_value_bytes_in: value_total,
    };
    Ok(Loaded { events, stat })
}

/// Loads one file from its stored bytes: decompresses them, decodes the
/// events, and counts what was read. Fails with an I/O error where the bytes
/// do not decompress, and with a decode error where what they decompress to
/// is malformed.
pub fn load(raw: &[u8]) -> (r: Result<Loaded, Error>)
    ensures
        match zstd_stream_output(raw@) {
            Some(content) => loads_as(r, raw@.len(), content),
            None => r matches Err(e) && e.kind == ErrorKind::Io,
        },
{
    match zstd_decompress(raw) {
        Ok(content) => load_content(content.as_slice(), raw.len() as u64),
        Err(e) => Err(Error::new(ErrorKind::Io, io_error_text(&e))),
    }
}

} // verus!
