//! The format of a log file's content: key/value events, one after the other.
//!
//! An event is the length of its key as four little-endian bytes, the key,
//! the length of its value as four little-endian bytes, and the value.

use crate::errors::{Error, ErrorKind};
use vstd::bytes::{
    lemma_auto_spec_u32_to_from_le_bytes, spec_u32_from_le_bytes, spec_u32_to_le_bytes,
    u32_from_le_bytes, u32_to_le_bytes,
};
use vstd::prelude::*;
use vstd::slice::{slice_subrange, slice_to_vec};

verus! {

/// A key with its value.
#[derive(Debug)]
pub struct Event {
    pub key: Vec<u8>,
    pub value: Vec<u8>,
}

/// A key with its value, as plain values.
pub struct EventView {
    pub key: Seq<u8>,
    pub value: Seq<u8>,
}

impl View for Event {
    type V = EventView;

    open spec fn view(&self) -> EventView {
        EventView { key: self.key@, value: self.value@ }
    }
}

/// The events as plain values.
pub open spec fn event_views(events: Seq<Event>) -> Seq<EventView> {
    Seq::new(events.len(), |i: int| events[i]@)
}

/// A byte string with its length in front.
pub open spec fn encode_field(field: Seq<u8>) -> Seq<u8> {
    spec_u32_to_le_bytes(field.len() as u32) + field
}

/// The bytes of one event.
pub open spec fn encode_event(e: EventView) -> Seq<u8> {
    encode_field(e.key) + encode_field(e.value)
}

/// The bytes of a sequence of events.
pub open spec fn encode_events(events: Seq<EventView>) -> Seq<u8>
    decreases events.len(),
{
    if events.len() == 0 {
        Seq::empty()
    } else {
        encode_event(events[0]) + encode_events(events.skip(1))
    }
}

/// Whether the key and the value of every event are short enough for their
/// lengths to be written in four bytes.
pub open spec fn encodable(events: Seq<EventView>) -> bool {
    forall|i: int|
        0 <= i < events.len() ==> (#[trigger] events[i]).key.len() <= u32::MAX
            && events[i].value.len() <= u32::MAX
}

/// The length-prefixed byte string that starts at `at`, and where it ends;
/// `None` where `buf` ends before it.
pub open spec fn field_at(buf: Seq<u8>, at: int) -> Option<(Seq<u8>, int)> {
    if 0 <= at && at + 4 <= buf.len() {
        let n = spec_u32_from_le_bytes(buf.subrange(at, at + 4)) as int;
        if at + 4 + n <= buf.len() {
            Some((buf.subrange(at + 4, at + 4 + n), at + 4 + n))
        } else {
            None
        }
    } else {
        None
    }
}

/// The event that starts at `at`, and where it ends; `None` where `buf` ends
/// before it.
pub open spec fn event_at(buf: Seq<u8>, at: int) -> Option<(EventView, int)> {
    match field_at(buf, at) {
        Some((key, mid)) => match field_at(buf, mid) {
            Some((value, end)) => Some((EventView { key, value }, end)),
            None => None,
        },
        None => None,
    }
}

/// The events that `buf` holds from `at` on; `None` where the last of them is
/// cut short.
pub open spec fn decode_from(buf: Seq<u8>, at: int) -> Option<Seq<EventView>>
    decreases buf.len() - at,
{
    if at >= buf.len() {
        Some(Seq::empty())
    } else {
        match event_at(buf, at) {
            None => None,
            Some((e, end)) => match decode_from(buf, end) {
                None => None,
                Some(rest) => Some(seq![e] + rest),
            },
        }
    }
}

/// The events that `buf` holds; `None` where `buf` is malformed.
pub open spec fn decode(buf: Seq<u8>) -> Option<Seq<EventView>> {
    decode_from(buf, 0)
}

/// The sum of the lengths of the keys.
pub open spec fn key_bytes(events: Seq<EventView>) -> nat
    decreases events.len(),
{
    if events.len() == 0 {
        0
    } else {
        key_bytes(events.drop_last()) + events.last().key.len()
    }
}

/// The sum of the lengths of the values.
pub open spec fn value_bytes(events: Seq<EventView>) -> nat
    decreases events.len(),
{
    if events.len() == 0 {
        0
    } else {
        value_bytes(events.drop_last()) + events.last().value.len()
    }
}

/// Appends one event to `out`.
pub fn encode_event_into(key: &[u8], value: &[u8], out: &mut Vec<u8>)
    requires
        key@.len() <= u32::MAX,
        value@.len() <= u32::MAX,
    ensures
        final(out)@ == old(out)@ + encode_event(EventView { key: key@, value: value@ }),
{
    let ghost before = out@;
    let mut key_len = u32_to_le_bytes(key.len() as u32);
    let mut value_len = u32_to_le_bytes(value.len() as u32);
    out.append(&mut key_len);
    out.extend_from_slice(key);
    out.append(&mut value_len);
    out.extend_from_slice(value);
    assert(out@ =~= before + encode_event(EventView { key: key@, value: value@ }));
}

/// Reads the events of a buffer one by one.
pub struct EventIterator<'a> {
    buf: &'a [u8],
    offset: usize,
    key_offset: usize,
    value_offset: usize,
    key_len: usize,
    value_len: usize,
    at_event: bool,
}

impl<'a> EventIterator<'a> {
    /// The buffer that is read.
    pub closed spec fn buffer(&self) -> Seq<u8> {
        self.buf@
    }

    /// Where the next event starts.
    pub closed spec fn position(&self) -> int {
        self.offset as int
    }

    /// Whether the iterator stands at an event.
    pub closed spec fn spec_valid(&self) -> bool {
        self.at_event
    }

    /// The event that the iterator stands at.
    pub closed spec fn current(&self) -> EventView {
        EventView {
            key: self.buf@.subrange(self.key_offset as int, self.key_offset + self.key_len),
            value: self.buf@.subrange(self.value_offset as int, self.value_offset + self.value_len),
        }
    }

    /// Whether the iterator's offsets lie inside the buffer.
    pub closed spec fn wf(&self) -> bool {
        &&& self.offset <= self.buf@.len()
        &&& self.at_event ==> {
            &&& self.key_offset + self.key_len <= self.value_offset
            &&& self.value_offset + self.value_len == self.offset
        }
    }

    /// An iterator before the first event of `buf`.
    pub fn new(buf: &'a [u8]) -> (it: EventIterator<'a>)
        ensures
            it.wf(),
            it.buffer() == buf@,
            it.position() == 0,
            !it.spec_valid(),
    {
        EventIterator {
            buf,
            offset: 0,
            key_offset: 0,
            value_offset: 0,
            key_len: 0,
            value_len: 0,
            at_event: false,
        }
    }

    fn read_field(&self, at: usize) -> (r: Option<(usize, usize)>)
        requires
            at <= self.buf@.len(),
        ensures
            match r {
                Some((start, len)) => {
                    &&& start == at + 4
                    &&& start + len <= self.buf@.len()
                    &&& field_at(self.buf@, at as int) == Some(
                        (self.buf@.subrange(start as int, start + len), start + len),
                    )
                },
                None => field_at(self.buf@, at as int) is None,
            },
    {
        let total = self.buf.len();
        if total - at < 4 {
            return None;
        }
        let n = u32_from_le_bytes(slice_subrange(self.buf, at, at + 4)) as usize;
        if total - at - 4 < n {
            return None;
        }
        Some((at + 4, n))
    }

    /// Moves to the next event. At the end of the buffer the iterator stops
    /// being valid. Fails where the buffer ends inside an event.
    pub fn next(&mut self) -> (r: Result<(), Error>)
        requires
            old(self).wf(),
        ensures
            final(self).wf(),
            final(self).buffer() == old(self).buffer(),
            match r {
                Ok(()) => if old(self).position() == old(self).buffer().len() {
                    !final(self).spec_valid() && final(self).position() == old(self).position()
                } else {
                    &&& final(self).spec_valid()
                    &&& event_at(old(self).buffer(), old(self).position()) == Some(
                        (final(self).current(), final(self).position()),
                    )
                },
                Err(e) => {
                    &&& e.kind == ErrorKind::Decode
                    &&& old(self).position() < old(self).buffer().len()
                    &&& event_at(old(self).buffer(), old(self).position()) is None
                },
            },
    {
        if self.offset == self.buf.len() {
            self.at_event = false;
            return Ok(());
        }
        let (key_offset, key_len) = match self.read_field(self.offset) {
            Some(field) => field,
            None => {
                return Err(Error::new(ErrorKind::Decode, String::from_str("event key is cut short")));
            },
        };
        let (value_offset, value_len) = match self.read_field(key_offset + key_len) {
            Some(field) => field,
            None => {
                return Err(
                    Error::new(ErrorKind::Decode, String::from_str("event value is cut short")),
                );
            },
        };
        self.key_offset = key_offset;
        self.key_len = key_len;
        self.value_offset = value_offset;
        self.value_len = value_len;
        self.offset = value_offset + value_len;
        self.at_event = true;
        Ok(())
    }

    /// Whether the iterator stands at an event.
    pub fn valid(&self) -> (v: bool)
        ensures
            v == self.spec_valid(),
    {
        self.at_event
    }

    /// The key of the event that the iterator stands at.
    pub fn key(&self) -> (k: &'a [u8])
        requires
            self.wf(),
            self.spec_valid(),
        ensures
            k@ == self.current().key,
    {
        slice_subrange(self.buf, self.key_offset, self.key_offset + self.key_len)
    }

    /// The value of the event that the iterator stands at.
    pub fn value(&self) -> (v: &'a [u8])
        requires
            self.wf(),
            self.spec_valid(),
        ensures
            v@ == self.current().value,
    {
        slice_subrange(self.buf, self.value_offset, self.value_offset + self.value_len)
    }
}

/// Reads all events of `buf`. Fails where `buf` ends inside an event.
pub fn decode_events(buf: &[u8]) -> (r: Result<Vec<Event>, Error>)
    ensures
        match r {
            Ok(events) => decode(buf@) == Some(event_views(events@)),
            Err(e) => e.kind == ErrorKind::Decode && decode(buf@) is None,
        },
{
    let mut events: Vec<Event> = Vec::new();
    let mut iter = EventIterator::new(buf);
    proof {
        assert(seq_then(event_views(events@), decode_from(buf@, 0)) == decode(buf@)) by {
            lemma_seq_then_empty(event_views(events@), decode_from(buf@, 0));
        }
    }
    match iter.next() {
        Ok(()) => {},
        Err(e) => {
            return Err(e);
        },
    }
    while iter.valid()
        invariant
            iter.wf(),
            iter.buffer() == buf@,
            iter.spec_valid() ==> seq_then(
                event_views(events@).push(iter.current()),
                decode_from(buf@, iter.position()),
            ) == decode(buf@),
            !iter.spec_valid() ==> decode(buf@) == Some(event_views(events@)),
        decreases buf@.len() - iter.position(), iter.spec_valid() as int,
    {
        let ghost done = event_views(events@);
        let ghost e = iter.current();
        let ghost at = iter.position();
        events.push(Event { key: slice_to_vec(iter.key()), value: slice_to_vec(iter.value()) });
        assert(event_views(events@) =~= done.push(e));
        match iter.next() {
            Ok(()) => {
                proof {
                    if at == buf@.len() {
                        lemma_seq_then_empty(done.push(e), decode_from(buf@, at));
                    } else {
                        let (e2, end) = event_at(buf@, at).unwrap();
                        lemma_seq_then_step(done.push(e), e2, decode_from(buf@, end));
                    }
                }
            },
            Err(err) => {
                return Err(err);
            },
        }
    }
    Ok(events)
}

/// The events `done`, followed by `rest` where there is a rest.
pub open spec fn seq_then(done: Seq<EventView>, rest: Option<Seq<EventView>>) -> Option<
    Seq<EventView>,
> {
    match rest {
        Some(r) => Some(done + r),
        None => None,
    }
}

proof fn lemma_seq_then_empty(done: Seq<EventView>, rest: Option<Seq<EventView>>)
    ensures
        rest == Some(Seq::<EventView>::empty()) ==> seq_then(done, rest) == Some(done),
        done == Seq::<EventView>::empty() ==> seq_then(done, rest) == rest,
{
    match rest {
        Some(r) => {
            assert(done + Seq::<EventView>::empty() =~= done);
            assert(Seq::<EventView>::empty() + r =~= r);
        },
        None => {},
    }
}

proof fn lemma_seq_then_step(done: Seq<EventView>, e: EventView, rest: Option<Seq<EventView>>)
    ensures
        seq_then(done.push(e), rest) == seq_then(
            done,
            match rest {
                Some(r) => Some(seq![e] + r),
                None => None,
            },
        ),
{
    match rest {
        Some(r) => {
            assert(done.push(e) + r =~= done + (seq![e] + r));
        },
        None => {},
    }
}

/// The sums of the lengths of keys and values, with one event put in front.
pub proof fn lemma_bytes_prepend(e: EventView, rest: Seq<EventView>)
    ensures
        key_bytes(seq![e] + rest) == e.key.len() + key_bytes(rest),
        value_bytes(seq![e] + rest) == e.value.len() + value_bytes(rest),
    decreases rest.len(),
{
    let all = seq![e] + rest;
    if rest.len() == 0 {
        assert(all.drop_last() =~= Seq::<EventView>::empty());
        assert(all.last() == e);
        assert(key_bytes(all.drop_last()) == 0);
        assert(value_bytes(all.drop_last()) == 0);
        assert(key_bytes(rest) == 0);
        assert(value_bytes(rest) == 0);
    } else {
        lemma_bytes_prepend(e, rest.drop_last());
        assert(all.drop_last() =~= seq![e] + rest.drop_last());
        assert(all.last() == rest.last());
    }
}

/// A buffer that decodes holds nothing but its events: eight bytes of
/// lengths for each event, and the keys and values.
pub proof fn lemma_decoded_length(buf: Seq<u8>, at: int)
    requires
        0 <= at <= buf.len(),
        decode_from(buf, at) is Some,
    ensures
        8 * decode_from(buf, at).unwrap().len() + key_bytes(decode_from(buf, at).unwrap())
            + value_bytes(decode_from(buf, at).unwrap()) == buf.len() - at,
    decreases buf.len() - at,
{
    if at < buf.len() {
        let (e, end) = event_at(buf, at).unwrap();
        lemma_decoded_length(buf, end);
        lemma_bytes_prepend(e, decode_from(buf, end).unwrap());
    }
}

/// Decoding undoes encoding: the bytes of a sequence of events decode to
/// those events.
pub proof fn lemma_decode_encode(events: Seq<EventView>)
    requires
        encodable(events),
    ensures
        decode(encode_events(events)) == Some(events),
{
    lemma_decode_encode_after(Seq::empty(), events);
    assert(Seq::<u8>::empty() + encode_events(events) =~= encode_events(events));
}

proof fn lemma_decode_encode_after(head: Seq<u8>, events: Seq<EventView>)
    requires
        encodable(events),
    ensures
        decode_from(head + encode_events(events), head.len() as int) == Some(events),
    decreases events.len(),
{
    let buf = head + encode_events(events);
    let at = head.len() as int;
    if events.len() == 0 {
        assert(buf =~= head);
    } else {
        let e = events[0];
        let rest = events.skip(1);
        lemma_auto_spec_u32_to_from_le_bytes();
        let kl = spec_u32_to_le_bytes(e.key.len() as u32);
        let vl = spec_u32_to_le_bytes(e.value.len() as u32);
        assert(encodable(rest)) by {
            assert forall|i: int| 0 <= i < rest.len() implies (#[trigger] rest[i]).key.len()
                <= u32::MAX && rest[i].value.len() <= u32::MAX by {
                assert(rest[i] == events[i + 1]);
            }
        }
        let wire = encode_event(e);
        assert(wire =~= kl + e.key + vl + e.value);
        assert(buf =~= head + wire + encode_events(rest));
        assert(buf.subrange(at, at + 4) =~= kl);
        assert(buf.subrange(at + 4, at + 4 + e.key.len()) =~= e.key);
        let mid = at + 4 + e.key.len();
        assert(field_at(buf, at) == Some((e.key, mid)));
        assert(buf.subrange(mid, mid + 4) =~= vl);
        assert(buf.subrange(mid + 4, mid + 4 + e.value.len()) =~= e.value);
        let end = mid + 4 + e.value.len();
        assert(field_at(buf, mid) == Some((e.value, end)));
        assert(event_at(buf, at) == Some((e, end)));
        lemma_decode_encode_after(head + wire, rest);
        assert((head + wire).len() == end);
        assert(seq![e] + rest =~= events);
    }
}

/// Encoding undoes decoding: a buffer that decodes is the bytes of its
/// events, from the first to the last.
pub proof fn lemma_encode_decode(buf: Seq<u8>)
    requires
        decode(buf) is Some,
    ensures
        encodable(decode(buf).unwrap()),
        encode_events(decode(buf).unwrap()) == buf,
{
    lemma_encode_decode_from(buf, 0);
    assert(buf.subrange(0, buf.len() as int) =~= buf);
}

proof fn lemma_encode_decode_from(buf: Seq<u8>, at: int)
    requires
        0 <= at <= buf.len(),
        decode_from(buf, at) is Some,
    ensures
        encodable(decode_from(buf, at).unwrap()),
        encode_events(decode_from(buf, at).unwrap()) == buf.subrange(at, buf.len() as int),
    decreases buf.len() - at,
{
    let events = decode_from(buf, at).unwrap();
    if at == buf.len() {
        assert(buf.subrange(at, buf.len() as int) =~= Seq::<u8>::empty());
    } else {
        let (e, end) = event_at(buf, at).unwrap();
        let rest = decode_from(buf, end).unwrap();
        lemma_encode_decode_from(buf, end);
        lemma_auto_spec_u32_to_from_le_bytes();
        let mid = at + 4 + e.key.len();
        assert(events =~= seq![e] + rest);
        assert(events[0] == e);
        assert(events.skip(1) =~= rest);
        assert forall|i: int| 0 <= i < events.len() implies (#[trigger] events[i]).key.len()
            <= u32::MAX && events[i].value.len() <= u32::MAX by {
            if i > 0 {
                assert(events[i] == rest[i - 1]);
            }
        }
        let kl = buf.subrange(at, at + 4);
        let vl = buf.subrange(mid, mid + 4);
        assert(spec_u32_to_le_bytes(spec_u32_from_le_bytes(kl)) == kl);
        assert(spec_u32_to_le_bytes(spec_u32_from_le_bytes(vl)) == vl);
        assert(encode_event(e) =~= buf.subrange(at, end));
        assert(buf.subrange(at, end) + buf.subrange(end, buf.len() as int) =~= buf.subrange(
            at,
            buf.len() as int,
        ));
    }
}

/// The bytes of a run of events, with one more event at its end.
pub proof fn lemma_encode_push(events: Seq<EventView>, e: EventView)
    ensures
        encode_events(events.push(e)) == encode_events(events) + encode_event(e),
    decreases events.len(),
{
    let all = events.push(e);
    if events.len() == 0 {
        assert(all.skip(1) =~= Seq::<EventView>::empty());
        assert(encode_events(all.skip(1)) =~= Seq::<u8>::empty());
        assert(encode_event(e) + Seq::<u8>::empty() =~= Seq::<u8>::empty() + encode_event(e));
    } else {
        lemma_encode_push(events.skip(1), e);
        assert(all.skip(1) =~= events.skip(1).push(e));
        assert(encode_event(events[0]) + (encode_events(events.skip(1)) + encode_event(e))
            =~= encode_event(events[0]) + encode_events(events.skip(1)) + encode_event(e));
    }
}

} // verus!
