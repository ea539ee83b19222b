//! Decoders for the instrumentation trace formats.
//!
//! The binary format carries, per thread, a 16-byte header (base timestamp
//! in microseconds, process id, thread id) followed by records. Each record
//! begins with a 32-bit little-endian word whose top two bits select the
//! record kind and whose low 30 bits hold a microsecond delta added to a
//! running timestamp. The decoder reconstructs nested calls with a stack and
//! emits Chrome trace events; an all-zero record header marks a truncated
//! capture and stops decoding with a warning.
//!
//! The text format holds one record per line:
//! `<tid> <timestamp_us> <enter|exit> <caller_addr> <callee_addr>`.

use vstd::prelude::*;

use crate::chrome;
use crate::chrome::{Event, EventModel, EventType};
use crate::text;

verus! {

/// A recoverable anomaly found while decoding one buffer.
#[derive(Clone, Copy, PartialEq, Eq, Structural, Debug)]
pub enum Warning {
    /// An all-zero record header at `offset`: the capture is truncated there
    /// and decoding stopped.
    TruncatedBuffer { offset: usize },
    /// `count` calls were still open at the end of the buffer; they are
    /// flushed as begin events.
    LeftoverStack { count: usize },
}

/// The reason a buffer could not be decoded.
#[derive(Clone, Copy, PartialEq, Eq, Structural, Debug)]
pub enum DecodeErrorKind {
    /// A record or the buffer header does not fit the buffer, or a record's
    /// parts do not fit together.
    MalformedRecord,
    /// An exit record arrived while no call was open.
    StackUnderflow,
    /// A text blob holds bytes that are not valid UTF-8.
    NonUtf8Text,
    /// An extended record names an unknown sub-type.
    UnknownFlag { value: u32 },
}

/// A fatal decode failure: its kind, the byte offset of the record that
/// failed, and whatever events and warnings had accumulated before it.
#[derive(Debug)]
pub struct DecodeError {
    pub kind: DecodeErrorKind,
    pub offset: usize,
    pub events: Vec<Event>,
    pub warnings: Vec<Warning>,
}

/// The view of a sequence of events: each as its model.
pub open spec fn view_events(s: Seq<Event>) -> Seq<EventModel> {
    s.map_values(|e: Event| e@)
}

proof fn lemma_view_events_push(s: Seq<Event>, e: Event)
    ensures
        view_events(s.push(e)) == view_events(s).push(e@),
{
    assert(view_events(s.push(e)) =~= view_events(s).push(e@));
}

/// The index of the first pair of `a` whose key is `k`, or `-1`.
pub open spec fn find_key(a: Seq<(Seq<char>, Seq<char>)>, k: Seq<char>) -> int
    decreases a.len(),
{
    if a.len() == 0 {
        -1
    } else if a[0].0 == k {
        0
    } else {
        let r = find_key(a.drop_first(), k);
        if r < 0 {
            -1
        } else {
            1 + r
        }
    }
}

proof fn lemma_find_key_at(a: Seq<(Seq<char>, Seq<char>)>, k: Seq<char>, i: int)
    requires
        0 <= i < a.len(),
        forall|j: int| 0 <= j < i ==> a[j].0 != k,
        a[i].0 == k,
    ensures
        find_key(a, k) == i,
    decreases i,
{
    if i > 0 {
        lemma_find_key_at(a.drop_first(), k, i - 1);
    }
}

proof fn lemma_find_key_none(a: Seq<(Seq<char>, Seq<char>)>, k: Seq<char>)
    requires
        forall|j: int| 0 <= j < a.len() ==> a[j].0 != k,
    ensures
        find_key(a, k) == -1,
    decreases a.len(),
{
    if a.len() > 0 {
        lemma_find_key_none(a.drop_first(), k);
    }
}

/// The argument map `a` with `k` bound to `v`: the first pair holding `k` is
/// replaced, or the pair is appended, or a one-pair map is made.
pub open spec fn spec_args_insert(
    a: Option<Seq<(Seq<char>, Seq<char>)>>,
    k: Seq<char>,
    v: Seq<char>,
) -> Seq<(Seq<char>, Seq<char>)> {
    match a {
        None => seq![(k, v)],
        Some(s) => {
            let i = find_key(s, k);
            if i < 0 {
                s.push((k, v))
            } else {
                s.update(i, (k, v))
            }
        },
    }
}

/// Binds `key` to `value` in an event's argument map, creating the map if
/// the event has none and replacing the first pair with that key otherwise.
pub fn args_insert(args: &mut Option<Vec<(String, String)>>, key: String, value: String)
    ensures
        chrome::view_args(*final(args)) == Some(
            spec_args_insert(chrome::view_args(*old(args)), key@, value@),
        ),
{
    match args {
        None => {
            let mut m: Vec<(String, String)> = Vec::new();
            m.push((key, value));
            proof {
                assert(chrome::view_args(Some(m)).unwrap() =~= spec_args_insert(
                    chrome::view_args(*old(args)),
                    key@,
                    value@,
                ));
            }
            *args = Some(m);
        },
        Some(m) => {
            let ghost ms = chrome::view_args(*old(args)).unwrap();
            let n = m.len();
            let mut i: usize = 0;
            loop
                invariant
                    0 <= i <= n,
                    n == m@.len(),
                    ms == m@.map_values(|p: (String, String)| (p.0@, p.1@)),
                    forall|j: int| 0 <= j < i ==> ms[j].0 != key@,
                ensures
                    0 <= i <= n,
                    ms == m@.map_values(|p: (String, String)| (p.0@, p.1@)),
                    forall|j: int| 0 <= j < i ==> ms[j].0 != key@,
                    i == n || ms[i as int].0 == key@,
                decreases n - i,
            {
                if i >= n {
                    break ;
                }
                if m[i].0 == key {
                    break ;
                }
                i = i + 1;
            }
            if i < n {
                proof {
                    lemma_find_key_at(ms, key@, i as int);
                }
                let entry = vstd::std_specs::vec::vec_index_mut(m, i);
                *entry = (key, value);
                proof {
                    assert(chrome::view_args(Some(*m)).unwrap() =~= ms.update(
                        i as int,
                        (key@, value@),
                    ));
                }
            } else {
                proof {
                    lemma_find_key_none(ms, key@);
                }
                m.push((key, value));
                proof {
                    assert(chrome::view_args(Some(*m)).unwrap() =~= ms.push((key@, value@)));
                }
            }
        },
    }
}

/// The model of an event completed at `end`: phase `Complete`, duration
/// `end - timestamp`, or the 200-nanosecond virtual duration with the
/// `virtual_duration` argument when the difference is zero.
pub open spec fn spec_complete_event(e: EventModel, end: int) -> EventModel {
    let d = end - e.timestamp;
    if d == 0 {
        EventModel {
            event_type: EventType::Complete,
            duration: 200,
            args: Some(spec_args_insert(e.args, "virtual_duration"@, "true"@)),
            ..e
        }
    } else {
        EventModel { event_type: EventType::Complete, duration: d, ..e }
    }
}

/// Reclassifies an open begin event as a completed span ending at
/// `end_timestamp` nanoseconds. A zero-width span gets the 200-nanosecond
/// virtual duration and the `virtual_duration` argument, since trace viewers
/// do not render zero-width spans.
pub fn update_to_complete_event(event: &mut Event, end_timestamp: u128)
    requires
        old(event).timestamp <= end_timestamp,
    ensures
        final(event)@ == spec_complete_event(old(event)@, end_timestamp as int),
{
    let duration = end_timestamp - event.timestamp;
    if duration == 0 {
        event.duration = 200;
        args_insert(&mut event.args, "virtual_duration".to_owned(), "true".to_owned());
    } else {
        event.duration = duration;
    }
    event.event_type = EventType::Complete;
}

/// The event phase selected by an extended record's sub-type word, if the
/// word is known: duration enter and exit, async enter and exit, instant.
pub open spec fn spec_extend_event_type(sub: u32) -> Option<EventType> {
    if sub == 0 {
        Some(EventType::DurationBegin)
    } else if sub == 1 {
        Some(EventType::DurationEnd)
    } else if sub == 2 {
        Some(EventType::AsyncNestableStart)
    } else if sub == 3 {
        Some(EventType::AsyncNestableEnd)
    } else if sub == 4 {
        Some(EventType::Instant)
    } else {
        None
    }
}

fn extend_event_type(sub: u32) -> (r: Option<EventType>)
    ensures
        r == spec_extend_event_type(sub),
{
    if sub == 0 {
        Some(EventType::DurationBegin)
    } else if sub == 1 {
        Some(EventType::DurationEnd)
    } else if sub == 2 {
        Some(EventType::AsyncNestableStart)
    } else if sub == 3 {
        Some(EventType::AsyncNestableEnd)
    } else if sub == 4 {
        Some(EventType::Instant)
    } else {
        None
    }
}

/// The outcome of reading one length-prefixed text blob: its decoded text
/// and the position after the padding, or the way it failed.
pub enum BlobOut {
    Text(Seq<char>, int),
    Short,
    NotUtf8,
}

/// The length of a blob payload padded up to the next 4-byte boundary.
pub open spec fn padded_len(l: int) -> int {
    ((l + 3) / 4) * 4
}

/// Reads the text blob at `pos`: a 4-byte little-endian length, that many
/// payload bytes, which must be valid UTF-8, and discarded zero padding up
/// to the next 4-byte boundary. The position after the blob is capped at the
/// end of the buffer, where the padding may run out.
pub open spec fn spec_read_blob(bytes: Seq<u8>, pos: int) -> BlobOut {
    if pos + 4 > bytes.len() {
        BlobOut::Short
    } else {
        let l = vstd::bytes::spec_u32_from_le_bytes(bytes.subrange(pos, pos + 4)) as int;
        if pos + 4 + l > bytes.len() {
            BlobOut::Short
        } else {
            let payload = bytes.subrange(pos + 4, pos + 4 + l);
            if !vstd::utf8::valid_utf8(payload) {
                BlobOut::NotUtf8
            } else {
                let next = if pos + 4 + padded_len(l) > bytes.len() {
                    bytes.len() as int
                } else {
                    pos + 4 + padded_len(l)
                };
                BlobOut::Text(vstd::utf8::decode_utf8(payload), next)
            }
        }
    }
}

/// A blob that reads successfully ends after `pos` and within the buffer.
proof fn lemma_blob_next_bounds(bytes: Seq<u8>, pos: int)
    requires
        0 <= pos,
    ensures
        spec_read_blob(bytes, pos) matches BlobOut::Text(t, next) ==> pos + 4 <= next
            <= bytes.len(),
{
}

fn read_text_from_binary(buffer: &Vec<u8>, pos: usize) -> (r: Result<
    (String, usize),
    DecodeErrorKind,
>)
    requires
        pos <= buffer@.len(),
    ensures
        match r {
            Ok(t) => spec_read_blob(buffer@, pos as int) == BlobOut::Text(t.0@, t.1 as int),
            Err(k) => (k == DecodeErrorKind::MalformedRecord && spec_read_blob(
                buffer@,
                pos as int,
            ) == BlobOut::Short) || (k == DecodeErrorKind::NonUtf8Text && spec_read_blob(
                buffer@,
                pos as int,
            ) == BlobOut::NotUtf8),
        },
{
    let len = buffer.len();
    if len - pos < 4 {
        return Err(DecodeErrorKind::MalformedRecord);
    }
    let bs = buffer.as_slice();
    let l32 = vstd::bytes::u32_from_le_bytes(vstd::slice::slice_subrange(bs, pos, pos + 4));
    let l = l32 as usize;
    if len - (pos + 4) < l {
        return Err(DecodeErrorKind::MalformedRecord);
    }
    let payload = vstd::slice::slice_to_vec(vstd::slice::slice_subrange(bs, pos + 4, pos + 4 + l));
    match text::string_from_utf8(payload) {
        None => Err(DecodeErrorKind::NonUtf8Text),
        Some(s) => {
            let pad_total: u64 = ((l32 as u64) + 3) / 4 * 4;
            let with_pad: u128 = pos as u128 + 4 + pad_total as u128;
            let next: usize = if with_pad > len as u128 {
                len
            } else {
                with_pad as usize
            };
            Ok((s, next))
        },
    }
}

/// The decoder's cursor state between records: read position, running
/// timestamp in nanoseconds, the stack of open begin events, and what has
/// accumulated: emitted events, warnings, and the absolute timestamp of each
/// record decoded so far.
#[verifier::ext_equal]
pub struct DecodeState {
    pub pos: int,
    pub pre_ts: int,
    pub stack: Seq<EventModel>,
    pub events: Seq<EventModel>,
    pub warnings: Seq<Warning>,
    pub tss: Seq<int>,
}

/// The outcome of decoding one buffer: the ordered events and warnings, with
/// the absolute timestamp of every decoded record, or a failure carrying its
/// kind, the offset of the record that failed, and what had accumulated.
#[verifier::ext_equal]
pub enum DecodeOut {
    Done { events: Seq<EventModel>, warnings: Seq<Warning>, tss: Seq<int> },
    Fail {
        kind: DecodeErrorKind,
        offset: int,
        events: Seq<EventModel>,
        warnings: Seq<Warning>,
        tss: Seq<int>,
    },
}

/// Ends decoding: open calls left on the stack are flushed, in order, as
/// begin events after the emitted ones, under a warning naming their count;
/// they are never reclassified, since their end times are unknown.
pub open spec fn spec_finish(st: DecodeState) -> DecodeOut {
    if st.stack.len() > 0 {
        DecodeOut::Done {
            events: st.events + st.stack,
            warnings: st.warnings.push(Warning::LeftoverStack { count: st.stack.len() as usize }),
            tss: st.tss,
        }
    } else {
        DecodeOut::Done { events: st.events, warnings: st.warnings, tss: st.tss }
    }
}

/// Fails decoding at the record that begins at the current position.
pub open spec fn spec_fail(st: DecodeState, kind: DecodeErrorKind) -> DecodeOut {
    DecodeOut::Fail {
        kind,
        offset: st.pos,
        events: st.events,
        warnings: st.warnings,
        tss: st.tss,
    }
}

/// The begin event of a plain enter record: named by the callee address in
/// hexadecimal, in the `call` category.
pub open spec fn enter_model(pid: u32, tid: u32, ts: int, addr: u64) -> EventModel {
    EventModel {
        name: "0x"@ + text::spec_hex(addr as nat),
        category: "call"@,
        event_type: EventType::DurationBegin,
        timestamp: ts,
        duration: 0,
        process_id: pid,
        thread_id: tid,
        instant_scope: None,
        scope: None,
        id: None,
        args: None,
    }
}

/// The nameless event of an extended enter record that carries no text.
pub open spec fn extend_plain_model(pid: u32, tid: u32, ts: int, ety: EventType) -> EventModel {
    EventModel {
        name: Seq::<char>::empty(),
        category: "extend"@,
        event_type: ety,
        timestamp: ts,
        duration: 0,
        process_id: pid,
        thread_id: tid,
        instant_scope: None,
        scope: None,
        id: None,
        args: None,
    }
}

/// The async start event of an extended enter record: its text blob is both
/// its name and its flow id, and the thread id is its scope discriminator.
pub open spec fn async_start_model(pid: u32, tid: u32, ts: int, name: Seq<char>) -> EventModel {
    EventModel {
        name: name,
        category: "extend"@,
        event_type: EventType::AsyncNestableStart,
        timestamp: ts,
        duration: 0,
        process_id: pid,
        thread_id: tid,
        instant_scope: None,
        scope: Some(text::spec_dec(tid as nat)),
        id: Some(name),
        args: None,
    }
}

/// The standalone event of an extended exit record that does not close a
/// duration: named by its text blob, with scope and id set for async exits
/// and a global instant scope for instants.
pub open spec fn extend_exit_model(
    pid: u32,
    tid: u32,
    ts: int,
    ety: EventType,
    name: Seq<char>,
) -> EventModel {
    EventModel {
        name: name,
        category: "extend"@,
        event_type: ety,
        timestamp: ts,
        duration: 0,
        process_id: pid,
        thread_id: tid,
        instant_scope: if ety == EventType::Instant {
            Some(chrome::Scope::Global)
        } else {
            None
        },
        scope: if ety == EventType::AsyncNestableEnd {
            Some(text::spec_dec(tid as nat))
        } else {
            None
        },
        id: if ety == EventType::AsyncNestableEnd {
            Some(name)
        } else {
            None
        },
        args: None,
    }
}

/// Decodes the records of `bytes` from the state `st` on. Each record reads
/// a 32-bit word: zero stops decoding with a truncation warning; otherwise
/// the top two bits of the word less one select the record kind and the low
/// 30 bits are a microsecond delta added to the running timestamp. Kind 0
/// pushes a begin event named by an address payload; kind 1 reads a sub-type
/// word and pushes or emits an extended event, reading a text blob for an
/// async start; kind 2 pops the stack into a completed span; kind 3 reads a
/// sub-type word and a text blob, closing the open span for a duration exit
/// and emitting a standalone event otherwise.
pub open spec fn spec_decode_records(
    bytes: Seq<u8>,
    pid: u32,
    tid: u32,
    bit32: bool,
    st: DecodeState,
) -> DecodeOut
    decreases bytes.len() - st.pos,
        when 0 <= st.pos <= bytes.len()
        via spec_decode_records_dec
{
    let len = bytes.len() as int;
    if st.pos >= len - 1 {
        spec_finish(st)
    } else if st.pos + 4 > len {
        spec_fail(st, DecodeErrorKind::MalformedRecord)
    } else {
        let v = vstd::bytes::spec_u32_from_le_bytes(bytes.subrange(st.pos, st.pos + 4));
        if v == 0 {
            spec_finish(
                DecodeState {
                    warnings: st.warnings.push(Warning::TruncatedBuffer { offset: st.pos as usize }),
                    ..st
                },
            )
        } else {
            let flag = ((v - 1) as u32) >> 30u32;
            let delta = (v & 0x3fff_ffffu32) as int;
            let ts = st.pre_ts + delta * 1000;
            let hpos = st.pos + 4;
            if flag == 0 {
                let aw: int = if bit32 {
                    4
                } else {
                    8
                };
                if hpos + aw > len {
                    spec_fail(st, DecodeErrorKind::MalformedRecord)
                } else {
                    let addr: u64 = if bit32 {
                        vstd::bytes::spec_u32_from_le_bytes(
                            bytes.subrange(hpos, hpos + 4),
                        ) as u64
                    } else {
                        vstd::bytes::spec_u64_from_le_bytes(bytes.subrange(hpos, hpos + 8))
                    };
                    spec_decode_records(
                        bytes,
                        pid,
                        tid,
                        bit32,
                        DecodeState {
                            pos: hpos + aw,
                            pre_ts: ts,
                            stack: st.stack.push(enter_model(pid, tid, ts, addr)),
                            events: st.events,
                            warnings: st.warnings,
                            tss: st.tss.push(ts),
                        },
                    )
                }
            } else if flag == 1 {
                if hpos + 4 > len {
                    spec_fail(st, DecodeErrorKind::MalformedRecord)
                } else {
                    let sub = vstd::bytes::spec_u32_from_le_bytes(bytes.subrange(hpos, hpos + 4));
                    match spec_extend_event_type(sub) {
                        None => spec_fail(st, DecodeErrorKind::UnknownFlag { value: sub }),
                        Some(ety) => {
                            if ety == EventType::AsyncNestableStart {
                                match spec_read_blob(bytes, hpos + 4) {
                                    BlobOut::Short => spec_fail(st, DecodeErrorKind::MalformedRecord),
                                    BlobOut::NotUtf8 => spec_fail(st, DecodeErrorKind::NonUtf8Text),
                                    BlobOut::Text(name, next) => spec_decode_records(
                                        bytes,
                                        pid,
                                        tid,
                                        bit32,
                                        DecodeState {
                                            pos: next,
                                            pre_ts: ts,
                                            stack: st.stack,
                                            events: st.events.push(
                                                async_start_model(pid, tid, ts, name),
                                            ),
                                            warnings: st.warnings,
                                            tss: st.tss.push(ts),
                                        },
                                    ),
                                }
                            } else if ety == EventType::DurationBegin {
                                spec_decode_records(
                                    bytes,
                                    pid,
                                    tid,
                                    bit32,
                                    DecodeState {
                                        pos: hpos + 4,
                                        pre_ts: ts,
                                        stack: st.stack.push(extend_plain_model(pid, tid, ts, ety)),
                                        events: st.events,
                                        warnings: st.warnings,
                                        tss: st.tss.push(ts),
                                    },
                                )
                            } else if ety == EventType::DurationEnd {
                                spec_fail(st, DecodeErrorKind::MalformedRecord)
                            } else {
                                spec_decode_records(
                                    bytes,
                                    pid,
                                    tid,
                                    bit32,
                                    DecodeState {
                                        pos: hpos + 4,
                                        pre_ts: ts,
                                        stack: st.stack,
                                        events: st.events.push(extend_plain_model(pid, tid, ts, ety)),
                                        warnings: st.warnings,
                                        tss: st.tss.push(ts),
                                    },
                                )
                            }
                        },
                    }
                }
            } else if flag == 2 {
                if st.stack.len() == 0 {
                    spec_fail(st, DecodeErrorKind::StackUnderflow)
                } else {
                    let e1 = spec_complete_event(st.stack.last(), ts);
                    let e2 = if e1.name.len() == 0 {
                        EventModel { category: "internal"@, name: "[internal]"@, ..e1 }
                    } else {
                        e1
                    };
                    spec_decode_records(
                        bytes,
                        pid,
                        tid,
                        bit32,
                        DecodeState {
                            pos: hpos,
                            pre_ts: ts,
                            stack: st.stack.drop_last(),
                            events: st.events.push(e2),
                            warnings: st.warnings,
                            tss: st.tss.push(ts),
                        },
                    )
                }
            } else {
                if hpos + 4 > len {
                    spec_fail(st, DecodeErrorKind::MalformedRecord)
                } else {
                    let sub = vstd::bytes::spec_u32_from_le_bytes(bytes.subrange(hpos, hpos + 4));
                    match spec_extend_event_type(sub) {
                        None => spec_fail(st, DecodeErrorKind::UnknownFlag { value: sub }),
                        Some(ety) => match spec_read_blob(bytes, hpos + 4) {
                            BlobOut::Short => spec_fail(st, DecodeErrorKind::MalformedRecord),
                            BlobOut::NotUtf8 => spec_fail(st, DecodeErrorKind::NonUtf8Text),
                            BlobOut::Text(name, next) => {
                                if ety == EventType::DurationEnd {
                                    if st.stack.len() == 0 {
                                        spec_fail(st, DecodeErrorKind::StackUnderflow)
                                    } else {
                                        let e1 = EventModel {
                                            category: "external"@,
                                            name: name,
                                            ..st.stack.last()
                                        };
                                        let e2 = spec_complete_event(e1, ts);
                                        spec_decode_records(
                                            bytes,
                                            pid,
                                            tid,
                                            bit32,
                                            DecodeState {
                                                pos: next,
                                                pre_ts: ts,
                                                stack: st.stack.drop_last(),
                                                events: st.events.push(e2),
                                                warnings: st.warnings,
                                                tss: st.tss.push(ts),
                                            },
                                        )
                                    }
                                } else if ety == EventType::DurationBegin {
                                    spec_decode_records(
                                        bytes,
                                        pid,
                                        tid,
                                        bit32,
                                        DecodeState {
                                            pos: next,
                                            pre_ts: ts,
                                            stack: st.stack.push(
                                                extend_exit_model(pid, tid, ts, ety, name),
                                            ),
                                            events: st.events,
                                            warnings: st.warnings,
                                            tss: st.tss.push(ts),
                                        },
                                    )
                                } else {
                                    spec_decode_records(
                                        bytes,
                                        pid,
                                        tid,
                                        bit32,
                                        DecodeState {
                                            pos: next,
                                            pre_ts: ts,
                                            stack: st.stack,
                                            events: st.events.push(
                                                extend_exit_model(pid, tid, ts, ety, name),
                                            ),
                                            warnings: st.warnings,
                                            tss: st.tss.push(ts),
                                        },
                                    )
                                }
                            },
                        },
                    }
                }
            }
        }
    }
}

#[via_fn]
proof fn spec_decode_records_dec(bytes: Seq<u8>, pid: u32, tid: u32, bit32: bool, st: DecodeState) {
    lemma_blob_next_bounds(bytes, st.pos + 8);
}

/// The initial state of a decode: position 16, just past the header, with
/// the base timestamp converted to nanoseconds.
pub open spec fn spec_initial_state(bytes: Seq<u8>) -> DecodeState {
    DecodeState {
        pos: 16,
        pre_ts: vstd::bytes::spec_u64_from_le_bytes(bytes.subrange(0, 8)) as int * 1000,
        stack: Seq::empty(),
        events: Seq::empty(),
        warnings: Seq::empty(),
        tss: Seq::empty(),
    }
}

/// Decodes one buffer: a 16-byte header holding the base timestamp in
/// microseconds, the process id, and the thread id, followed by records.
pub open spec fn spec_decode(bytes: Seq<u8>, bit32: bool) -> DecodeOut {
    if bytes.len() < 8 {
        DecodeOut::Fail {
            kind: DecodeErrorKind::MalformedRecord,
            offset: 0,
            events: Seq::empty(),
            warnings: Seq::empty(),
            tss: Seq::empty(),
        }
    } else if bytes.len() < 12 {
        DecodeOut::Fail {
            kind: DecodeErrorKind::MalformedRecord,
            offset: 8,
            events: Seq::empty(),
            warnings: Seq::empty(),
            tss: Seq::empty(),
        }
    } else if bytes.len() < 16 {
        DecodeOut::Fail {
            kind: DecodeErrorKind::MalformedRecord,
            offset: 12,
            events: Seq::empty(),
            warnings: Seq::empty(),
            tss: Seq::empty(),
        }
    } else {
        let pid = vstd::bytes::spec_u32_from_le_bytes(bytes.subrange(8, 12));
        let tid = vstd::bytes::spec_u32_from_le_bytes(bytes.subrange(12, 16));
        spec_decode_records(bytes, pid, tid, bit32, spec_initial_state(bytes))
    }
}

/// A bound on the running timestamp in nanoseconds once the cursor stands at
/// `pos`: the base timestamp is below `2^74` and each record, at least four
/// bytes long, adds less than `2^40`.
pub open spec fn ts_bound(pos: int) -> int {
    0x4000000000000000000 + pos * 0x4000000000
}

/// Flushes the open-call stack: its events are appended in order, under a
/// warning naming their count; an empty stack leaves everything unchanged.
fn finish_decode(events: &mut Vec<Event>, mut stack: Vec<Event>, warnings: &mut Vec<Warning>)
    ensures
        view_events(final(events)@) == view_events(old(events)@) + view_events(stack@),
        stack@.len() > 0 ==> final(warnings)@ == old(warnings)@.push(
            Warning::LeftoverStack { count: stack@.len() as usize },
        ),
        stack@.len() == 0 ==> final(warnings)@ == old(warnings)@,
{
    let ghost stack0 = stack@;
    if stack.len() > 0 {
        warnings.push(Warning::LeftoverStack { count: stack.len() });
        events.append(&mut stack);
    }
    proof {
        assert(view_events(events@) =~= view_events(old(events)@) + view_events(stack0));
    }
}

/// Decodes one binary trace buffer into its ordered events and warnings,
/// exactly as `spec_decode` gives them; a fatal failure carries its kind,
/// the offset of the record that failed, and what had accumulated.
pub fn parse_binary_buffer(buffer: &Vec<u8>, bit32_flag: bool) -> (r: Result<
    (Vec<Event>, Vec<Warning>),
    DecodeError,
>)
    ensures
        (match r {
            Ok(ok) => spec_decode(buffer@, bit32_flag) matches DecodeOut::Done {
                events,
                warnings,
                tss,
            } && events == view_events(ok.0@) && warnings == ok.1@,
            Err(e) => spec_decode(buffer@, bit32_flag) matches DecodeOut::Fail {
                kind,
                offset,
                events,
                warnings,
                tss,
            } && kind == e.kind && offset == e.offset as int && events == view_events(e.events@)
                && warnings == e.warnings@,
        }),
{
    let len = buffer.len();
    if len < 8 {
        proof {
            assert(view_events(Seq::<Event>::empty()) =~= Seq::<EventModel>::empty());
        }
        return Err(
            DecodeError {
                kind: DecodeErrorKind::MalformedRecord,
                offset: 0,
                events: Vec::new(),
                warnings: Vec::new(),
            },
        );
    }
    if len < 12 {
        proof {
            assert(view_events(Seq::<Event>::empty()) =~= Seq::<EventModel>::empty());
        }
        return Err(
            DecodeError {
                kind: DecodeErrorKind::MalformedRecord,
                offset: 8,
                events: Vec::new(),
                warnings: Vec::new(),
            },
        );
    }
    if len < 16 {
        proof {
            assert(view_events(Seq::<Event>::empty()) =~= Seq::<EventModel>::empty());
        }
        return Err(
            DecodeError {
                kind: DecodeErrorKind::MalformedRecord,
                offset: 12,
                events: Vec::new(),
                warnings: Vec::new(),
            },
        );
    }
    let base = vstd::bytes::u64_from_le_bytes(vstd::slice::slice_subrange(buffer.as_slice(), 0, 8));
    let pid = vstd::bytes::u32_from_le_bytes(vstd::slice::slice_subrange(buffer.as_slice(), 8, 12));
    let tid = vstd::bytes::u32_from_le_bytes(
        vstd::slice::slice_subrange(buffer.as_slice(), 12, 16),
    );
    let mut pre_ts: u128 = (base as u128) * 1000;
    let mut pos: usize = 16;
    let mut events: Vec<Event> = Vec::new();
    let mut stack: Vec<Event> = Vec::new();
    let mut warnings: Vec<Warning> = Vec::new();
    let ghost mut tss: Seq<int> = Seq::empty();
    proof {
        assert(view_events(events@) =~= Seq::<EventModel>::empty());
        assert(view_events(stack@) =~= Seq::<EventModel>::empty());
        assert(DecodeState {
            pos: pos as int,
            pre_ts: pre_ts as int,
            stack: view_events(stack@),
            events: view_events(events@),
            warnings: warnings@,
            tss,
        } =~~= spec_initial_state(buffer@));
    }
    while pos < len - 1
        invariant
            16 <= pos <= len,
            len == buffer@.len(),
            pre_ts as int <= ts_bound(pos as int),
            forall|i: int|
                0 <= i < stack@.len() ==> (#[trigger] stack@[i])@.timestamp <= pre_ts as int,
            spec_decode(buffer@, bit32_flag) == spec_decode_records(
                buffer@,
                pid,
                tid,
                bit32_flag,
                DecodeState {
                    pos: pos as int,
                    pre_ts: pre_ts as int,
                    stack: view_events(stack@),
                    events: view_events(events@),
                    warnings: warnings@,
                    tss,
                },
            ),
        decreases len - pos,
    {
        let ghost st = DecodeState {
            pos: pos as int,
            pre_ts: pre_ts as int,
            stack: view_events(stack@),
            events: view_events(events@),
            warnings: warnings@,
            tss,
        };
        if len - pos < 4 {
            proof {
                assert(spec_decode_records(buffer@, pid, tid, bit32_flag, st) == spec_fail(
                    st,
                    DecodeErrorKind::MalformedRecord,
                ));
            }
            return Err(
                DecodeError { kind: DecodeErrorKind::MalformedRecord, offset: pos, events, warnings },
            );
        }
        let v = vstd::bytes::u32_from_le_bytes(
            vstd::slice::slice_subrange(buffer.as_slice(), pos, pos + 4),
        );
        if v == 0 {
            proof {
                assert(spec_decode_records(buffer@, pid, tid, bit32_flag, st) == spec_finish(
                    DecodeState {
                        warnings: st.warnings.push(Warning::TruncatedBuffer { offset: pos }),
                        ..st
                    },
                ));
            }
            warnings.push(Warning::TruncatedBuffer { offset: pos });
            finish_decode(&mut events, stack, &mut warnings);
            return Ok((events, warnings));
        }
        let w = v - 1;
        let flag = w >> 30;
        let delta = v & 0x3fff_ffff;
        proof {
            assert((v & 0x3fff_ffffu32) <= 0x3fff_ffffu32) by (bit_vector);
            assert(w >> 30u32 <= 3u32) by (bit_vector);
        }
        let ts: u128 = pre_ts + (delta as u128) * 1000;
        proof {
            tss = tss.push(ts as int);
        }
        let ghost stn = DecodeState {
            pos: 0,
            pre_ts: ts as int,
            stack: st.stack,
            events: st.events,
            warnings: st.warnings,
            tss,
        };
        if flag == 0 {
            let aw: usize = if bit32_flag {
                4
            } else {
                8
            };
            if len - (pos + 4) < aw {
                proof {
                    assert(spec_decode_records(buffer@, pid, tid, bit32_flag, st) == spec_fail(
                        st,
                        DecodeErrorKind::MalformedRecord,
                    ));
                }
                return Err(
                    DecodeError {
                        kind: DecodeErrorKind::MalformedRecord,
                        offset: pos,
                        events,
                        warnings,
                    },
                );
            }
            let addr: u64 = if bit32_flag {
                vstd::bytes::u32_from_le_bytes(
                    vstd::slice::slice_subrange(buffer.as_slice(), pos + 4, pos + 8),
                ) as u64
            } else {
                vstd::bytes::u64_from_le_bytes(
                    vstd::slice::slice_subrange(buffer.as_slice(), pos + 4, pos + 12),
                )
            };
            let hex = text::u64_to_hex(addr);
            let name = ("0x".to_owned()).concat(hex.as_str());
            let ev = Event {
                name,
                category: "call".to_owned(),
                event_type: EventType::DurationBegin,
                timestamp: ts,
                duration: 0,
                process_id: pid,
                thread_id: tid,
                instant_scope: None,
                scope: None,
                id: None,
                args: None,
            };
            proof {
                assert(ev@ =~~= enter_model(pid, tid, ts as int, addr));
                lemma_view_events_push(stack@, ev);
            }
            stack.push(ev);
            pos = pos + 4 + aw;
            pre_ts = ts;
            proof {
                assert(spec_decode_records(buffer@, pid, tid, bit32_flag, st)
                    == spec_decode_records(
                    buffer@,
                    pid,
                    tid,
                    bit32_flag,
                    DecodeState { pos: pos as int, stack: view_events(stack@), ..stn },
                ));
            }
        } else if flag == 1 {
            if len - (pos + 4) < 4 {
                proof {
                    assert(spec_decode_records(buffer@, pid, tid, bit32_flag, st) == spec_fail(
                        st,
                        DecodeErrorKind::MalformedRecord,
                    ));
                }
                return Err(
                    DecodeError {
                        kind: DecodeErrorKind::MalformedRecord,
                        offset: pos,
                        events,
                        warnings,
                    },
                );
            }
            let sub = vstd::bytes::u32_from_le_bytes(
                vstd::slice::slice_subrange(buffer.as_slice(), pos + 4, pos + 8),
            );
            match extend_event_type(sub) {
                None => {
                    proof {
                        assert(spec_decode_records(buffer@, pid, tid, bit32_flag, st) == spec_fail(
                            st,
                            DecodeErrorKind::UnknownFlag { value: sub },
                        ));
                    }
                    return Err(
                        DecodeError {
                            kind: DecodeErrorKind::UnknownFlag { value: sub },
                            offset: pos,
                            events,
                            warnings,
                        },
                    );
                },
                Some(ety) => {
                    if ety == EventType::AsyncNestableStart {
                        match read_text_from_binary(buffer, pos + 8) {
                            Err(k) => {
                                proof {
                                    assert(spec_decode_records(buffer@, pid, tid, bit32_flag, st)
                                        == spec_fail(st, k));
                                }
                                return Err(DecodeError { kind: k, offset: pos, events, warnings });
                            },
                            Ok((name_s, next)) => {
                                proof {
                                    lemma_blob_next_bounds(buffer@, pos + 8);
                                }
                                let id_s = name_s.clone();
                                let scope_s = text::u64_to_dec(tid as u64);
                                let ev = Event {
                                    name: name_s,
                                    category: "extend".to_owned(),
                                    event_type: EventType::AsyncNestableStart,
                                    timestamp: ts,
                                    duration: 0,
                                    process_id: pid,
                                    thread_id: tid,
                                    instant_scope: None,
                                    scope: Some(scope_s),
                                    id: Some(id_s),
                                    args: None,
                                };
                                proof {
                                    assert(ev@ =~~= async_start_model(pid, tid, ts as int, ev.name@));
                                    lemma_view_events_push(events@, ev);
                                }
                                events.push(ev);
                                pos = next;
                                pre_ts = ts;
                                proof {
                                    assert(spec_decode_records(buffer@, pid, tid, bit32_flag, st)
                                        == spec_decode_records(
                                        buffer@,
                                        pid,
                                        tid,
                                        bit32_flag,
                                        DecodeState {
                                            pos: pos as int,
                                            events: view_events(events@),
                                            ..stn
                                        },
                                    ));
                                }
                            },
                        }
                    } else if ety == EventType::DurationBegin {
                        let ev = Event {
                            name: String::new(),
                            category: "extend".to_owned(),
                            event_type: ety,
                            timestamp: ts,
                            duration: 0,
                            process_id: pid,
                            thread_id: tid,
                            instant_scope: None,
                            scope: None,
                            id: None,
                            args: None,
                        };
                        proof {
                            assert(ev@ =~~= extend_plain_model(pid, tid, ts as int, ety));
                            lemma_view_events_push(stack@, ev);
                        }
                        stack.push(ev);
                        pos = pos + 8;
                        pre_ts = ts;
                        proof {
                            assert(spec_decode_records(buffer@, pid, tid, bit32_flag, st)
                                == spec_decode_records(
                                buffer@,
                                pid,
                                tid,
                                bit32_flag,
                                DecodeState { pos: pos as int, stack: view_events(stack@), ..stn },
                            ));
                        }
                    } else if ety == EventType::DurationEnd {
                        proof {
                            assert(spec_decode_records(buffer@, pid, tid, bit32_flag, st)
                                == spec_fail(st, DecodeErrorKind::MalformedRecord));
                        }
                        return Err(
                            DecodeError {
                                kind: DecodeErrorKind::MalformedRecord,
                                offset: pos,
                                events,
                                warnings,
                            },
                        );
                    } else {
                        let ev = Event {
                            name: String::new(),
                            category: "extend".to_owned(),
                            event_type: ety,
                            timestamp: ts,
                            duration: 0,
                            process_id: pid,
                            thread_id: tid,
                            instant_scope: None,
                            scope: None,
                            id: None,
                            args: None,
                        };
                        proof {
                            assert(ev@ =~~= extend_plain_model(pid, tid, ts as int, ety));
                            lemma_view_events_push(events@, ev);
                        }
                        events.push(ev);
                        pos = pos + 8;
                        pre_ts = ts;
                        proof {
                            assert(spec_decode_records(buffer@, pid, tid, bit32_flag, st)
                                == spec_decode_records(
                                buffer@,
                                pid,
                                tid,
                                bit32_flag,
                                DecodeState { pos: pos as int, events: view_events(events@), ..stn },
                            ));
                        }
                    }
                },
            }
        } else if flag == 2 {
            match stack.pop() {
                None => {
                    proof {
                        assert(spec_decode_records(buffer@, pid, tid, bit32_flag, st) == spec_fail(
                            st,
                            DecodeErrorKind::StackUnderflow,
                        ));
                    }
                    return Err(
                        DecodeError {
                            kind: DecodeErrorKind::StackUnderflow,
                            offset: pos,
                            events,
                            warnings,
                        },
                    );
                },
                Some(mut ev) => {
                    proof {
                        assert(ev@ == st.stack.last());
                        assert(view_events(stack@) =~= st.stack.drop_last());
                    }
                    update_to_complete_event(&mut ev, ts);
                    if ev.name.as_str().is_empty() {
                        ev.category = "internal".to_owned();
                        ev.name = "[internal]".to_owned();
                    }
                    proof {
                        lemma_view_events_push(events@, ev);
                    }
                    events.push(ev);
                    pos = pos + 4;
                    pre_ts = ts;
                    proof {
                        assert(spec_decode_records(buffer@, pid, tid, bit32_flag, st)
                            == spec_decode_records(
                            buffer@,
                            pid,
                            tid,
                            bit32_flag,
                            DecodeState {
                                pos: pos as int,
                                stack: view_events(stack@),
                                events: view_events(events@),
                                ..stn
                            },
                        ));
                    }
                },
            }
        } else {
            if len - (pos + 4) < 4 {
                proof {
                    assert(spec_decode_records(buffer@, pid, tid, bit32_flag, st) == spec_fail(
                        st,
                        DecodeErrorKind::MalformedRecord,
                    ));
                }
                return Err(
                    DecodeError {
                        kind: DecodeErrorKind::MalformedRecord,
                        offset: pos,
                        events,
                        warnings,
                    },
                );
            }
            let sub = vstd::bytes::u32_from_le_bytes(
                vstd::slice::slice_subrange(buffer.as_slice(), pos + 4, pos + 8),
            );
            match extend_event_type(sub) {
                None => {
                    proof {
                        assert(spec_decode_records(buffer@, pid, tid, bit32_flag, st) == spec_fail(
                            st,
                            DecodeErrorKind::UnknownFlag { value: sub },
                        ));
                    }
                    return Err(
                        DecodeError {
                            kind: DecodeErrorKind::UnknownFlag { value: sub },
                            offset: pos,
                            events,
                            warnings,
                        },
                    );
                },
                Some(ety) => {
                    match read_text_from_binary(buffer, pos + 8) {
                        Err(k) => {
                            proof {
                                assert(spec_decode_records(buffer@, pid, tid, bit32_flag, st)
                                    == spec_fail(st, k));
                            }
                            return Err(DecodeError { kind: k, offset: pos, events, warnings });
                        },
                        Ok((text_s, next)) => {
                            proof {
                                lemma_blob_next_bounds(buffer@, pos + 8);
                            }
                            if ety == EventType::DurationEnd {
                                match stack.pop() {
                                    None => {
                                        proof {
                                            assert(spec_decode_records(
                                                buffer@,
                                                pid,
                                                tid,
                                                bit32_flag,
                                                st,
                                            ) == spec_fail(st, DecodeErrorKind::StackUnderflow));
                                        }
                                        return Err(
                                            DecodeError {
                                                kind: DecodeErrorKind::StackUnderflow,
                                                offset: pos,
                                                events,
                                                warnings,
                                            },
                                        );
                                    },
                                    Some(mut ev) => {
                                        proof {
                                            assert(ev@ == st.stack.last());
                                            assert(view_events(stack@) =~= st.stack.drop_last());
                                        }
                                        ev.category = "external".to_owned();
                                        ev.name = text_s;
                                        proof {
                                            assert(ev@ =~~= (EventModel {
                                                category: "external"@,
                                                name: ev.name@,
                                                ..st.stack.last()
                                            }));
                                        }
                                        update_to_complete_event(&mut ev, ts);
                                        proof {
                                            lemma_view_events_push(events@, ev);
                                        }
                                        events.push(ev);
                                        pos = next;
                                        pre_ts = ts;
                                        proof {
                                            assert(spec_decode_records(
                                                buffer@,
                                                pid,
                                                tid,
                                                bit32_flag,
                                                st,
                                            ) == spec_decode_records(
                                                buffer@,
                                                pid,
                                                tid,
                                                bit32_flag,
                                                DecodeState {
                                                    pos: pos as int,
                                                    stack: view_events(stack@),
                                                    events: view_events(events@),
                                                    ..stn
                                                },
                                            ));
                                        }
                                    },
                                }
                            } else {
                                let instant_scope = if ety == EventType::Instant {
                                    Some(chrome::Scope::Global)
                                } else {
                                    None
                                };
                                let id = if ety == EventType::AsyncNestableEnd {
                                    Some(text_s.clone())
                                } else {
                                    None
                                };
                                let scope = if ety == EventType::AsyncNestableEnd {
                                    Some(text::u64_to_dec(tid as u64))
                                } else {
                                    None
                                };
                                let ev = Event {
                                    name: text_s,
                                    category: "extend".to_owned(),
                                    event_type: ety,
                                    timestamp: ts,
                                    duration: 0,
                                    process_id: pid,
                                    thread_id: tid,
                                    instant_scope,
                                    scope,
                                    id,
                                    args: None,
                                };
                                proof {
                                    assert(ev@ =~~= extend_exit_model(
                                        pid,
                                        tid,
                                        ts as int,
                                        ety,
                                        ev.name@,
                                    ));
                                }
                                if ev.event_type == EventType::DurationBegin {
                                    proof {
                                        lemma_view_events_push(stack@, ev);
                                    }
                                    stack.push(ev);
                                    pos = next;
                                    pre_ts = ts;
                                    proof {
                                        assert(spec_decode_records(buffer@, pid, tid, bit32_flag, st)
                                            == spec_decode_records(
                                            buffer@,
                                            pid,
                                            tid,
                                            bit32_flag,
                                            DecodeState {
                                                pos: pos as int,
                                                stack: view_events(stack@),
                                                ..stn
                                            },
                                        ));
                                    }
                                } else {
                                    proof {
                                        lemma_view_events_push(events@, ev);
                                    }
                                    events.push(ev);
                                    pos = next;
                                    pre_ts = ts;
                                    proof {
                                        assert(spec_decode_records(buffer@, pid, tid, bit32_flag, st)
                                            == spec_decode_records(
                                            buffer@,
                                            pid,
                                            tid,
                                            bit32_flag,
                                            DecodeState {
                                                pos: pos as int,
                                                events: view_events(events@),
                                                ..stn
                                            },
                                        ));
                                    }
                                }
                            }
                        },
                    }
                },
            }
        }
    }
    proof {
        assert(spec_decode_records(
            buffer@,
            pid,
            tid,
            bit32_flag,
            DecodeState {
                pos: pos as int,
                pre_ts: pre_ts as int,
                stack: view_events(stack@),
                events: view_events(events@),
                warnings: warnings@,
                tss,
            },
        ) == spec_finish(
            DecodeState {
                pos: pos as int,
                pre_ts: pre_ts as int,
                stack: view_events(stack@),
                events: view_events(events@),
                warnings: warnings@,
                tss,
            },
        ));
    }
    finish_decode(&mut events, stack, &mut warnings);
    proof {
        assert(spec_decode(buffer@, bit32_flag) matches DecodeOut::Done { events: se, warnings: sw, tss: stt }
            && se == view_events(events@) && sw == warnings@);
    }
    Ok((events, warnings))
}

/// Decodes the contents of one binary trace file.
pub fn parse_binary_file(buffer: &Vec<u8>, bit32_flag: bool) -> (r: Result<
    (Vec<Event>, Vec<Warning>),
    DecodeError,
>)
    ensures
        (match r {
            Ok(ok) => spec_decode(buffer@, bit32_flag) matches DecodeOut::Done {
                events,
                warnings,
                tss,
            } && events == view_events(ok.0@) && warnings == ok.1@,
            Err(e) => spec_decode(buffer@, bit32_flag) matches DecodeOut::Fail {
                kind,
                offset,
                events,
                warnings,
                tss,
            } && kind == e.kind && offset == e.offset as int && events == view_events(e.events@)
                && warnings == e.warnings@,
        }),
{
    parse_binary_buffer(buffer, bit32_flag)
}

/// Decodes a sequence of buffers in order: the events and warnings of each,
/// concatenated, or the failure of the first buffer that does not decode.
pub open spec fn spec_decode_files(buffers: Seq<Seq<u8>>, bit32: bool) -> DecodeOut
    decreases buffers.len(),
{
    if buffers.len() == 0 {
        DecodeOut::Done { events: Seq::empty(), warnings: Seq::empty(), tss: Seq::empty() }
    } else {
        match spec_decode(buffers[0], bit32) {
            DecodeOut::Fail { kind, offset, events, warnings, tss } => DecodeOut::Fail {
                kind,
                offset,
                events,
                warnings,
                tss,
            },
            DecodeOut::Done { events, warnings, tss } => match spec_decode_files(
                buffers.drop_first(),
                bit32,
            ) {
                DecodeOut::Fail { kind, offset, events, warnings, tss } => DecodeOut::Fail {
                    kind,
                    offset,
                    events,
                    warnings,
                    tss,
                },
                DecodeOut::Done { events: e2, warnings: w2, tss: t2 } => DecodeOut::Done {
                    events: events + e2,
                    warnings: warnings + w2,
                    tss: tss + t2,
                },
            },
        }
    }
}

/// Joins accumulated events and warnings with the outcome of the buffers
/// still to decode.
pub open spec fn spec_join_decoded(
    events: Seq<EventModel>,
    warnings: Seq<Warning>,
    tss: Seq<int>,
    out: DecodeOut,
) -> DecodeOut {
    match out {
        DecodeOut::Fail { kind, offset, events, warnings, tss } => DecodeOut::Fail {
            kind,
            offset,
            events,
            warnings,
            tss,
        },
        DecodeOut::Done { events: e2, warnings: w2, tss: t2 } => DecodeOut::Done {
            events: events + e2,
            warnings: warnings + w2,
            tss: tss + t2,
        },
    }
}

/// Decodes the contents of each binary trace file, in order, and
/// concatenates their events and warnings; the first buffer that fails to
/// decode fails the whole call with its own error.
pub fn parse_binary_files(buffers: &Vec<Vec<u8>>, bit32_flag: bool) -> (r: Result<
    (Vec<Event>, Vec<Warning>),
    DecodeError,
>)
    ensures
        (match r {
            Ok(ok) => spec_decode_files(buffers.deep_view(), bit32_flag) matches DecodeOut::Done {
                events,
                warnings,
                tss,
            } && events == view_events(ok.0@) && warnings == ok.1@,
            Err(e) => spec_decode_files(buffers.deep_view(), bit32_flag) matches DecodeOut::Fail {
                kind,
                offset,
                events,
                warnings,
                tss,
            } && kind == e.kind && offset == e.offset as int && events == view_events(e.events@)
                && warnings == e.warnings@,
        }),
{
    let mut events: Vec<Event> = Vec::new();
    let mut warnings: Vec<Warning> = Vec::new();
    let ghost mut tss: Seq<int> = Seq::empty();
    let n = buffers.len();
    let mut i: usize = 0;
    proof {
        assert(view_events(events@) =~= Seq::<EventModel>::empty());
        assert(buffers.deep_view().skip(0) =~= buffers.deep_view());
        assert(spec_join_decoded(
            view_events(events@),
            warnings@,
            tss,
            spec_decode_files(buffers.deep_view(), bit32_flag),
        ) =~~= spec_decode_files(buffers.deep_view(), bit32_flag));
    }
    while i < n
        invariant
            0 <= i <= n,
            n == buffers@.len(),
            spec_decode_files(buffers.deep_view(), bit32_flag) == spec_join_decoded(
                view_events(events@),
                warnings@,
                tss,
                spec_decode_files(buffers.deep_view().skip(i as int), bit32_flag),
            ),
        decreases n - i,
    {
        let ghost pre_events = view_events(events@);
        let ghost pre_warnings = warnings@;
        let ghost pre_tss = tss;
        let ghost rest = buffers.deep_view().skip(i as int);
        proof {
            assert(rest[0] == buffers.deep_view()[i as int]);
            assert(buffers.deep_view()[i as int] == buffers@[i as int]@);
            assert(rest.drop_first() =~= buffers.deep_view().skip(i + 1));
        }
        match parse_binary_buffer(&buffers[i], bit32_flag) {
            Err(e) => {
                proof {
                    assert(spec_decode_files(buffers.deep_view(), bit32_flag)
                        matches DecodeOut::Fail { kind, offset, events: se, warnings: sw, tss: stt }
                        && kind == e.kind && offset == e.offset as int && se == view_events(
                        e.events@,
                    ) && sw == e.warnings@);
                }
                return Err(e);
            },
            Ok((mut ev1, mut w1)) => {
                let ghost e1 = view_events(ev1@);
                let ghost w1v = w1@;
                events.append(&mut ev1);
                warnings.append(&mut w1);
                proof {
                    let out1 = spec_decode(buffers@[i as int]@, bit32_flag);
                    tss = tss + out1->Done_tss;
                    assert(view_events(events@) =~= pre_events + e1);
                    assert(spec_decode_files(buffers.deep_view(), bit32_flag) == spec_join_decoded(
                        view_events(events@),
                        warnings@,
                        tss,
                        spec_decode_files(buffers.deep_view().skip(i + 1), bit32_flag),
                    )) by {
                        assert(spec_decode_files(rest, bit32_flag) == spec_join_decoded(
                            e1,
                            w1v,
                            out1->Done_tss,
                            spec_decode_files(buffers.deep_view().skip(i + 1), bit32_flag),
                        ));
                        match spec_decode_files(buffers.deep_view().skip(i + 1), bit32_flag) {
                            DecodeOut::Done { events: e2, warnings: w2, tss: t2 } => {
                                assert(pre_events + (e1 + e2) =~= (pre_events + e1) + e2);
                                assert(pre_warnings + (w1v + w2) =~= (pre_warnings + w1v) + w2);
                                assert(pre_tss + (out1->Done_tss + t2) =~= (pre_tss
                                    + out1->Done_tss) + t2);
                            },
                            DecodeOut::Fail { .. } => {},
                        }
                    }
                }
            },
        }
        i = i + 1;
    }
    proof {
        assert(buffers.deep_view().skip(n as int) =~= Seq::<Seq<u8>>::empty());
        assert(view_events(events@) + Seq::<EventModel>::empty() =~= view_events(events@));
        assert(warnings@ + Seq::<Warning>::empty() =~= warnings@);
        assert(tss + Seq::<int>::empty() =~= tss);
    }
    Ok((events, warnings))
}

/// The reason a text trace line could not be parsed.
#[derive(Clone, Copy, PartialEq, Eq, Structural, Debug)]
pub enum TextParseErrorKind {
    /// The line does not hold exactly five whitespace-separated fields:
    /// thread id, timestamp in microseconds, action, caller address, callee
    /// address.
    WrongFieldCount,
    /// The thread id field is not an unsigned 32-bit decimal number.
    BadThreadId,
    /// The timestamp field is not an unsigned 64-bit decimal number.
    BadTimestamp,
    /// The action field is neither `enter` nor `exit`.
    BadAction,
}

/// A text trace line that could not be parsed, with the offending line.
#[derive(Debug)]
pub struct TextParseError {
    pub line: String,
    pub kind: TextParseErrorKind,
}

/// The event of one text trace line: named by its callee address field, in
/// the fixed `category` category, under the fixed process id 1234, with its
/// timestamp converted from microseconds to nanoseconds.
pub open spec fn text_line_model(tid: u32, ts_us: nat, ety: EventType, name: Seq<char>) -> EventModel {
    EventModel {
        name: name,
        category: "category"@,
        event_type: ety,
        timestamp: ts_us * 1000 as int,
        duration: 0,
        process_id: 1234,
        thread_id: tid,
        instant_scope: None,
        scope: None,
        id: None,
        args: None,
    }
}

/// Parses one text trace line: five whitespace-separated fields
/// `<tid> <timestamp_us> <enter|exit> <caller_addr> <callee_addr>`, of which
/// the caller address is read and discarded.
pub open spec fn spec_parse_line(line: Seq<char>) -> Result<EventModel, TextParseErrorKind> {
    let fields = text::spec_split_ws(line, 0);
    if fields.len() != 5 {
        Err(TextParseErrorKind::WrongFieldCount)
    } else if !(fields[0].len() > 0 && text::is_dec_digits(fields[0]) && text::dec_val(fields[0])
        <= u32::MAX) {
        Err(TextParseErrorKind::BadThreadId)
    } else if !(fields[1].len() > 0 && text::is_dec_digits(fields[1]) && text::dec_val(fields[1])
        <= u64::MAX) {
        Err(TextParseErrorKind::BadTimestamp)
    } else if fields[2] == "enter"@ {
        Ok(
            text_line_model(
                text::dec_val(fields[0]) as u32,
                text::dec_val(fields[1]),
                EventType::DurationBegin,
                fields[4],
            ),
        )
    } else if fields[2] == "exit"@ {
        Ok(
            text_line_model(
                text::dec_val(fields[0]) as u32,
                text::dec_val(fields[1]),
                EventType::DurationEnd,
                fields[4],
            ),
        )
    } else {
        Err(TextParseErrorKind::BadAction)
    }
}

/// Parses one text trace line into its event, or says exactly why the line
/// is rejected, returning the line with the error.
pub fn parse_line_to_event(line: &str) -> (r: Result<Event, TextParseError>)
    ensures
        (match r {
            Ok(e) => spec_parse_line(line@) == Ok::<EventModel, TextParseErrorKind>(e@),
            Err(e) => spec_parse_line(line@) == Err::<EventModel, TextParseErrorKind>(e.kind)
                && e.line@ == line@,
        }),
{
    let fields = text::split_whitespace_fields(line);
    proof {
        assert(forall|k: int|
            0 <= k < fields@.len() ==> (#[trigger] fields@[k])@ == fields.deep_view()[k]);
    }
    if fields.len() != 5 {
        return Err(
            TextParseError { line: line.to_owned(), kind: TextParseErrorKind::WrongFieldCount },
        );
    }
    let tid: u32 = match text::parse_u64_dec(fields[0].as_str()) {
        Some(v) => {
            if v > 0xffff_ffff {
                return Err(
                    TextParseError { line: line.to_owned(), kind: TextParseErrorKind::BadThreadId },
                );
            }
            v as u32
        },
        None => {
            return Err(
                TextParseError { line: line.to_owned(), kind: TextParseErrorKind::BadThreadId },
            );
        },
    };
    let ts_us: u64 = match text::parse_u64_dec(fields[1].as_str()) {
        Some(v) => v,
        None => {
            return Err(
                TextParseError { line: line.to_owned(), kind: TextParseErrorKind::BadTimestamp },
            );
        },
    };
    let event_type: EventType = if fields[2] == "enter".to_owned() {
        EventType::DurationBegin
    } else if fields[2] == "exit".to_owned() {
        EventType::DurationEnd
    } else {
        return Err(TextParseError { line: line.to_owned(), kind: TextParseErrorKind::BadAction });
    };
    let name = fields[4].clone();
    let ev = Event {
        name,
        category: "category".to_owned(),
        event_type,
        timestamp: (ts_us as u128) * 1000,
        duration: 0,
        process_id: 1234,
        thread_id: tid,
        instant_scope: None,
        scope: None,
        id: None,
        args: None,
    };
    proof {
        assert(ev@ =~~= text_line_model(
            text::dec_val(fields.deep_view()[0]) as u32,
            text::dec_val(fields.deep_view()[1]),
            ev.event_type,
            fields.deep_view()[4],
        ));
    }
    Ok(ev)
}

/// Parses a whole text trace: the events of its lines, in order, or the
/// error of the first line that does not parse.
pub open spec fn spec_parse_lines(lines: Seq<Seq<char>>) -> Result<
    Seq<EventModel>,
    (Seq<char>, TextParseErrorKind),
>
    decreases lines.len(),
{
    if lines.len() == 0 {
        Ok(seq![])
    } else {
        match spec_parse_line(lines[0]) {
            Err(k) => Err((lines[0], k)),
            Ok(e) => match spec_parse_lines(lines.drop_first()) {
                Err(p) => Err(p),
                Ok(rest) => Ok(seq![e] + rest),
            },
        }
    }
}

/// Parses a text trace held in one string, line by line.
pub open spec fn spec_parse_text(s: Seq<char>) -> Result<
    Seq<EventModel>,
    (Seq<char>, TextParseErrorKind),
> {
    spec_parse_lines(text::spec_split_lines(s, 0))
}

/// Parses the text trace `s`: one event per line, in order; the first line
/// that does not parse fails the whole call with that line and reason.
pub fn parse_text_buffer(s: &str) -> (r: Result<Vec<Event>, TextParseError>)
    ensures
        (match r {
            Ok(evs) => spec_parse_text(s@) == Ok::<Seq<EventModel>, (Seq<char>, TextParseErrorKind)>(
                view_events(evs@),
            ),
            Err(e) => spec_parse_text(s@) matches Err(p) && p.0 == e.line@ && p.1 == e.kind,
        }),
{
    let lines = text::split_lines(s);
    let ghost all = lines.deep_view();
    let mut events: Vec<Event> = Vec::new();
    let n = lines.len();
    let mut i: usize = 0;
    proof {
        assert(all.skip(0) =~= all);
        assert(view_events(events@) =~= Seq::<EventModel>::empty());
    }
    while i < n
        invariant
            0 <= i <= n,
            n == lines@.len(),
            all == lines.deep_view(),
            all == text::spec_split_lines(s@, 0),
            (match spec_parse_lines(all) {
                Ok(evs) => spec_parse_lines(all.skip(i as int)) matches Ok(rest) && evs
                    == view_events(events@) + rest,
                Err(p) => spec_parse_lines(all.skip(i as int)) == Err::<
                    Seq<EventModel>,
                    (Seq<char>, TextParseErrorKind),
                >(p),
            }),
        decreases n - i,
    {
        let ghost rest = all.skip(i as int);
        proof {
            assert(rest[0] == lines@[i as int]@);
            assert(rest.drop_first() =~= all.skip(i + 1));
        }
        match parse_line_to_event(lines[i].as_str()) {
            Err(e) => {
                proof {
                    assert(spec_parse_lines(rest) == Err::<
                        Seq<EventModel>,
                        (Seq<char>, TextParseErrorKind),
                    >((rest[0], e.kind)));
                }
                return Err(e);
            },
            Ok(ev) => {
                proof {
                    lemma_view_events_push(events@, ev);
                }
                events.push(ev);
                proof {
                    if spec_parse_lines(all) is Ok {
                        let evs = spec_parse_lines(all)->Ok_0;
                        let r1 = spec_parse_lines(all.skip(i + 1))->Ok_0;
                        assert(evs =~= view_events(events@) + r1);
                    }
                }
            },
        }
        i = i + 1;
    }
    proof {
        assert(all.skip(n as int) =~= Seq::<Seq<char>>::empty());
        assert(view_events(events@) + Seq::<EventModel>::empty() =~= view_events(events@));
    }
    Ok(events)
}

/// Parses the contents of one text trace file.
pub fn parse_text_file(s: &str) -> (r: Result<Vec<Event>, TextParseError>)
    ensures
        (match r {
            Ok(evs) => spec_parse_text(s@) == Ok::<Seq<EventModel>, (Seq<char>, TextParseErrorKind)>(
                view_events(evs@),
            ),
            Err(e) => spec_parse_text(s@) matches Err(p) && p.0 == e.line@ && p.1 == e.kind,
        }),
{
    parse_text_buffer(s)
}

/// Parses a sequence of text traces in order: the events of each,
/// concatenated, or the error of the first trace that does not parse.
pub open spec fn spec_parse_texts(texts: Seq<Seq<char>>) -> Result<
    Seq<EventModel>,
    (Seq<char>, TextParseErrorKind),
>
    decreases texts.len(),
{
    if texts.len() == 0 {
        Ok(seq![])
    } else {
        match spec_parse_text(texts[0]) {
            Err(p) => Err(p),
            Ok(evs) => match spec_parse_texts(texts.drop_first()) {
                Err(p) => Err(p),
                Ok(rest) => Ok(evs + rest),
            },
        }
    }
}

/// Parses the contents of each text trace file, in order, and concatenates
/// their events; the first file that fails to parse fails the whole call
/// with its own error.
pub fn parse_text_files(texts: &Vec<String>) -> (r: Result<Vec<Event>, TextParseError>)
    ensures
        (match r {
            Ok(evs) => spec_parse_texts(texts.deep_view()) == Ok::<
                Seq<EventModel>,
                (Seq<char>, TextParseErrorKind),
            >(view_events(evs@)),
            Err(e) => spec_parse_texts(texts.deep_view()) matches Err(p) && p.0 == e.line@ && p.1
                == e.kind,
        }),
{
    let mut events: Vec<Event> = Vec::new();
    let n = texts.len();
    let mut i: usize = 0;
    proof {
        assert(texts.deep_view().skip(0) =~= texts.deep_view());
        assert(view_events(events@) =~= Seq::<EventModel>::empty());
    }
    while i < n
        invariant
            0 <= i <= n,
            n == texts@.len(),
            (match spec_parse_texts(texts.deep_view()) {
                Ok(evs) => spec_parse_texts(texts.deep_view().skip(i as int)) matches Ok(rest)
                    && evs == view_events(events@) + rest,
                Err(p) => spec_parse_texts(texts.deep_view().skip(i as int)) == Err::<
                    Seq<EventModel>,
                    (Seq<char>, TextParseErrorKind),
                >(p),
            }),
        decreases n - i,
    {
        let ghost all = texts.deep_view();
        let ghost rest = all.skip(i as int);
        proof {
            assert(rest[0] == texts@[i as int]@);
            assert(rest.drop_first() =~= all.skip(i + 1));
        }
        match parse_text_file(texts[i].as_str()) {
            Err(e) => {
                proof {
                    assert(spec_parse_text(rest[0]) matches Err(p) && p.0 == e.line@ && p.1
                        == e.kind);
                    assert(spec_parse_texts(rest) == Err::<
                        Seq<EventModel>,
                        (Seq<char>, TextParseErrorKind),
                    >(spec_parse_text(rest[0])->Err_0));
                }
                return Err(e);
            },
            Ok(mut evs) => {
                let ghost e1 = view_events(evs@);
                let ghost pre = view_events(events@);
                events.append(&mut evs);
                proof {
                    assert(view_events(events@) =~= pre + e1);
                    if spec_parse_texts(all) is Ok {
                        let evs_all = spec_parse_texts(all)->Ok_0;
                        let r1 = spec_parse_texts(all.skip(i + 1))->Ok_0;
                        assert(evs_all =~= view_events(events@) + r1);
                    }
                }
            },
        }
        i = i + 1;
    }
    proof {
        assert(texts.deep_view().skip(n as int) =~= Seq::<Seq<char>>::empty());
        assert(view_events(events@) + Seq::<EventModel>::empty() =~= view_events(events@));
    }
    Ok(events)
}

/// The events of a decode outcome, whether it finished or failed.
pub open spec fn out_events(o: DecodeOut) -> Seq<EventModel> {
    match o {
        DecodeOut::Done { events, .. } => events,
        DecodeOut::Fail { events, .. } => events,
    }
}

/// The warnings of a decode outcome, whether it finished or failed.
pub open spec fn out_warnings(o: DecodeOut) -> Seq<Warning> {
    match o {
        DecodeOut::Done { warnings, .. } => warnings,
        DecodeOut::Fail { warnings, .. } => warnings,
    }
}

/// The record timestamps of a decode outcome, whether it finished or failed.
pub open spec fn out_tss(o: DecodeOut) -> Seq<int> {
    match o {
        DecodeOut::Done { tss, .. } => tss,
        DecodeOut::Fail { tss, .. } => tss,
    }
}

/// Every index of a non-negative `find_key` result lies inside the map.
proof fn lemma_find_key_range(a: Seq<(Seq<char>, Seq<char>)>, k: Seq<char>)
    ensures
        -1 <= find_key(a, k) < a.len(),
        find_key(a, k) >= 0 ==> a[find_key(a, k)].0 == k,
    decreases a.len(),
{
    if a.len() > 0 && a[0].0 != k {
        lemma_find_key_range(a.drop_first(), k);
    }
}

/// Inserting a pair leaves the map holding that pair somewhere.
proof fn lemma_args_insert_holds(
    a: Option<Seq<(Seq<char>, Seq<char>)>>,
    k: Seq<char>,
    v: Seq<char>,
)
    ensures
        exists|i: int|
            0 <= i < spec_args_insert(a, k, v).len() && #[trigger] spec_args_insert(a, k, v)[i]
                == (k, v),
{
    match a {
        None => {
            assert(spec_args_insert(a, k, v)[0] == (k, v));
        },
        Some(s) => {
            lemma_find_key_range(s, k);
            let f = find_key(s, k);
            if f < 0 {
                assert(spec_args_insert(a, k, v)[s.len() as int] == (k, v));
            } else {
                assert(spec_args_insert(a, k, v)[f] == (k, v));
            }
        },
    }
}

/// Law: a completed span's duration is exactly the difference of its end and
/// begin timestamps; a zero difference alone is replaced by the 200
/// nanosecond virtual duration, and then the argument map binds
/// `virtual_duration` to `true`. Everything else about the event is kept.
pub proof fn lemma_complete_event_duration(e: EventModel, end: int)
    ensures
        spec_complete_event(e, end).event_type == EventType::Complete,
        spec_complete_event(e, end).timestamp == e.timestamp,
        spec_complete_event(e, end).name == e.name,
        end - e.timestamp != 0 ==> spec_complete_event(e, end).duration == end - e.timestamp
            && spec_complete_event(e, end).args == e.args,
        end - e.timestamp == 0 ==> spec_complete_event(e, end).duration == 200,
        end - e.timestamp == 0 ==> spec_complete_event(e, end).args is Some,
        end - e.timestamp == 0 ==> (exists|i: int|
            0 <= i < (spec_complete_event(e, end).args->0).len() && #[trigger] (
            spec_complete_event(e, end).args->0)[i] == ("virtual_duration"@, "true"@)),
{
    if end - e.timestamp == 0 {
        lemma_args_insert_holds(e.args, "virtual_duration"@, "true"@);
        let m = spec_args_insert(e.args, "virtual_duration"@, "true"@);
        let i = choose|i: int|
            0 <= i < m.len() && #[trigger] m[i] == ("virtual_duration"@, "true"@);
        assert(spec_complete_event(e, end).args == Some(m));
        assert(0 <= i < (spec_complete_event(e, end).args->0).len() && (spec_complete_event(
            e,
            end,
        ).args->0)[i] == ("virtual_duration"@, "true"@));
    }
}

/// The number of begin events standing at the tail of the event list.
pub open spec fn num_trailing_begins(evs: Seq<EventModel>) -> int
    decreases evs.len(),
{
    if evs.len() > 0 && evs.last().event_type == EventType::DurationBegin {
        1 + num_trailing_begins(evs.drop_last())
    } else {
        0
    }
}

/// Every open call is accounted for: begin events stand, if at all, only as
/// the flushed tail of the event list, and when that tail is non-empty the
/// last warning names its exact count.
pub open spec fn begins_accounted(evs: Seq<EventModel>, ws: Seq<Warning>) -> bool {
    let k = num_trailing_begins(evs);
    (forall|i: int|
        0 <= i < evs.len() - k ==> (#[trigger] evs[i]).event_type != EventType::DurationBegin) && (
    k > 0 ==> ws.len() > 0 && ws.last() == Warning::LeftoverStack { count: k as usize })
}

/// Events without begins followed by begins alone have exactly those begins
/// as their trailing tail.
proof fn lemma_num_trailing_concat(a: Seq<EventModel>, b: Seq<EventModel>)
    requires
        forall|i: int|
            0 <= i < a.len() ==> (#[trigger] a[i]).event_type != EventType::DurationBegin,
        forall|i: int|
            0 <= i < b.len() ==> (#[trigger] b[i]).event_type == EventType::DurationBegin,
    ensures
        num_trailing_begins(a + b) == b.len(),
    decreases b.len(),
{
    if b.len() > 0 {
        assert((a + b).last() == b.last());
        assert((a + b).drop_last() =~= a + b.drop_last());
        lemma_num_trailing_concat(a, b.drop_last());
    } else {
        assert(a + b =~= a);
    }
}

/// The decoder's inductive invariants, carried from a state to its outcome:
/// record timestamps never decrease, only begin events wait on the stack,
/// and no begin event is emitted before the final flush.
#[verifier::rlimit(60)]
proof fn lemma_decode_records_invariants(
    bytes: Seq<u8>,
    pid: u32,
    tid: u32,
    bit32: bool,
    st: DecodeState,
)
    requires
        0 <= st.pos <= bytes.len(),
        forall|i: int| 0 <= i < st.tss.len() - 1 ==> #[trigger] st.tss[i] <= st.tss[i + 1],
        st.tss.len() > 0 ==> st.tss.last() <= st.pre_ts,
        forall|i: int|
            0 <= i < st.stack.len() ==> (#[trigger] st.stack[i]).event_type
                == EventType::DurationBegin,
        forall|i: int|
            0 <= i < st.events.len() ==> (#[trigger] st.events[i]).event_type
                != EventType::DurationBegin,
    ensures
        ({
            let out = spec_decode_records(bytes, pid, tid, bit32, st);
            let t = out_tss(out);
            (forall|i: int| 0 <= i < t.len() - 1 ==> #[trigger] t[i] <= t[i + 1])
                && begins_accounted(out_events(out), out_warnings(out))
        }),
    decreases bytes.len() - st.pos,
{
    let out = spec_decode_records(bytes, pid, tid, bit32, st);
    let len = bytes.len() as int;
    if st.pos >= len - 1 {
        lemma_finish_invariants(st);
    } else if st.pos + 4 > len {
        lemma_fail_invariants(st);
    } else {
        let v = vstd::bytes::spec_u32_from_le_bytes(bytes.subrange(st.pos, st.pos + 4));
        if v == 0 {
            lemma_finish_invariants(
                DecodeState {
                    warnings: st.warnings.push(Warning::TruncatedBuffer { offset: st.pos as usize }),
                    ..st
                },
            );
        } else {
            let flag = ((v - 1) as u32) >> 30u32;
            let delta = (v & 0x3fff_ffffu32) as int;
            let ts = st.pre_ts + delta * 1000;
            let hpos = st.pos + 4;
            assert(st.pre_ts <= ts);
            if flag == 0 {
                let aw: int = if bit32 {
                    4
                } else {
                    8
                };
                if hpos + aw <= len {
                    let addr: u64 = if bit32 {
                        vstd::bytes::spec_u32_from_le_bytes(bytes.subrange(hpos, hpos + 4)) as u64
                    } else {
                        vstd::bytes::spec_u64_from_le_bytes(bytes.subrange(hpos, hpos + 8))
                    };
                    lemma_decode_records_invariants(
                        bytes,
                        pid,
                        tid,
                        bit32,
                        DecodeState {
                            pos: hpos + aw,
                            pre_ts: ts,
                            stack: st.stack.push(enter_model(pid, tid, ts, addr)),
                            events: st.events,
                            warnings: st.warnings,
                            tss: st.tss.push(ts),
                        },
                    );
                } else {
                    lemma_fail_invariants(st);
                }
            } else if flag == 1 {
                if hpos + 4 <= len {
                    let sub = vstd::bytes::spec_u32_from_le_bytes(bytes.subrange(hpos, hpos + 4));
                    match spec_extend_event_type(sub) {
                        None => {
                            lemma_fail_invariants(st);
                        },
                        Some(ety) => {
                            if ety == EventType::AsyncNestableStart {
                                match spec_read_blob(bytes, hpos + 4) {
                                    BlobOut::Text(name, next) => {
                                        lemma_blob_next_bounds(bytes, hpos + 4);
                                        lemma_decode_records_invariants(
                                            bytes,
                                            pid,
                                            tid,
                                            bit32,
                                            DecodeState {
                                                pos: next,
                                                pre_ts: ts,
                                                stack: st.stack,
                                                events: st.events.push(
                                                    async_start_model(pid, tid, ts, name),
                                                ),
                                                warnings: st.warnings,
                                                tss: st.tss.push(ts),
                                            },
                                        );
                                    },
                                    _ => {
                                        lemma_fail_invariants(st);
                                    },
                                }
                            } else if ety == EventType::DurationBegin {
                                lemma_decode_records_invariants(
                                    bytes,
                                    pid,
                                    tid,
                                    bit32,
                                    DecodeState {
                                        pos: hpos + 4,
                                        pre_ts: ts,
                                        stack: st.stack.push(extend_plain_model(pid, tid, ts, ety)),
                                        events: st.events,
                                        warnings: st.warnings,
                                        tss: st.tss.push(ts),
                                    },
                                );
                            } else if ety == EventType::DurationEnd {
                                lemma_fail_invariants(st);
                            } else {
                                lemma_decode_records_invariants(
                                    bytes,
                                    pid,
                                    tid,
                                    bit32,
                                    DecodeState {
                                        pos: hpos + 4,
                                        pre_ts: ts,
                                        stack: st.stack,
                                        events: st.events.push(extend_plain_model(pid, tid, ts, ety)),
                                        warnings: st.warnings,
                                        tss: st.tss.push(ts),
                                    },
                                );
                            }
                        },
                    }
                } else {
                    lemma_fail_invariants(st);
                }
            } else if flag == 2 {
                if st.stack.len() == 0 {
                    lemma_fail_invariants(st);
                } else {
                    let e1 = spec_complete_event(st.stack.last(), ts);
                    let e2 = if e1.name.len() == 0 {
                        EventModel { category: "internal"@, name: "[internal]"@, ..e1 }
                    } else {
                        e1
                    };
                    lemma_decode_records_invariants(
                        bytes,
                        pid,
                        tid,
                        bit32,
                        DecodeState {
                            pos: hpos,
                            pre_ts: ts,
                            stack: st.stack.drop_last(),
                            events: st.events.push(e2),
                            warnings: st.warnings,
                            tss: st.tss.push(ts),
                        },
                    );
                }
            } else {
                if hpos + 4 <= len {
                    let sub = vstd::bytes::spec_u32_from_le_bytes(bytes.subrange(hpos, hpos + 4));
                    match spec_extend_event_type(sub) {
                        None => {
                            lemma_fail_invariants(st);
                        },
                        Some(ety) => match spec_read_blob(bytes, hpos + 4) {
                            BlobOut::Text(name, next) => {
                                lemma_blob_next_bounds(bytes, hpos + 4);
                                if ety == EventType::DurationEnd {
                                    if st.stack.len() == 0 {
                                        lemma_fail_invariants(st);
                                    } else {
                                        let e1 = EventModel {
                                            category: "external"@,
                                            name: name,
                                            ..st.stack.last()
                                        };
                                        let e2 = spec_complete_event(e1, ts);
                                        lemma_decode_records_invariants(
                                            bytes,
                                            pid,
                                            tid,
                                            bit32,
                                            DecodeState {
                                                pos: next,
                                                pre_ts: ts,
                                                stack: st.stack.drop_last(),
                                                events: st.events.push(e2),
                                                warnings: st.warnings,
                                                tss: st.tss.push(ts),
                                            },
                                        );
                                    }
                                } else if ety == EventType::DurationBegin {
                                    lemma_decode_records_invariants(
                                        bytes,
                                        pid,
                                        tid,
                                        bit32,
                                        DecodeState {
                                            pos: next,
                                            pre_ts: ts,
                                            stack: st.stack.push(
                                                extend_exit_model(pid, tid, ts, ety, name),
                                            ),
                                            events: st.events,
                                            warnings: st.warnings,
                                            tss: st.tss.push(ts),
                                        },
                                    );
                                } else {
                                    lemma_decode_records_invariants(
                                        bytes,
                                        pid,
                                        tid,
                                        bit32,
                                        DecodeState {
                                            pos: next,
                                            pre_ts: ts,
                                            stack: st.stack,
                                            events: st.events.push(
                                                extend_exit_model(pid, tid, ts, ety, name),
                                            ),
                                            warnings: st.warnings,
                                            tss: st.tss.push(ts),
                                        },
                                    );
                                }
                            },
                            _ => {
                                lemma_fail_invariants(st);
                            },
                        },
                    }
                } else {
                    lemma_fail_invariants(st);
                }
            }
        }
    }
}

/// A failing state keeps its accumulated events, which hold no begin event.
proof fn lemma_fail_invariants(st: DecodeState)
    requires
        forall|i: int| 0 <= i < st.tss.len() - 1 ==> #[trigger] st.tss[i] <= st.tss[i + 1],
        forall|i: int|
            0 <= i < st.events.len() ==> (#[trigger] st.events[i]).event_type
                != EventType::DurationBegin,
    ensures
        forall|k: DecodeErrorKind|
            {
                let out = #[trigger] spec_fail(st, k);
                let t = out_tss(out);
                (forall|i: int| 0 <= i < t.len() - 1 ==> #[trigger] t[i] <= t[i + 1])
                    && begins_accounted(out_events(out), out_warnings(out))
            },
{
    lemma_num_trailing_concat(st.events, Seq::empty());
    assert(st.events + Seq::<EventModel>::empty() =~= st.events);
    assert(num_trailing_begins(st.events) == 0);
}

/// Finishing flushes the stack: the emitted events come first, the begin
/// events of the stack follow, and a warning names their count.
proof fn lemma_finish_invariants(st: DecodeState)
    requires
        forall|i: int| 0 <= i < st.tss.len() - 1 ==> #[trigger] st.tss[i] <= st.tss[i + 1],
        forall|i: int|
            0 <= i < st.stack.len() ==> (#[trigger] st.stack[i]).event_type
                == EventType::DurationBegin,
        forall|i: int|
            0 <= i < st.events.len() ==> (#[trigger] st.events[i]).event_type
                != EventType::DurationBegin,
    ensures
        ({
            let out = spec_finish(st);
            let t = out_tss(out);
            (forall|i: int| 0 <= i < t.len() - 1 ==> #[trigger] t[i] <= t[i + 1])
                && begins_accounted(out_events(out), out_warnings(out))
        }),
{
    let out = spec_finish(st);
    let evs = out_events(out);
    if st.stack.len() > 0 {
        lemma_num_trailing_concat(st.events, st.stack);
        assert(forall|i: int|
            0 <= i < st.events.len() ==> #[trigger] evs[i] == st.events[i]);
    } else {
        lemma_num_trailing_concat(st.events, Seq::empty());
        assert(st.events + Seq::<EventModel>::empty() =~= st.events);
    }
}

/// Law: within one buffer the absolute timestamps of the decoded records
/// never decrease, whether decoding finishes or fails: each record adds an
/// unsigned delta to the running timestamp.
pub proof fn lemma_decode_timestamps_monotone(bytes: Seq<u8>, bit32: bool)
    ensures
        ({
            let t = out_tss(spec_decode(bytes, bit32));
            forall|i: int| 0 <= i < t.len() - 1 ==> #[trigger] t[i] <= t[i + 1]
        }),
{
    if bytes.len() >= 16 {
        let pid = vstd::bytes::spec_u32_from_le_bytes(bytes.subrange(8, 12));
        let tid = vstd::bytes::spec_u32_from_le_bytes(bytes.subrange(12, 16));
        lemma_decode_records_invariants(bytes, pid, tid, bit32, spec_initial_state(bytes));
    }
}

/// Law: no open call is silently dropped. In every decode outcome, finished
/// or failed, the begin events stand only as the flushed tail of the event
/// list, and whenever that tail is non-empty the last warning names its
/// exact count; every enter before it was closed into a completed span.
pub proof fn lemma_enters_never_dropped(bytes: Seq<u8>, bit32: bool)
    ensures
        ({
            let out = spec_decode(bytes, bit32);
            begins_accounted(out_events(out), out_warnings(out))
        }),
{
    let out = spec_decode(bytes, bit32);
    if bytes.len() >= 16 {
        let pid = vstd::bytes::spec_u32_from_le_bytes(bytes.subrange(8, 12));
        let tid = vstd::bytes::spec_u32_from_le_bytes(bytes.subrange(12, 16));
        lemma_decode_records_invariants(bytes, pid, tid, bit32, spec_initial_state(bytes));
    } else {
        assert(num_trailing_begins(out_events(out)) == 0);
    }
}

/// Law: decoding is a function of the buffer contents and the address width
/// alone, so decoding the same buffer twice gives identical outcomes.
pub proof fn lemma_decode_deterministic(a: Seq<u8>, b: Seq<u8>, bit32: bool)
    requires
        a == b,
    ensures
        spec_decode(a, bit32) == spec_decode(b, bit32),
{
}

/// Law: a byte string of length `l` laid out as a text blob — its length in
/// four little-endian bytes, the bytes themselves, zero padding up to the
/// next 4-byte boundary — reads back as exactly those bytes, and the cursor
/// lands on the 4-byte boundary after them.
pub proof fn lemma_blob_round_trip(bytes: Seq<u8>, pos: int, payload: Seq<u8>)
    requires
        0 <= pos,
        payload.len() <= u32::MAX,
        vstd::utf8::valid_utf8(payload),
        pos + 4 + padded_len(payload.len() as int) <= bytes.len(),
        bytes.subrange(pos, pos + 4) == vstd::bytes::spec_u32_to_le_bytes(payload.len() as u32),
        bytes.subrange(pos + 4, pos + 4 + payload.len()) == payload,
    ensures
        spec_read_blob(bytes, pos) == BlobOut::Text(
            vstd::utf8::decode_utf8(payload),
            pos + 4 + padded_len(payload.len() as int),
        ),
        vstd::utf8::encode_utf8(vstd::utf8::decode_utf8(payload)) == payload,
        padded_len(payload.len() as int) % 4 == 0,
        payload.len() <= padded_len(payload.len() as int) < payload.len() + 4,
{
    vstd::bytes::lemma_auto_spec_u32_to_from_le_bytes();
    let l = payload.len() as int;
    assert(vstd::bytes::spec_u32_to_le_bytes(payload.len() as u32).len() == 4);
    assert(vstd::bytes::spec_u32_from_le_bytes(vstd::bytes::spec_u32_to_le_bytes(payload.len() as u32))
        == payload.len() as u32);
    assert(vstd::bytes::spec_u32_from_le_bytes(bytes.subrange(pos, pos + 4)) == payload.len()
        as u32);
    vstd::utf8::decode_utf8_encode_utf8(payload);
}

} // verus!

