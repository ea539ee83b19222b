//! The Chrome Trace Event data model: one value type per trace event, the
//! single-character phase codes of the wire format, and the exact
//! integer-microsecond rendering rule for timestamps and durations.
//!
//! Timestamps and durations are held as nanosecond counts so that the
//! 200-nanosecond virtual duration and exact microsecond multiples can both
//! be represented without loss.

use vstd::prelude::*;

verus! {

/// The phase of a trace event, one variant per single-character code of the
/// Chrome Trace Event format.
#[derive(Clone, Copy, PartialEq, Eq, Structural, Debug)]
pub enum EventType {
    DurationBegin,
    DurationEnd,
    Complete,
    Instant,
    Counter,
    AsyncNestableStart,
    AsyncNestableInstant,
    AsyncNestableEnd,
    FlowStart,
    FlowStep,
    FlowEnd,
    Sample,
    ObjectCreated,
    ObjectSnapshot,
    ObjectDestroyed,
    Metadata,
    MemoryDumpGlobal,
    MemoryDumpProcess,
    Mark,
    ClockSync,
    Context,
}

/// The single-character code that the wire format uses for each phase.
pub open spec fn spec_event_type_code(t: EventType) -> char {
    match t {
        EventType::DurationBegin => 'B',
        EventType::DurationEnd => 'E',
        EventType::Complete => 'X',
        EventType::Instant => 'I',
        EventType::Counter => 'C',
        EventType::AsyncNestableStart => 'b',
        EventType::AsyncNestableInstant => 'n',
        EventType::AsyncNestableEnd => 'e',
        EventType::FlowStart => 's',
        EventType::FlowStep => 't',
        EventType::FlowEnd => 'f',
        EventType::Sample => 'P',
        EventType::ObjectCreated => 'N',
        EventType::ObjectSnapshot => 'O',
        EventType::ObjectDestroyed => 'D',
        EventType::Metadata => 'M',
        EventType::MemoryDumpGlobal => 'V',
        EventType::MemoryDumpProcess => 'v',
        EventType::Mark => 'R',
        EventType::ClockSync => 'c',
        EventType::Context => ',',
    }
}

impl EventType {
    /// The single-character phase code of the wire format.
    pub fn code(&self) -> (c: char)
        ensures
            c == spec_event_type_code(*self),
    {
        match self {
            EventType::DurationBegin => 'B',
            EventType::DurationEnd => 'E',
            EventType::Complete => 'X',
            EventType::Instant => 'I',
            EventType::Counter => 'C',
            EventType::AsyncNestableStart => 'b',
            EventType::AsyncNestableInstant => 'n',
            EventType::AsyncNestableEnd => 'e',
            EventType::FlowStart => 's',
            EventType::FlowStep => 't',
            EventType::FlowEnd => 'f',
            EventType::Sample => 'P',
            EventType::ObjectCreated => 'N',
            EventType::ObjectSnapshot => 'O',
            EventType::ObjectDestroyed => 'D',
            EventType::Metadata => 'M',
            EventType::MemoryDumpGlobal => 'V',
            EventType::MemoryDumpProcess => 'v',
            EventType::Mark => 'R',
            EventType::ClockSync => 'c',
            EventType::Context => ',',
        }
    }
}

impl Default for EventType {
    fn default() -> (r: Self)
        ensures
            r == EventType::DurationBegin,
    {
        EventType::DurationBegin
    }
}

/// The scope of an instant event: global, process, or thread.
#[derive(Clone, Copy, PartialEq, Eq, Structural, Debug)]
pub enum Scope {
    Global,
    Process,
    Thread,
}

/// The single-character code that the wire format uses for each scope.
pub open spec fn spec_scope_code(s: Scope) -> char {
    match s {
        Scope::Global => 'g',
        Scope::Process => 'p',
        Scope::Thread => 't',
    }
}

impl Scope {
    /// The single-character scope code of the wire format.
    pub fn code(&self) -> (c: char)
        ensures
            c == spec_scope_code(*self),
    {
        match self {
            Scope::Global => 'g',
            Scope::Process => 'p',
            Scope::Thread => 't',
        }
    }
}

impl Default for Scope {
    fn default() -> (r: Self)
        ensures
            r == Scope::Global,
    {
        Scope::Global
    }
}

/// The mathematical model of one trace event: every text field as a sequence
/// of characters, every time as a nanosecond count.
#[verifier::ext_equal]
pub struct EventModel {
    pub name: Seq<char>,
    pub category: Seq<char>,
    pub event_type: EventType,
    pub timestamp: int,
    pub duration: int,
    pub process_id: u32,
    pub thread_id: u32,
    pub instant_scope: Option<Scope>,
    pub scope: Option<Seq<char>>,
    pub id: Option<Seq<char>>,
    pub args: Option<Seq<(Seq<char>, Seq<char>)>>,
}

/// One trace event. `timestamp` and `duration` are nanosecond counts;
/// `duration` is meaningful only for `Complete` events. `instant_scope`
/// carries the scope code of an instant event, `scope` and `id` the async
/// scope discriminator and flow id of async events, and `args` an argument
/// map whose insertion order carries no meaning.
#[derive(Debug, PartialEq)]
pub struct Event {
    pub name: String,
    pub category: String,
    pub event_type: EventType,
    pub timestamp: u128,
    pub duration: u128,
    pub process_id: u32,
    pub thread_id: u32,
    pub instant_scope: Option<Scope>,
    pub scope: Option<String>,
    pub id: Option<String>,
    pub args: Option<Vec<(String, String)>>,
}

/// The view of an optional string field.
pub open spec fn view_opt_string(s: Option<String>) -> Option<Seq<char>> {
    match s {
        Some(v) => Some(v@),
        None => None,
    }
}

/// The view of an argument list: each pair of strings as a pair of
/// character sequences.
pub open spec fn view_args(a: Option<Vec<(String, String)>>) -> Option<
    Seq<(Seq<char>, Seq<char>)>,
> {
    match a {
        Some(v) => Some(v@.map_values(|p: (String, String)| (p.0@, p.1@))),
        None => None,
    }
}

impl View for Event {
    type V = EventModel;

    open spec fn view(&self) -> EventModel {
        EventModel {
            name: self.name@,
            category: self.category@,
            event_type: self.event_type,
            timestamp: self.timestamp as int,
            duration: self.duration as int,
            process_id: self.process_id,
            thread_id: self.thread_id,
            instant_scope: self.instant_scope,
            scope: view_opt_string(self.scope),
            id: view_opt_string(self.id),
            args: view_args(self.args),
        }
    }
}

impl Default for Event {
    fn default() -> (r: Self)
        ensures
            r@ == (EventModel {
                name: Seq::<char>::empty(),
                category: Seq::<char>::empty(),
                event_type: EventType::DurationBegin,
                timestamp: 0,
                duration: 0,
                process_id: 0,
                thread_id: 0,
                instant_scope: None,
                scope: None,
                id: None,
                args: None,
            }),
    {
        Event {
            name: String::new(),
            category: String::new(),
            event_type: EventType::DurationBegin,
            timestamp: 0,
            duration: 0,
            process_id: 0,
            thread_id: 0,
            instant_scope: None,
            scope: None,
            id: None,
            args: None,
        }
    }
}

/// Whether a nanosecond count is an exact multiple of one microsecond, so
/// that the wire format may render it as an integer microsecond count
/// without losing precision.
pub fn is_whole_micros(nanos: u128) -> (r: bool)
    ensures
        r == (nanos as int % 1000 == 0),
{
    nanos % 1000 == 0
}

/// The integer microsecond count of an exact microsecond multiple.
pub fn whole_micros(nanos: u128) -> (r: u128)
    requires
        nanos as int % 1000 == 0,
    ensures
        r as int * 1000 == nanos as int,
{
    nanos / 1000
}

} // verus!
