//! Performance events and the vocabulary of tokens that stands for them.
use vstd::prelude::*;

verus! {

/// Number of tokens in the vocabulary.
pub const VOCABULARY_SIZE: i16 = 388;

/// One unit of the encoded performance.
#[derive(Debug, Clone, Copy, PartialEq, Eq, Structural)]
pub enum PerformanceEvent {
    /// A key starts sounding (key 0 to 127).
    NoteOn(i16),
    /// A key stops sounding (key 0 to 127).
    NoteOff(i16),
    /// Time moves on by (bucket + 1) * 10 ms (bucket 0 to 99).
    TimeShift(i16),
    /// The loudness of the following notes (bucket 0 to 31).
    Velocity(i16),
}

/// The inverse mapping was given a token outside the vocabulary.
#[derive(Debug, Clone, Copy, PartialEq, Eq, Structural)]
pub struct OutOfRangeToken(pub i16);

/// Each payload lies in the range its kind allows.
pub open spec fn event_wf(e: PerformanceEvent) -> bool {
    match e {
        PerformanceEvent::NoteOn(k) => 0 <= k < 128,
        PerformanceEvent::NoteOff(k) => 0 <= k < 128,
        PerformanceEvent::TimeShift(b) => 0 <= b < 100,
        PerformanceEvent::Velocity(b) => 0 <= b < 32,
    }
}

/// The token of an event: note-ons first, then note-offs, time shifts and
/// velocities, each kind in order of its payload.
pub open spec fn token_of(e: PerformanceEvent) -> int {
    match e {
        PerformanceEvent::NoteOn(k) => k as int,
        PerformanceEvent::NoteOff(k) => k + 128,
        PerformanceEvent::TimeShift(b) => b + 256,
        PerformanceEvent::Velocity(b) => b + 356,
    }
}

/// The event that a token in [0, 388) stands for.
pub open spec fn event_of(t: int) -> PerformanceEvent {
    if t < 128 {
        PerformanceEvent::NoteOn(t as i16)
    } else if t < 256 {
        PerformanceEvent::NoteOff((t - 128) as i16)
    } else if t < 356 {
        PerformanceEvent::TimeShift((t - 256) as i16)
    } else {
        PerformanceEvent::Velocity((t - 356) as i16)
    }
}

/// Maps an event to its token.
pub fn event_to_index(event: PerformanceEvent) -> (r: i16)
    requires
        event_wf(event),
    ensures
        r == token_of(event),
        0 <= r < VOCABULARY_SIZE,
{
    match event {
        PerformanceEvent::NoteOn(v) => v,
        PerformanceEvent::NoteOff(v) => v + 128,
        PerformanceEvent::TimeShift(v) => v + 256,
        PerformanceEvent::Velocity(v) => v + 356,
    }
}

/// Maps a token back to its event; a token outside the vocabulary is refused.
pub fn index_to_event(idx: i16) -> (r: Result<PerformanceEvent, OutOfRangeToken>)
    ensures
        0 <= idx < VOCABULARY_SIZE ==> r == Ok::<PerformanceEvent, OutOfRangeToken>(
            event_of(idx as int),
        ),
        !(0 <= idx < VOCABULARY_SIZE) ==> r == Err::<PerformanceEvent, OutOfRangeToken>(
            OutOfRangeToken(idx),
        ),
        r is Ok ==> event_wf(r->Ok_0) && token_of(r->Ok_0) == idx,
{
    if idx >= 0 && idx < 128 {
        Ok(PerformanceEvent::NoteOn(idx))
    } else if idx >= 128 && idx < 256 {
        Ok(PerformanceEvent::NoteOff(idx - 128))
    } else if idx >= 256 && idx < 356 {
        Ok(PerformanceEvent::TimeShift(idx - 256))
    } else if idx >= 356 && idx < VOCABULARY_SIZE {
        Ok(PerformanceEvent::Velocity(idx - 356))
    } else {
        Err(OutOfRangeToken(idx))
    }
}

/// Maps each event of a sequence to its token.
pub fn events_to_tokens(events: &Vec<PerformanceEvent>) -> (r: Vec<i16>)
    requires
        forall|i: int| 0 <= i < events.len() ==> event_wf(#[trigger] events@[i]),
    ensures
        r.len() == events.len(),
        forall|i: int| 0 <= i < r.len() ==> #[trigger] r@[i] == token_of(events@[i]),
{
    let mut r: Vec<i16> = Vec::new();
    let mut i: usize = 0;
    while i < events.len()
        invariant
            i <= events.len(),
            forall|j: int| 0 <= j < events.len() ==> event_wf(#[trigger] events@[j]),
            r.len() == i,
            forall|j: int| 0 <= j < i ==> #[trigger] r@[j] == token_of(events@[j]),
        decreases events.len() - i,
    {
        r.push(event_to_index(events[i]));
        i = i + 1;
    }
    r
}

/// Length in milliseconds of the time that a time-shift bucket stands for.
pub fn timeshift_to_ms(timeshift: i16) -> (r: i16)
    requires
        0 <= timeshift < 100,
    ensures
        r == (timeshift + 1) * 10,
{
    (timeshift + 1) * 10
}

/// Every token of the vocabulary is the token of the event it maps back to.
pub proof fn lemma_token_round_trip(t: int)
    requires
        0 <= t < VOCABULARY_SIZE,
    ensures
        event_wf(event_of(t)),
        token_of(event_of(t)) == t,
{
}

/// Every well-formed event is the event its token maps back to, so the
/// mapping is one to one.
pub proof fn lemma_event_round_trip(e: PerformanceEvent)
    requires
        event_wf(e),
    ensures
        0 <= token_of(e) < VOCABULARY_SIZE,
        event_of(token_of(e)) == e,
{
}

} // verus!
