//! The state machine that turns a time-ordered stream of messages into
//! performance events.
use vstd::prelude::*;

use crate::codec::{event_wf, PerformanceEvent};
use crate::message::{message_wf, stream_wf, Message, TimedMessage};

verus! {

/// The largest tick rate whose time arithmetic fits in 64 bits.
pub const MAX_TICKS_PER_SEC: u64 = 184_467_440_737_095_516;

/// The time-shift bucket of a chunk of `chunk` ticks at `tps` ticks per
/// second: 10 ms per bucket, rounded to nearest, counted from zero.
pub open spec fn bucket(chunk: nat, tps: nat) -> int {
    (chunk * 100 - 50) / (tps as int)
}

/// The encoder's state as mathematical values.
pub struct EncoderModel {
    pub ticks_per_sec: nat,
    pub pedal_down: bool,
    /// Keys sounding since a note-on that no note-off has ended.
    pub notes_on: Set<u8>,
    /// Keys released while the pedal was down and still held by it.
    pub sustained: Set<u8>,
    /// Size of the last time chunk while the last event is a time shift that
    /// further time may be merged into; zero otherwise.
    pub pending_ticks: nat,
    pub events: Seq<PerformanceEvent>,
}

/// Emits time shifts for `t` ticks, at most one second each; where `merge`
/// holds the first one takes the place of the last event.
pub open spec fn emit_time(events: Seq<PerformanceEvent>, merge: bool, t: nat, tps: nat) -> Seq<
    PerformanceEvent,
>
    decreases t,
{
    if t == 0 || tps == 0 {
        events
    } else {
        let c = if t < tps {
            t
        } else {
            tps
        };
        let ev = PerformanceEvent::TimeShift(bucket(c, tps) as i16);
        emit_time(
            if merge {
                events.update(events.len() - 1, ev)
            } else {
                events.push(ev)
            },
            false,
            (t - c) as nat,
            tps,
        )
    }
}

/// The size of the last chunk that `t` ticks are cut into.
pub open spec fn last_chunk(t: nat, tps: nat) -> nat
    decreases t,
{
    if tps == 0 || t <= tps {
        t
    } else {
        last_chunk((t - tps) as nat, tps)
    }
}

/// Time moves on by `delta` ticks, merged with the pending time shift.
pub open spec fn advance_time(s: EncoderModel, delta: nat) -> EncoderModel {
    let t = s.pending_ticks + delta;
    EncoderModel {
        events: emit_time(s.events, s.pending_ticks > 0, t, s.ticks_per_sec),
        pending_ticks: last_chunk(t, s.ticks_per_sec),
        ..s
    }
}

/// Note-offs for the keys below `n` in `keys`, in ascending order.
pub open spec fn released(keys: Set<u8>, n: nat) -> Seq<PerformanceEvent>
    decreases n,
{
    if n == 0 {
        seq![]
    } else {
        released(keys, (n - 1) as nat) + if keys.contains((n - 1) as u8) {
            seq![PerformanceEvent::NoteOff((n - 1) as i16)]
        } else {
            seq![]
        }
    }
}

/// What a message does to the state, apart from its time. A note-on with
/// velocity zero is a key release: the pedal holds the key if it is down and
/// the key is sounding, and otherwise a sounding key ends. Striking a key
/// again sounds it again, after ending a hold on it. Lifting the pedal ends
/// every held key. Other messages change nothing.
pub open spec fn react(s: EncoderModel, m: Message) -> EncoderModel {
    match m {
        Message::NoteOn { key, velocity } => {
            if velocity > 0 {
                let ends_hold = if s.sustained.contains(key) {
                    seq![PerformanceEvent::NoteOff(key as i16)]
                } else {
                    seq![]
                };
                EncoderModel {
                    notes_on: s.notes_on.insert(key),
                    sustained: s.sustained.remove(key),
                    events: s.events + ends_hold + seq![
                        PerformanceEvent::Velocity((velocity / 4) as i16),
                        PerformanceEvent::NoteOn(key as i16),
                    ],
                    ..s
                }
            } else if s.pedal_down {
                if s.notes_on.contains(key) {
                    EncoderModel { sustained: s.sustained.insert(key), ..s }
                } else {
                    s
                }
            } else if s.notes_on.contains(key) {
                EncoderModel {
                    notes_on: s.notes_on.remove(key),
                    events: s.events.push(PerformanceEvent::NoteOff(key as i16)),
                    ..s
                }
            } else {
                s
            }
        },
        Message::Controller { number, value } => {
            if number != 64 {
                s
            } else if s.pedal_down && value < 64 {
                EncoderModel {
                    pedal_down: false,
                    notes_on: s.notes_on.difference(s.sustained),
                    sustained: Set::empty(),
                    events: s.events + released(s.sustained, 128),
                    ..s
                }
            } else {
                EncoderModel { pedal_down: value >= 64, ..s }
            }
        },
        _ => s,
    }
}

/// One message: its time first, then what it says; emitting any event
/// ends the merging of time shifts.
pub open spec fn step(s: EncoderModel, m: TimedMessage) -> EncoderModel {
    let s1 = if m.delta > 0 {
        advance_time(s, m.delta as nat)
    } else {
        s
    };
    let s2 = react(s1, m.message);
    if s2.events.len() > s1.events.len() {
        EncoderModel { pending_ticks: 0, ..s2 }
    } else {
        s2
    }
}

pub open spec fn initial(tps: nat) -> EncoderModel {
    EncoderModel {
        ticks_per_sec: tps,
        pedal_down: false,
        notes_on: Set::empty(),
        sustained: Set::empty(),
        pending_ticks: 0,
        events: seq![],
    }
}

/// The state after the whole stream.
pub open spec fn encode_all(stream: Seq<TimedMessage>, tps: nat) -> EncoderModel
    decreases stream.len(),
{
    if stream.len() == 0 {
        initial(tps)
    } else {
        step(encode_all(stream.drop_last(), tps), stream.last())
    }
}

/// The events that a stream encodes into.
pub open spec fn encoded(stream: Seq<TimedMessage>, tps: nat) -> Seq<PerformanceEvent> {
    encode_all(stream, tps).events
}

/// What holds of the encoder's state between messages.
pub open spec fn model_inv(s: EncoderModel) -> bool {
    &&& 0 < s.ticks_per_sec
    &&& s.sustained.subset_of(s.notes_on)
    &&& !s.pedal_down ==> s.sustained == Set::<u8>::empty()
    &&& forall|k: u8| #[trigger] s.notes_on.contains(k) ==> k < 128
    &&& s.pending_ticks <= s.ticks_per_sec
    &&& s.pending_ticks > 0 ==> s.events.len() > 0 && s.events.last() is TimeShift
    &&& forall|i: int| 0 <= i < s.events.len() ==> event_wf(#[trigger] s.events[i])
}

/// Every chunk of one to `tps` ticks falls in one of the hundred buckets.
pub proof fn lemma_bucket_in_range(chunk: nat, tps: nat)
    requires
        1 <= chunk <= tps,
    ensures
        0 <= bucket(chunk, tps) < 100,
{
    assert(0 <= (chunk * 100 - 50) / (tps as int) < 100) by (nonlinear_arith)
        requires
            1 <= chunk <= tps,
    ;
}

/// The time-shift bucket of a chunk of `ticks` ticks.
pub fn ticks_to_timeshift(ticks: u64, ticks_per_sec: u64) -> (r: u64)
    requires
        1 <= ticks <= ticks_per_sec,
        ticks_per_sec <= MAX_TICKS_PER_SEC,
    ensures
        r == bucket(ticks as nat, ticks_per_sec as nat),
        r < 100,
{
    proof {
        lemma_bucket_in_range(ticks as nat, ticks_per_sec as nat);
    }
    assert(ticks * 100 <= MAX_TICKS_PER_SEC * 100) by (nonlinear_arith)
        requires
            ticks <= MAX_TICKS_PER_SEC,
    ;
    (ticks * 100 - 50) / ticks_per_sec
}

proof fn lemma_last_chunk_range(t: nat, tps: nat)
    requires
        t > 0,
        tps > 0,
    ensures
        0 < last_chunk(t, tps) <= tps,
    decreases t,
{
    if t > tps {
        lemma_last_chunk_range((t - tps) as nat, tps);
    }
}

proof fn lemma_emit_time_shape(events: Seq<PerformanceEvent>, merge: bool, t: nat, tps: nat)
    requires
        tps > 0,
        merge ==> events.len() > 0,
        forall|i: int| 0 <= i < events.len() ==> event_wf(#[trigger] events[i]),
    ensures
        forall|i: int|
            0 <= i < emit_time(events, merge, t, tps).len() ==> event_wf(
                #[trigger] emit_time(events, merge, t, tps)[i],
            ),
        t > 0 ==> emit_time(events, merge, t, tps).len() > 0 && emit_time(
            events,
            merge,
            t,
            tps,
        ).last() is TimeShift,
        emit_time(events, merge, t, tps).len() >= events.len(),
    decreases t,
{
    if t > 0 {
        let c = if t < tps {
            t
        } else {
            tps
        };
        lemma_bucket_in_range(c, tps);
        let ev = PerformanceEvent::TimeShift(bucket(c, tps) as i16);
        let next = if merge {
            events.update(events.len() - 1, ev)
        } else {
            events.push(ev)
        };
        assert(next.last() is TimeShift);
        lemma_emit_time_shape(next, false, (t - c) as nat, tps);
    }
}

proof fn lemma_released_shape(keys: Set<u8>, n: nat)
    requires
        n <= 128,
    ensures
        forall|i: int|
            0 <= i < released(keys, n).len() ==> event_wf(#[trigger] released(keys, n)[i]),
    decreases n,
{
    if n > 0 {
        let prev = released(keys, (n - 1) as nat);
        lemma_released_shape(keys, (n - 1) as nat);
        assert forall|i: int| 0 <= i < released(keys, n).len() implies event_wf(
            #[trigger] released(keys, n)[i],
        ) by {
            if i < prev.len() {
                assert(released(keys, n)[i] == prev[i]);
            }
        }
    }
}

proof fn lemma_react_keeps_inv(s: EncoderModel, m: Message)
    requires
        model_inv(s),
        message_wf(m),
    ensures
        ({
            let r = react(s, m);
            &&& r.ticks_per_sec == s.ticks_per_sec
            &&& r.pending_ticks == s.pending_ticks
            &&& r.events.len() >= s.events.len()
            &&& r.events.len() == s.events.len() ==> r.events == s.events
            &&& r.events.len() > s.events.len() ==> model_inv(EncoderModel { pending_ticks: 0, ..r })
            &&& r.events.len() == s.events.len() ==> model_inv(r)
        }),
{
    let r = react(s, m);
    match m {
        Message::NoteOn { key, velocity } => {
            if velocity > 0 {
                assert(r.sustained.subset_of(r.notes_on));
                assert(!r.pedal_down ==> r.sustained =~= Set::<u8>::empty());
                assert forall|i: int| 0 <= i < r.events.len() implies event_wf(
                    #[trigger] r.events[i],
                ) by {
                    if i < s.events.len() {
                        assert(r.events[i] == s.events[i]);
                    }
                }
            } else if s.pedal_down {
            } else if s.notes_on.contains(key) {
                assert(r.sustained.subset_of(r.notes_on));
                assert forall|i: int| 0 <= i < r.events.len() implies event_wf(
                    #[trigger] r.events[i],
                ) by {
                    if i < s.events.len() {
                        assert(r.events[i] == s.events[i]);
                    }
                }
            }
        },
        Message::Controller { number, value } => {
            if number == 64 && s.pedal_down && value < 64 {
                let rel = released(s.sustained, 128);
                lemma_released_shape(s.sustained, 128);
                assert forall|i: int| 0 <= i < r.events.len() implies event_wf(
                    #[trigger] r.events[i],
                ) by {
                    if i < s.events.len() {
                        assert(r.events[i] == s.events[i]);
                    } else {
                        assert(r.events[i] == rel[i - s.events.len()]);
                    }
                }
                if rel.len() == 0 {
                    assert(r.events =~= s.events);
                }
            } else if number == 64 {
                assert(!r.pedal_down ==> r.sustained =~= Set::<u8>::empty());
            }
        },
        _ => {},
    }
}

/// Each message keeps the encoder's state consistent: in particular the
/// sustained keys stay among the sounding keys, and no key is sustained
/// while the pedal is up.
pub proof fn lemma_step_keeps_inv(s: EncoderModel, m: TimedMessage)
    requires
        model_inv(s),
        message_wf(m.message),
    ensures
        model_inv(step(s, m)),
        step(s, m).ticks_per_sec == s.ticks_per_sec,
{
    let s1 = if m.delta > 0 {
        advance_time(s, m.delta as nat)
    } else {
        s
    };
    if m.delta > 0 {
        let t = s.pending_ticks + m.delta as nat;
        lemma_emit_time_shape(s.events, s.pending_ticks > 0, t, s.ticks_per_sec);
        lemma_last_chunk_range(t, s.ticks_per_sec);
    }
    assert(model_inv(s1));
    lemma_react_keeps_inv(s1, m.message);
}

/// After every message of a stream the encoder's state is consistent; in
/// particular the sustained keys are always among the sounding keys.
pub proof fn lemma_sustained_within_notes_on(stream: Seq<TimedMessage>, tps: nat, i: int)
    requires
        tps > 0,
        stream_wf(stream),
        0 <= i <= stream.len(),
    ensures
        model_inv(encode_all(stream.take(i), tps)),
        encode_all(stream.take(i), tps).sustained.subset_of(
            encode_all(stream.take(i), tps).notes_on,
        ),
    decreases i,
{
    let p = stream.take(i);
    if i > 0 {
        lemma_sustained_within_notes_on(stream, tps, i - 1);
        assert(p.drop_last() =~= stream.take(i - 1));
        assert(p.last() == stream[i - 1]);
        lemma_step_keeps_inv(encode_all(stream.take(i - 1), tps), stream[i - 1]);
    } else {
        assert(initial(tps).sustained =~= Set::<u8>::empty());
    }
}

fn emit_time_exec(events: &mut Vec<PerformanceEvent>, merge: bool, t: u64, tps: u64) -> (last: u64)
    requires
        0 < tps <= MAX_TICKS_PER_SEC,
        merge ==> old(events).len() > 0,
    ensures
        final(events)@ == emit_time(old(events)@, merge, t as nat, tps as nat),
        t > 0 ==> last == last_chunk(t as nat, tps as nat),
{
    let ghost e0 = events@;
    let mut rest: u64 = t;
    let mut merging: bool = merge;
    let mut chunk: u64 = 0;
    while rest > 0
        invariant
            0 < tps <= MAX_TICKS_PER_SEC,
            merging ==> events.len() > 0,
            emit_time(e0, merge, t as nat, tps as nat) == emit_time(
                events@,
                merging,
                rest as nat,
                tps as nat,
            ),
            rest > 0 ==> last_chunk(rest as nat, tps as nat) == last_chunk(t as nat, tps as nat),
            rest == 0 && t > 0 ==> chunk == last_chunk(t as nat, tps as nat),
        decreases rest,
    {
        chunk = if rest < tps {
            rest
        } else {
            tps
        };
        let b = ticks_to_timeshift(chunk, tps);
        let ev = PerformanceEvent::TimeShift(b as i16);
        if merging {
            let last_idx = events.len() - 1;
            events.set(last_idx, ev);
            merging = false;
        } else {
            events.push(ev);
        }
        rest = rest - chunk;
    }
    chunk
}

/// The keys whose flag is set.
pub open spec fn key_set(flags: Seq<bool>) -> Set<u8> {
    Set::new(|k: u8| (k as int) < flags.len() && flags[k as int])
}

fn no_keys() -> (r: Vec<bool>)
    ensures
        r.len() == 128,
        key_set(r@) == Set::<u8>::empty(),
{
    let mut r: Vec<bool> = Vec::new();
    let mut i: usize = 0;
    while i < 128
        invariant
            i <= 128,
            r.len() == i,
            forall|j: int| 0 <= j < i ==> !r@[j],
        decreases 128 - i,
    {
        r.push(false);
        i = i + 1;
    }
    assert(key_set(r@) =~= Set::<u8>::empty());
    r
}

/// Emits note-offs for the sustained keys in ascending order and takes them
/// out of the sounding keys.
fn release_sustained(
    events: &mut Vec<PerformanceEvent>,
    notes_on: &mut Vec<bool>,
    sustained: &Vec<bool>,
)
    requires
        old(notes_on).len() == 128,
        sustained.len() == 128,
    ensures
        final(notes_on).len() == 128,
        final(events)@ == old(events)@ + released(key_set(sustained@), 128),
        key_set(final(notes_on)@) == key_set(old(notes_on)@).difference(key_set(sustained@)),
{
    let ghost e0 = events@;
    let ghost on0 = key_set(notes_on@);
    let ghost sus = key_set(sustained@);
    let mut k: usize = 0;
    assert(e0 + released(sus, 0) =~= e0);
    while k < 128
        invariant
            k <= 128,
            notes_on.len() == 128,
            sustained.len() == 128,
            sus == key_set(sustained@),
            events@ == e0 + released(sus, k as nat),
            key_set(notes_on@) == Set::new(
                |x: u8| on0.contains(x) && !((x as int) < k && sus.contains(x)),
            ),
        decreases 128 - k,
    {
        let ghost on_before = notes_on@;
        if sustained[k] {
            events.push(PerformanceEvent::NoteOff(k as i16));
            notes_on.set(k, false);
        }
        proof {
            assert(sus.contains(k as u8) == sustained@[k as int]);
            assert(events@ =~= e0 + released(sus, (k + 1) as nat));
        }
        proof {
            let next = Set::new(
                |x: u8| on0.contains(x) && !((x as int) < k + 1 && sus.contains(x)),
            );
            assert forall|x: u8| #[trigger] key_set(notes_on@).contains(x) == next.contains(x) by {
                assert(key_set(on_before).contains(x) == (on0.contains(x) && !((x as int) < k
                    && sus.contains(x))));
                if x as int != k as int {
                    assert((x as int) < 128 ==> notes_on@[x as int] == on_before[x as int]);
                }
            }
            assert(key_set(notes_on@) =~= next);
        }
        k = k + 1;
    }
    assert(key_set(notes_on@) =~= on0.difference(sus));
}

/// Encodes a time-ordered stream of messages into performance events.
pub struct Encoder {
    ticks_per_sec: u64,
    pedal_down: bool,
    notes_on: Vec<bool>,
    sustained: Vec<bool>,
    pending_ticks: u64,
    events: Vec<PerformanceEvent>,
}

impl View for Encoder {
    type V = EncoderModel;

    closed spec fn view(&self) -> EncoderModel {
        EncoderModel {
            ticks_per_sec: self.ticks_per_sec as nat,
            pedal_down: self.pedal_down,
            notes_on: key_set(self.notes_on@),
            sustained: key_set(self.sustained@),
            pending_ticks: self.pending_ticks as nat,
            events: self.events@,
        }
    }
}

impl Encoder {
    pub closed spec fn wf(&self) -> bool {
        &&& self.notes_on.len() == 128
        &&& self.sustained.len() == 128
        &&& self.ticks_per_sec <= MAX_TICKS_PER_SEC
        &&& model_inv(self@)
    }

    /// A fresh encoder at `ticks_per_sec` ticks per second: pedal up, no
    /// key sounding, no event yet.
    pub fn new(ticks_per_sec: u64) -> (r: Encoder)
        requires
            0 < ticks_per_sec <= MAX_TICKS_PER_SEC,
        ensures
            r.wf(),
            r@ == initial(ticks_per_sec as nat),
    {
        let r = Encoder {
            ticks_per_sec,
            pedal_down: false,
            notes_on: no_keys(),
            sustained: no_keys(),
            pending_ticks: 0,
            events: Vec::new(),
        };
        assert(r@.events =~= Seq::<PerformanceEvent>::empty());
        r
    }

    fn advance(&mut self, delta: u32)
        requires
            old(self).wf(),
        ensures
            final(self).notes_on.len() == 128,
            final(self).sustained.len() == 128,
            final(self).ticks_per_sec == old(self).ticks_per_sec,
            final(self)@ == advance_time(old(self)@, delta as nat),
    {
        let t: u64 = self.pending_ticks + delta as u64;
        let merge = self.pending_ticks > 0;
        let tps = self.ticks_per_sec;
        let last = emit_time_exec(&mut self.events, merge, t, tps);
        if t > 0 {
            self.pending_ticks = last;
        }
    }

    fn react(&mut self, m: Message)
        requires
            old(self).notes_on.len() == 128,
            old(self).sustained.len() == 128,
            model_inv(old(self)@),
            message_wf(m),
        ensures
            final(self).notes_on.len() == 128,
            final(self).sustained.len() == 128,
            final(self).ticks_per_sec == old(self).ticks_per_sec,
            final(self)@ == react(old(self)@, m),
    {
        let ghost s = self@;
        match m {
            Message::NoteOn { key, velocity } => {
                let k = key as usize;
                if velocity > 0 {
                    if self.sustained[k] {
                        self.events.push(PerformanceEvent::NoteOff(key as i16));
                        self.sustained.set(k, false);
                    }
                    self.events.push(PerformanceEvent::Velocity((velocity / 4) as i16));
                    self.events.push(PerformanceEvent::NoteOn(key as i16));
                    self.notes_on.set(k, true);
                    assert(key_set(self.notes_on@) =~= s.notes_on.insert(key));
                    assert(key_set(self.sustained@) =~= s.sustained.remove(key));
                    assert(self.events@ =~= react(s, m).events);
                } else if self.pedal_down {
                    if self.notes_on[k] {
                        self.sustained.set(k, true);
                        assert(key_set(self.sustained@) =~= s.sustained.insert(key));
                    }
                } else if self.notes_on[k] {
                    self.notes_on.set(k, false);
                    self.events.push(PerformanceEvent::NoteOff(key as i16));
                    assert(key_set(self.notes_on@) =~= s.notes_on.remove(key));
                }
            },
            Message::Controller { number, value } => {
                if number == 64 {
                    if self.pedal_down && value < 64 {
                        release_sustained(&mut self.events, &mut self.notes_on, &self.sustained);
                        self.sustained = no_keys();
                    }
                    self.pedal_down = value >= 64;
                }
            },
            _ => {},
        }
    }

    /// Processes one message: first its time, then what it says.
    pub fn process(&mut self, m: TimedMessage)
        requires
            old(self).wf(),
            message_wf(m.message),
        ensures
            final(self).wf(),
            final(self)@ == step(old(self)@, m),
            model_inv(final(self)@),
    {
        proof {
            lemma_step_keeps_inv(self@, m);
        }
        if m.delta > 0 {
            self.advance(m.delta);
        }
        let before = self.events.len();
        proof {
            let s1 = if m.delta > 0 {
                advance_time(old(self)@, m.delta as nat)
            } else {
                old(self)@
            };
            assert(self@ == s1);
            if m.delta > 0 {
                let t = old(self)@.pending_ticks + m.delta as nat;
                lemma_emit_time_shape(
                    old(self)@.events,
                    old(self)@.pending_ticks > 0,
                    t,
                    old(self)@.ticks_per_sec,
                );
                lemma_last_chunk_range(t, old(self)@.ticks_per_sec);
            }
            assert(model_inv(s1));
        }
        self.react(m.message);
        if self.events.len() > before {
            self.pending_ticks = 0;
        }
    }

    /// Whether the key is sounding.
    pub fn is_sounding(&self, key: u8) -> (r: bool)
        requires
            self.wf(),
        ensures
            r == self@.notes_on.contains(key),
    {
        key < 128 && self.notes_on[key as usize]
    }

    /// Whether the key is released but held on by the pedal.
    pub fn is_sustained(&self, key: u8) -> (r: bool)
        requires
            self.wf(),
        ensures
            r == self@.sustained.contains(key),
    {
        key < 128 && self.sustained[key as usize]
    }

    /// Whether the sustain pedal is down.
    pub fn is_pedal_down(&self) -> (r: bool)
        ensures
            r == self@.pedal_down,
    {
        self.pedal_down
    }

    /// The events emitted so far.
    pub fn events(&self) -> (r: &Vec<PerformanceEvent>)
        ensures
            r@ == self@.events,
    {
        &self.events
    }

    /// Ends the encoding and hands back its events.
    pub fn into_events(self) -> (r: Vec<PerformanceEvent>)
        ensures
            r@ == self@.events,
    {
        self.events
    }
}

/// Encodes a time-ordered stream at `ticks_per_sec` ticks per second.
pub fn encode_events(stream: &Vec<TimedMessage>, ticks_per_sec: u64) -> (r: Vec<PerformanceEvent>)
    requires
        0 < ticks_per_sec <= MAX_TICKS_PER_SEC,
        stream_wf(stream@),
    ensures
        r@ == encoded(stream@, ticks_per_sec as nat),
        forall|i: int| 0 <= i < r.len() ==> event_wf(#[trigger] r@[i]),
{
    let mut enc = Encoder::new(ticks_per_sec);
    let mut i: usize = 0;
    assert(stream@.take(0) =~= Seq::<TimedMessage>::empty());
    while i < stream.len()
        invariant
            i <= stream.len(),
            stream_wf(stream@),
            enc.wf(),
            enc@ == encode_all(stream@.take(i as int), ticks_per_sec as nat),
        decreases stream.len() - i,
    {
        assert(message_wf(stream@[i as int].message));
        enc.process(stream[i]);
        proof {
            let p = stream@.take(i + 1);
            assert(p.drop_last() =~= stream@.take(i as int));
            assert(p.last() == stream@[i as int]);
        }
        i = i + 1;
    }
    assert(stream@.take(stream.len() as int) =~= stream@);
    proof {
        lemma_sustained_within_notes_on(stream@, ticks_per_sec as nat, stream.len() as int);
    }
    enc.into_events()
}

} // verus!
