use midi_tokenizer::{
    encode_events, events_to_tokens, ticks_per_second, ticks_to_timeshift, Encoder, Message,
    PerformanceEvent, TimedMessage,
};
use rand::Rng;
use PerformanceEvent::{NoteOff, NoteOn, TimeShift, Velocity};

fn on(delta: u32, key: u8, velocity: u8) -> TimedMessage {
    TimedMessage { delta, message: Message::NoteOn { key, velocity } }
}

fn pedal(delta: u32, value: u8) -> TimedMessage {
    TimedMessage { delta, message: Message::Controller { number: 64, value } }
}

fn other(delta: u32) -> TimedMessage {
    TimedMessage { delta, message: Message::Other }
}

#[test]
fn every_chunk_falls_in_a_bucket() {
    for tps in [1u64, 2, 3, 49, 50, 51, 100, 960, 1000] {
        for chunk in 1..=tps {
            assert!(ticks_to_timeshift(chunk, tps) < 100);
        }
    }
    assert_eq!(ticks_to_timeshift(1, 1), 50);
    assert_eq!(ticks_to_timeshift(480, 960), 49);
    assert_eq!(ticks_to_timeshift(1, 960), 0);
    assert_eq!(ticks_to_timeshift(65_535_000_000, 65_535_000_000), 99);
}

#[test]
fn one_second_is_one_full_time_shift() {
    let stream = vec![TimedMessage { delta: 0, message: Message::Tempo(500_000) }, other(960)];
    assert_eq!(ticks_per_second(&stream, 480), Ok(960));
    assert_eq!(encode_events(&stream, 960), vec![TimeShift(99)]);
}

#[test]
fn note_released_with_pedal_up() {
    let events = encode_events(&vec![on(0, 60, 80), on(0, 60, 0)], 960);
    assert_eq!(events, vec![Velocity(20), NoteOn(60), NoteOff(60)]);
    assert_eq!(events_to_tokens(&events), vec![376, 60, 188]);
}

#[test]
fn pedal_holds_released_note() {
    let held = encode_events(&vec![pedal(0, 127), on(0, 60, 80), on(0, 60, 0)], 960);
    assert_eq!(held, vec![Velocity(20), NoteOn(60)]);
    let lifted = encode_events(&vec![pedal(0, 127), on(0, 60, 80), on(0, 60, 0), pedal(0, 63)], 960);
    assert_eq!(lifted, vec![Velocity(20), NoteOn(60), NoteOff(60)]);
}

#[test]
fn pedal_release_ends_notes_in_key_order() {
    let stream = vec![
        pedal(0, 100),
        on(0, 70, 40),
        on(0, 60, 40),
        on(0, 70, 0),
        on(0, 60, 0),
        pedal(0, 100),
        pedal(0, 0),
    ];
    assert_eq!(
        encode_events(&stream, 960),
        vec![Velocity(10), NoteOn(70), Velocity(10), NoteOn(60), NoteOff(60), NoteOff(70)]
    );
}

#[test]
fn sustained_note_struck_again_ends_first() {
    let stream = vec![pedal(0, 64), on(0, 60, 80), on(0, 60, 0), on(0, 60, 127)];
    assert_eq!(
        encode_events(&stream, 960),
        vec![Velocity(20), NoteOn(60), NoteOff(60), Velocity(31), NoteOn(60)]
    );
}

#[test]
fn sounding_note_struck_again_retriggers() {
    let stream = vec![on(0, 60, 80), on(0, 60, 3)];
    assert_eq!(encode_events(&stream, 960), vec![Velocity(20), NoteOn(60), Velocity(0), NoteOn(60)]);
}

#[test]
fn release_of_silent_key_emits_nothing() {
    assert_eq!(encode_events(&vec![on(0, 60, 0)], 960), vec![]);
    assert_eq!(encode_events(&vec![pedal(0, 127), on(0, 60, 0), pedal(0, 0)], 960), vec![]);
}

#[test]
fn other_messages_emit_nothing() {
    let stream = vec![
        on(0, 60, 80),
        TimedMessage { delta: 0, message: Message::NoteOff { key: 60, velocity: 0 } },
        TimedMessage { delta: 0, message: Message::Controller { number: 7, value: 0 } },
        TimedMessage { delta: 0, message: Message::Tempo(1) },
        other(0),
    ];
    assert_eq!(encode_events(&stream, 960), vec![Velocity(20), NoteOn(60)]);
}

#[test]
fn long_gaps_are_cut_into_seconds() {
    assert_eq!(encode_events(&vec![other(2000)], 960), vec![TimeShift(99), TimeShift(99), TimeShift(8)]);
}

#[test]
fn consecutive_gaps_merge() {
    let stream = vec![other(30), other(40)];
    assert_eq!(encode_events(&stream, 100), vec![TimeShift(69)]);
    let stream = vec![other(30), other(40), other(250)];
    assert_eq!(
        encode_events(&stream, 100),
        vec![TimeShift(99), TimeShift(99), TimeShift(99), TimeShift(19)]
    );
    let stream = vec![other(30), on(0, 1, 4), other(50)];
    assert_eq!(encode_events(&stream, 100), vec![TimeShift(29), Velocity(1), NoteOn(1), TimeShift(49)]);
}

#[test]
fn silent_messages_do_not_break_merging() {
    let stream = vec![other(30), pedal(0, 127), pedal(20, 0), on(0, 5, 0), other(10)];
    assert_eq!(encode_events(&stream, 100), vec![TimeShift(59)]);
}

#[test]
fn encoder_reports_its_state() {
    let mut enc = Encoder::new(960);
    enc.process(pedal(0, 127));
    assert!(enc.is_pedal_down());
    enc.process(on(10, 60, 80));
    assert!(enc.is_sounding(60));
    assert!(!enc.is_sustained(60));
    enc.process(on(0, 60, 0));
    assert!(enc.is_sounding(60));
    assert!(enc.is_sustained(60));
    enc.process(pedal(0, 10));
    assert!(!enc.is_pedal_down());
    assert!(!enc.is_sounding(60));
    assert!(!enc.is_sustained(60));
    assert_eq!(enc.events(), &vec![TimeShift(0), Velocity(20), NoteOn(60), NoteOff(60)]);
    assert_eq!(enc.into_events().len(), 4);
}

#[test]
fn sustained_notes_stay_sounding() {
    let mut rng = rand::thread_rng();
    for _ in 0..20 {
        let mut enc = Encoder::new(rng.gen_range(1..2000));
        for _ in 0..500 {
            let delta = if rng.gen_bool(0.5) { 0 } else { rng.gen_range(0..3000) };
            let key = rng.gen_range(50..60u8);
            let m = match rng.gen_range(0..3) {
                0 => on(delta, key, rng.gen_range(0..128u8)),
                1 => on(delta, key, 0),
                _ => pedal(delta, rng.gen_range(0..128u8)),
            };
            enc.process(m);
            for k in 0..128u8 {
                if enc.is_sustained(k) {
                    assert!(enc.is_sounding(k));
                    assert!(enc.is_pedal_down());
                }
            }
        }
        for e in enc.events() {
            assert!(midi_tokenizer::index_to_event(midi_tokenizer::event_to_index(*e)) == Ok(*e));
        }
    }
}
