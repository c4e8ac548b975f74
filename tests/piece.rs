use midi_tokenizer::{
    events_to_tokens, midi_to_events, EncodeError, Header, Message, Piece, PerformanceEvent,
    TimedMessage, Timing, TrackFormat,
};
use PerformanceEvent::{NoteOff, NoteOn, TimeShift, Velocity};

fn tempo(delta: u32, us: u32) -> TimedMessage {
    TimedMessage { delta, message: Message::Tempo(us) }
}

fn on(delta: u32, key: u8, velocity: u8) -> TimedMessage {
    TimedMessage { delta, message: Message::NoteOn { key, velocity } }
}

fn piece(format: TrackFormat, timing: Timing, tracks: Vec<Vec<TimedMessage>>) -> Piece {
    Piece { header: Header { format, timing }, tracks }
}

#[test]
fn sequential_piece_is_refused() {
    let p = piece(
        TrackFormat::Sequential,
        Timing::Metrical(480),
        vec![vec![tempo(0, 500_000), on(0, 60, 80)], vec![on(10, 61, 80)]],
    );
    assert_eq!(midi_to_events(&p), Err(EncodeError::UnsupportedFormat));
}

#[test]
fn timecode_piece_is_refused() {
    let p = piece(TrackFormat::SingleTrack, Timing::Timecode, vec![vec![tempo(0, 500_000)]]);
    assert_eq!(midi_to_events(&p), Err(EncodeError::UnsupportedFormat));
}

#[test]
fn piece_without_tempo_is_refused() {
    let p = piece(TrackFormat::Parallel, Timing::Metrical(480), vec![vec![on(0, 60, 80)], vec![]]);
    assert_eq!(midi_to_events(&p), Err(EncodeError::MissingTempo));
    let empty = piece(TrackFormat::SingleTrack, Timing::Metrical(480), vec![]);
    assert_eq!(midi_to_events(&empty), Err(EncodeError::MissingTempo));
}

#[test]
fn piece_with_too_slow_tempo_is_refused() {
    let zero = piece(TrackFormat::SingleTrack, Timing::Metrical(480), vec![vec![tempo(0, 0)]]);
    assert_eq!(midi_to_events(&zero), Err(EncodeError::UnusableTempo));
    let slow = piece(TrackFormat::SingleTrack, Timing::Metrical(1), vec![vec![tempo(0, 1_000_001)]]);
    assert_eq!(midi_to_events(&slow), Err(EncodeError::UnusableTempo));
}

#[test]
fn one_second_piece() {
    let p = piece(
        TrackFormat::SingleTrack,
        Timing::Metrical(480),
        vec![vec![tempo(0, 500_000), TimedMessage { delta: 960, message: Message::Other }]],
    );
    assert_eq!(midi_to_events(&p), Ok(vec![TimeShift(99)]));
}

#[test]
fn parallel_piece_is_merged_then_encoded() {
    let p = piece(
        TrackFormat::Parallel,
        Timing::Metrical(480),
        vec![vec![tempo(0, 500_000), tempo(480, 250_000)], vec![on(480, 60, 80), on(480, 60, 0)]],
    );
    let events = midi_to_events(&p).unwrap();
    assert_eq!(events, vec![TimeShift(49), Velocity(20), NoteOn(60), TimeShift(49), NoteOff(60)]);
    assert_eq!(events_to_tokens(&events), vec![305, 376, 60, 305, 188]);
}
