use midi_tokenizer::{get_tracks, merge_parallel_tracks, EncodeError, Message, TimedMessage, TrackFormat};
use midly::{MetaMessage, MidiMessage, TrackEvent, TrackEventKind};
use rand::Rng;

fn timed(event: &TrackEvent) -> TimedMessage {
    let message = match event.kind {
        TrackEventKind::Midi { message, .. } => match message {
            MidiMessage::NoteOn { key, vel } => Message::NoteOn { key: key.as_int(), velocity: vel.as_int() },
            MidiMessage::NoteOff { key, vel } => Message::NoteOff { key: key.as_int(), velocity: vel.as_int() },
            MidiMessage::Controller { controller, value } => {
                Message::Controller { number: controller.as_int(), value: value.as_int() }
            }
            _ => Message::Other,
        },
        TrackEventKind::Meta(MetaMessage::Tempo(t)) => Message::Tempo(t.as_int()),
        _ => Message::Other,
    };
    TimedMessage { delta: event.delta.as_int(), message }
}

fn timed_track(track: &[TrackEvent]) -> Vec<TimedMessage> {
    track.iter().map(timed).collect()
}

fn create_random_midievent() -> TrackEvent<'static> {
    let channel = rand::thread_rng().gen_range(0..16u8);
    let delta = rand::thread_rng().gen_range(0..100u32);
    let key = rand::thread_rng().gen_range(0..128u8);
    let vel = rand::thread_rng().gen_range(0..128u8);
    let note_on = rand::thread_rng().gen_bool(0.5);
    TrackEvent {
        delta: delta.into(),
        kind: TrackEventKind::Midi {
            channel: channel.into(),
            message: if note_on {
                MidiMessage::NoteOn { key: key.into(), vel: vel.into() }
            } else {
                MidiMessage::NoteOff { key: key.into(), vel: vel.into() }
            },
        },
    }
}

fn msg(delta: u32, key: u8) -> TimedMessage {
    TimedMessage { delta, message: Message::NoteOn { key, velocity: 64 } }
}

#[test]
fn single_track_remains_the_same() {
    let mut tracks: Vec<Vec<TrackEvent>> = vec![vec![]];
    let merged = merge_parallel_tracks(&vec![timed_track(&tracks[0])]);
    assert_eq!(merged, timed_track(&tracks[0]));

    tracks[0].push(TrackEvent {
        delta: 0.into(),
        kind: TrackEventKind::Meta(MetaMessage::TrackName(b"violin")),
    });
    let merged = merge_parallel_tracks(&vec![timed_track(&tracks[0])]);
    assert_eq!(merged, timed_track(&tracks[0]));

    for _ in 0..100 {
        tracks[0].push(create_random_midievent());
    }
    let merged = merge_parallel_tracks(&vec![timed_track(&tracks[0])]);
    assert_eq!(merged, timed_track(&tracks[0]));
}

#[test]
fn two_tracks_are_concated() {
    let tracks: Vec<Vec<TrackEvent>> = vec![
        vec![TrackEvent {
            delta: 0.into(),
            kind: TrackEventKind::Meta(MetaMessage::TrackName(b"violin")),
        }],
        (0..100).map(|_| create_random_midievent()).collect(),
    ];
    let input: Vec<Vec<TimedMessage>> = tracks.iter().map(|t| timed_track(t)).collect();
    let expected: Vec<TimedMessage> =
        input[0].iter().cloned().chain(input[1].iter().cloned()).collect();
    assert_eq!(merge_parallel_tracks(&input), expected);
}

#[test]
fn multi_tracks_are_combined() {
    let track0: Vec<TrackEvent> = (0..2).map(|_| create_random_midievent()).collect();
    let track1: Vec<TrackEvent> = (0..2).map(|_| create_random_midievent()).collect();
    let track0_delta = track0.iter().fold(0u32, |acc, event: &TrackEvent| {
        let delta: u32 = event.delta.into();
        acc + delta
    });

    let mut track1_copy = track1.clone();
    let delta: u32 = track1_copy[0].delta.into();
    track1_copy[0].delta = (delta + track0_delta).into();

    let tracks = vec![timed_track(&track0), timed_track(&track1_copy)];
    let expected: Vec<TimedMessage> =
        timed_track(&track0).into_iter().chain(timed_track(&track1)).collect();
    assert_eq!(merge_parallel_tracks(&tracks), expected);
}

#[test]
fn interleaved_tracks_are_ordered_by_time() {
    // track 0 at ticks 0, 10, 30; track 1 at ticks 5, 10, 40
    let a = vec![msg(0, 1), msg(10, 2), msg(20, 3)];
    let b = vec![msg(5, 11), msg(5, 12), msg(30, 13)];
    let merged = merge_parallel_tracks(&vec![a, b]);
    let expected = vec![msg(0, 1), msg(5, 11), msg(5, 2), msg(0, 12), msg(20, 3), msg(10, 13)];
    assert_eq!(merged, expected);
}

#[test]
fn merging_keeps_count_and_track_order() {
    let tracks: Vec<Vec<TimedMessage>> = (0..4u8)
        .map(|k| {
            (0..25u8)
                .map(|i| TimedMessage {
                    delta: rand::thread_rng().gen_range(0..50u32),
                    message: Message::NoteOn { key: k * 25 + i, velocity: 1 },
                })
                .collect()
        })
        .collect();
    let merged = merge_parallel_tracks(&tracks);
    assert_eq!(merged.len(), 100);
    for k in 0..4u8 {
        let from_track: Vec<Message> = merged
            .iter()
            .map(|m| m.message)
            .filter(|m| matches!(m, Message::NoteOn { key, .. } if key / 25 == k))
            .collect();
        let in_track: Vec<Message> = tracks[k as usize].iter().map(|m| m.message).collect();
        assert_eq!(from_track, in_track);
    }
    // the deltas of the merged stream add up to the latest end of any track
    let total: u64 = merged.iter().map(|m| m.delta as u64).sum();
    let longest: u64 =
        tracks.iter().map(|t| t.iter().map(|m| m.delta as u64).sum::<u64>()).max().unwrap();
    assert_eq!(total, longest);
}

#[test]
fn equal_ticks_keep_track_order() {
    let a = vec![msg(7, 1)];
    let b = vec![msg(7, 2)];
    let c = vec![msg(7, 3)];
    let merged = merge_parallel_tracks(&vec![c.clone(), a.clone(), b.clone()]);
    assert_eq!(merged, vec![msg(7, 3), msg(0, 1), msg(0, 2)]);
}

#[test]
fn no_tracks_merge_into_nothing() {
    assert_eq!(merge_parallel_tracks(&vec![]), vec![]);
}

#[test]
fn single_track_format_passes_first_track() {
    let a = vec![msg(3, 1), msg(0, 2)];
    assert_eq!(get_tracks(TrackFormat::SingleTrack, &vec![a.clone()]), Ok(a));
    assert_eq!(get_tracks(TrackFormat::SingleTrack, &vec![]), Ok(vec![]));
}

#[test]
fn sequential_format_is_refused() {
    let a = vec![msg(3, 1)];
    assert_eq!(
        get_tracks(TrackFormat::Sequential, &vec![a.clone(), a]),
        Err(EncodeError::UnsupportedFormat)
    );
}
