//! The timed messages that a performance is read from.
use vstd::prelude::*;

verus! {

/// What a message says, with 7-bit data values (0 to 127).
#[derive(Debug, Clone, Copy, PartialEq, Eq, Structural)]
pub enum Message {
    NoteOn { key: u8, velocity: u8 },
    NoteOff { key: u8, velocity: u8 },
    Controller { number: u8, value: u8 },
    /// Microseconds per quarter note.
    Tempo(u32),
    /// Any message that the encoder does not read.
    Other,
}

/// A message with the ticks that elapsed since the message before it.
#[derive(Debug, Clone, Copy, PartialEq, Eq, Structural)]
pub struct TimedMessage {
    pub delta: u32,
    pub message: Message,
}

/// How the tracks of a piece relate to each other.
#[derive(Debug, Clone, Copy, PartialEq, Eq, Structural)]
pub enum TrackFormat {
    /// One track only.
    SingleTrack,
    /// Tracks that play at the same time.
    Parallel,
    /// Tracks that play one after another.
    Sequential,
}

/// How the ticks of a piece relate to musical time.
#[derive(Debug, Clone, Copy, PartialEq, Eq, Structural)]
pub enum Timing {
    /// Ticks per quarter note.
    Metrical(u16),
    /// Ticks tied to frames of a timecode.
    Timecode,
}

/// The header of a piece.
#[derive(Debug, Clone, Copy, PartialEq, Eq, Structural)]
pub struct Header {
    pub format: TrackFormat,
    pub timing: Timing,
}

/// A parsed piece: its header and its tracks.
#[derive(Debug)]
pub struct Piece {
    pub header: Header,
    pub tracks: Vec<Vec<TimedMessage>>,
}

/// The data values of a message lie in 0 to 127.
pub open spec fn message_wf(m: Message) -> bool {
    match m {
        Message::NoteOn { key, velocity } => key < 128 && velocity < 128,
        Message::NoteOff { key, velocity } => key < 128 && velocity < 128,
        Message::Controller { number, value } => number < 128 && value < 128,
        _ => true,
    }
}

pub open spec fn stream_wf(s: Seq<TimedMessage>) -> bool {
    forall|i: int| 0 <= i < s.len() ==> message_wf(#[trigger] s[i].message)
}

/// The tracks of a piece as sequences.
pub open spec fn tracks_view(tracks: Seq<Vec<TimedMessage>>) -> Seq<Seq<TimedMessage>> {
    tracks.map_values(|t: Vec<TimedMessage>| t@)
}

} // verus!
