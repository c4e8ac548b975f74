//! Turns a performance given as timed note and controller messages into a
//! sequence of discrete performance events, and maps those events to and from
//! a fixed vocabulary of integer tokens.
pub mod codec;
pub mod encoder;
pub mod error;
pub mod linearize;
pub mod message;
pub mod piece;
pub mod tempo;

pub use codec::{event_to_index, events_to_tokens, index_to_event, timeshift_to_ms, OutOfRangeToken, PerformanceEvent};
pub use error::EncodeError;
pub use linearize::{get_tracks, merge_parallel_tracks};
pub use encoder::{encode_events, ticks_to_timeshift, Encoder};
pub use piece::midi_to_events;
pub use tempo::{find_tempo, ticks_per_second};
pub use message::{Header, Message, Piece, TimedMessage, Timing, TrackFormat};
