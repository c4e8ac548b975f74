//! Why a piece could not be encoded.
use vstd::prelude::*;

verus! {

/// A condition that makes a whole piece impossible to encode.
#[derive(Debug, Clone, Copy, PartialEq, Eq, Structural)]
pub enum EncodeError {
    /// The tracks play one after another, or the timing is not counted in
    /// ticks per quarter note.
    UnsupportedFormat,
    /// No tempo message is found in the piece.
    MissingTempo,
    /// The first tempo gives less than one tick per second.
    UnusableTempo,
}

} // verus!
