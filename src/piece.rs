//! Encoding a whole parsed piece.
use vstd::prelude::*;

use crate::codec::{event_wf, PerformanceEvent};
use crate::encoder::{encode_events, encoded};
use crate::error::EncodeError;
use crate::linearize::{get_tracks, linearized, lemma_linearized_wf, ticks_fit};
use crate::message::{stream_wf, tracks_view, Header, Piece, TimedMessage, Timing, TrackFormat};
use crate::tempo::{first_tempo, ticks_per_second, ticks_per_sec_of};

verus! {

/// The data values of every message are in range, and parallel tracks are
/// short enough for their ticks to be counted in 32 bits.
pub open spec fn piece_wf(header: Header, tracks: Seq<Seq<TimedMessage>>) -> bool {
    &&& forall|k: int| 0 <= k < tracks.len() ==> stream_wf(#[trigger] tracks[k])
    &&& header.format == TrackFormat::Parallel ==> ticks_fit(tracks)
}

/// The events of a piece, or why it cannot be encoded.
pub open spec fn piece_events(header: Header, tracks: Seq<Seq<TimedMessage>>) -> Result<
    Seq<PerformanceEvent>,
    EncodeError,
> {
    match header.timing {
        Timing::Timecode => Err(EncodeError::UnsupportedFormat),
        Timing::Metrical(tpq) => match linearized(header.format, tracks) {
            Err(e) => Err(e),
            Ok(stream) => match first_tempo(stream) {
                None => Err(EncodeError::MissingTempo),
                Some(us) => if ticks_per_sec_of(tpq, us) == 0 {
                    Err(EncodeError::UnusableTempo)
                } else {
                    Ok(encoded(stream, ticks_per_sec_of(tpq, us)))
                },
            },
        },
    }
}

/// Encodes a piece: its tracks are read as one stream, its first tempo
/// fixes the tick rate, and the stream is encoded at that rate. A piece
/// fails as a whole: no events come out of a refused piece.
pub fn midi_to_events(piece: &Piece) -> (r: Result<Vec<PerformanceEvent>, EncodeError>)
    requires
        piece_wf(piece.header, tracks_view(piece.tracks@)),
    ensures
        r matches Ok(v) ==> piece_events(piece.header, tracks_view(piece.tracks@)) == Ok::<
            Seq<PerformanceEvent>,
            EncodeError,
        >(v@),
        r matches Err(e) ==> piece_events(piece.header, tracks_view(piece.tracks@)) == Err::<
            Seq<PerformanceEvent>,
            EncodeError,
        >(e),
        r matches Ok(v) ==> forall|i: int| 0 <= i < v.len() ==> event_wf(#[trigger] v@[i]),
{
    let ticks_per_quarter = match piece.header.timing {
        Timing::Metrical(t) => t,
        Timing::Timecode => {
            return Err(EncodeError::UnsupportedFormat);
        },
    };
    let stream = match get_tracks(piece.header.format, &piece.tracks) {
        Ok(s) => s,
        Err(e) => {
            return Err(e);
        },
    };
    let tps = match ticks_per_second(&stream, ticks_per_quarter) {
        Ok(t) => t,
        Err(e) => {
            return Err(e);
        },
    };
    proof {
        lemma_linearized_wf(piece.header.format, tracks_view(piece.tracks@));
    }
    Ok(encode_events(&stream, tps))
}

} // verus!
