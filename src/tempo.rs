//! Finding the tempo of a piece and the tick rate it gives.
use vstd::prelude::*;

use crate::error::EncodeError;
use crate::message::{Message, TimedMessage};

verus! {

/// Microseconds per quarter note of the first tempo message, if any.
pub open spec fn first_tempo(s: Seq<TimedMessage>) -> Option<u32>
    decreases s.len(),
{
    if s.len() == 0 {
        None
    } else if s[0].message is Tempo {
        Some(s[0].message->Tempo_0)
    } else {
        first_tempo(s.drop_first())
    }
}

/// Ticks per second at `ticks_per_quarter` ticks per quarter note and
/// `us_per_quarter` microseconds per quarter note, rounded down.
pub open spec fn ticks_per_sec_of(ticks_per_quarter: u16, us_per_quarter: u32) -> nat {
    if us_per_quarter == 0 {
        0
    } else {
        (ticks_per_quarter * 1_000_000 / us_per_quarter as int) as nat
    }
}

/// Returns the tempo of the first tempo message in the stream.
pub fn find_tempo(stream: &Vec<TimedMessage>) -> (r: Option<u32>)
    ensures
        r == first_tempo(stream@),
{
    let mut i: usize = 0;
    assert(stream@.subrange(0, stream.len() as int) =~= stream@);
    while i < stream.len()
        invariant
            i <= stream.len(),
            first_tempo(stream@) == first_tempo(stream@.subrange(i as int, stream.len() as int)),
        decreases stream.len() - i,
    {
        let ghost rest = stream@.subrange(i as int, stream.len() as int);
        assert(rest[0] == stream@[i as int]);
        match stream[i].message {
            Message::Tempo(us) => {
                return Some(us);
            },
            _ => {},
        }
        assert(rest.drop_first() =~= stream@.subrange(i + 1, stream.len() as int));
        i = i + 1;
    }
    None
}

/// The tick rate of a stream whose ticks count `ticks_per_quarter` per
/// quarter note, at the stream's first tempo; later tempo messages are not
/// read.
pub fn ticks_per_second(stream: &Vec<TimedMessage>, ticks_per_quarter: u16) -> (r: Result<
    u64,
    EncodeError,
>)
    ensures
        first_tempo(stream@) is None ==> r == Err::<u64, EncodeError>(EncodeError::MissingTempo),
        first_tempo(stream@) matches Some(us) ==> r == if ticks_per_sec_of(ticks_per_quarter, us)
            == 0 {
            Err::<u64, EncodeError>(EncodeError::UnusableTempo)
        } else {
            Ok::<u64, EncodeError>(ticks_per_sec_of(ticks_per_quarter, us) as u64)
        },
        r matches Ok(t) ==> 0 < t <= 65_535_000_000,
{
    match find_tempo(stream) {
        None => Err(EncodeError::MissingTempo),
        Some(us) => {
            if us == 0 {
                return Err(EncodeError::UnusableTempo);
            }
            let scaled: u64 = ticks_per_quarter as u64 * 1_000_000;
            let tps: u64 = scaled / us as u64;
            assert(tps <= scaled) by (nonlinear_arith)
                requires
                    tps == scaled / us as u64,
                    us >= 1,
            ;
            if tps == 0 {
                Err(EncodeError::UnusableTempo)
            } else {
                Ok(tps)
            }
        },
    }
}

} // verus!
