//! Merging the tracks of a piece into one time-ordered stream.
use vstd::prelude::*;

use crate::error::EncodeError;
use crate::message::{message_wf, stream_wf, tracks_view, Message, TimedMessage, TrackFormat};

verus! {

/// A message placed at its absolute tick, with the index of its track.
#[derive(Debug, Clone, Copy, PartialEq, Eq, Structural)]
pub struct Stamped {
    pub tick: u32,
    pub track: usize,
    pub message: Message,
}

/// The ticks from the start of a track to its last message.
pub open spec fn total_ticks(track: Seq<TimedMessage>) -> nat
    decreases track.len(),
{
    if track.len() == 0 {
        0
    } else {
        total_ticks(track.drop_last()) + track.last().delta as nat
    }
}

/// Each track's duration can be counted in 32 bits.
pub open spec fn ticks_fit(tracks: Seq<Seq<TimedMessage>>) -> bool {
    forall|k: int| 0 <= k < tracks.len() ==> total_ticks(#[trigger] tracks[k]) <= u32::MAX
}

/// The messages of track `k`, each at its absolute tick.
pub open spec fn stamp(track: Seq<TimedMessage>, k: int) -> Seq<Stamped> {
    Seq::new(
        track.len(),
        |i: int|
            Stamped {
                tick: total_ticks(track.take(i + 1)) as u32,
                track: k as usize,
                message: track[i].message,
            },
    )
}

/// Merges two sequences by tick; on equal ticks the item of `a` comes first.
pub open spec fn merge_by_tick(a: Seq<Stamped>, b: Seq<Stamped>) -> Seq<Stamped>
    decreases a.len() + b.len(),
{
    if a.len() == 0 {
        b
    } else if b.len() == 0 {
        a
    } else if a[0].tick <= b[0].tick {
        seq![a[0]] + merge_by_tick(a.drop_first(), b)
    } else {
        seq![b[0]] + merge_by_tick(a, b.drop_first())
    }
}

/// All messages of all tracks ordered by absolute tick; equal ticks keep
/// track order, then order within the track.
pub open spec fn merge_all(tracks: Seq<Seq<TimedMessage>>) -> Seq<Stamped>
    decreases tracks.len(),
{
    if tracks.len() == 0 {
        seq![]
    } else {
        merge_by_tick(merge_all(tracks.drop_last()), stamp(tracks.last(), tracks.len() - 1))
    }
}

/// Turns absolute ticks back into the ticks since the previous message.
pub open spec fn redelta(s: Seq<Stamped>) -> Seq<TimedMessage> {
    Seq::new(
        s.len(),
        |i: int|
            TimedMessage {
                delta: (s[i].tick - (if i == 0 {
                    0
                } else {
                    s[i - 1].tick as int
                })) as u32,
                message: s[i].message,
            },
    )
}

/// The stream that parallel tracks merge into.
pub open spec fn merged(tracks: Seq<Seq<TimedMessage>>) -> Seq<TimedMessage> {
    redelta(merge_all(tracks))
}

pub open spec fn ticks_sorted(s: Seq<Stamped>) -> bool {
    forall|i: int, j: int| 0 <= i <= j < s.len() ==> s[i].tick <= s[j].tick
}

/// The stream that a piece's tracks are read as, or the refusal of its format.
pub open spec fn linearized(format: TrackFormat, tracks: Seq<Seq<TimedMessage>>) -> Result<
    Seq<TimedMessage>,
    EncodeError,
> {
    match format {
        TrackFormat::SingleTrack => Ok(
            if tracks.len() == 0 {
                seq![]
            } else {
                tracks[0]
            },
        ),
        TrackFormat::Parallel => Ok(merged(tracks)),
        TrackFormat::Sequential => Err(EncodeError::UnsupportedFormat),
    }
}

proof fn lemma_total_take_step(t: Seq<TimedMessage>, i: int)
    requires
        0 <= i < t.len(),
    ensures
        total_ticks(t.take(i + 1)) == total_ticks(t.take(i)) + t[i].delta,
{
    assert(t.take(i + 1).drop_last() =~= t.take(i));
}

proof fn lemma_total_prefix_le(t: Seq<TimedMessage>, i: int)
    requires
        0 <= i <= t.len(),
    ensures
        total_ticks(t.take(i)) <= total_ticks(t),
    decreases t.len() - i,
{
    if i == t.len() {
        assert(t.take(i) =~= t);
    } else {
        lemma_total_take_step(t, i);
        lemma_total_prefix_le(t, i + 1);
    }
}

proof fn lemma_stamp_sorted(t: Seq<TimedMessage>, k: int)
    requires
        total_ticks(t) <= u32::MAX,
    ensures
        ticks_sorted(stamp(t, k)),
{
    assert forall|i: int, j: int| 0 <= i <= j < t.len() implies stamp(t, k)[i].tick <= stamp(
        t,
        k,
    )[j].tick by {
        let p = t.take(j + 1);
        assert(p.take(i + 1) =~= t.take(i + 1));
        lemma_total_prefix_le(p, i + 1);
        lemma_total_prefix_le(t, j + 1);
    }
}

proof fn lemma_merge_len(a: Seq<Stamped>, b: Seq<Stamped>)
    ensures
        merge_by_tick(a, b).len() == a.len() + b.len(),
    decreases a.len() + b.len(),
{
    if a.len() > 0 && b.len() > 0 {
        if a[0].tick <= b[0].tick {
            lemma_merge_len(a.drop_first(), b);
        } else {
            lemma_merge_len(a, b.drop_first());
        }
    }
}

proof fn lemma_merge_forall(a: Seq<Stamped>, b: Seq<Stamped>, p: spec_fn(Stamped) -> bool)
    requires
        forall|i: int| 0 <= i < a.len() ==> p(#[trigger] a[i]),
        forall|i: int| 0 <= i < b.len() ==> p(#[trigger] b[i]),
    ensures
        forall|i: int| 0 <= i < merge_by_tick(a, b).len() ==> p(#[trigger] merge_by_tick(a, b)[i]),
    decreases a.len() + b.len(),
{
    if a.len() > 0 && b.len() > 0 {
        if a[0].tick <= b[0].tick {
            lemma_merge_forall(a.drop_first(), b, p);
            let m = merge_by_tick(a.drop_first(), b);
            assert forall|i: int| 0 <= i < merge_by_tick(a, b).len() implies p(
                #[trigger] merge_by_tick(a, b)[i],
            ) by {
                if i > 0 {
                    assert(merge_by_tick(a, b)[i] == m[i - 1]);
                }
            }
        } else {
            lemma_merge_forall(a, b.drop_first(), p);
            let m = merge_by_tick(a, b.drop_first());
            assert forall|i: int| 0 <= i < merge_by_tick(a, b).len() implies p(
                #[trigger] merge_by_tick(a, b)[i],
            ) by {
                if i > 0 {
                    assert(merge_by_tick(a, b)[i] == m[i - 1]);
                }
            }
        }
    }
}

proof fn lemma_merge_sorted(a: Seq<Stamped>, b: Seq<Stamped>)
    requires
        ticks_sorted(a),
        ticks_sorted(b),
    ensures
        ticks_sorted(merge_by_tick(a, b)),
    decreases a.len() + b.len(),
{
    if a.len() > 0 && b.len() > 0 {
        if a[0].tick <= b[0].tick {
            let x = a[0].tick;
            lemma_merge_sorted(a.drop_first(), b);
            lemma_merge_forall(a.drop_first(), b, |s: Stamped| x <= s.tick);
        } else {
            let x = b[0].tick;
            lemma_merge_sorted(a, b.drop_first());
            lemma_merge_forall(a, b.drop_first(), |s: Stamped| x <= s.tick);
        }
        let m = merge_by_tick(a, b);
        assert forall|i: int, j: int| 0 <= i <= j < m.len() implies m[i].tick <= m[j].tick by {
            if i > 0 {
                assert(m[i] == m.drop_first()[i - 1]);
                assert(m[j] == m.drop_first()[j - 1]);
            } else if j > 0 {
                assert(m[j] == m.drop_first()[j - 1]);
            }
        }
    }
}

proof fn lemma_merge_empty_right(a: Seq<Stamped>)
    ensures
        merge_by_tick(a, seq![]) == a,
{
}

proof fn lemma_merge_all_sorted(tracks: Seq<Seq<TimedMessage>>)
    requires
        ticks_fit(tracks),
    ensures
        ticks_sorted(merge_all(tracks)),
    decreases tracks.len(),
{
    if tracks.len() > 0 {
        let n = tracks.len() - 1;
        assert(ticks_fit(tracks.drop_last())) by {
            assert forall|k: int| 0 <= k < n implies total_ticks(
                #[trigger] tracks.drop_last()[k],
            ) <= u32::MAX by {
                assert(tracks.drop_last()[k] == tracks[k]);
            }
        }
        lemma_merge_all_sorted(tracks.drop_last());
        assert(total_ticks(tracks[n]) <= u32::MAX);
        lemma_stamp_sorted(tracks.last(), n);
        lemma_merge_sorted(merge_all(tracks.drop_last()), stamp(tracks.last(), n));
    }
}

proof fn lemma_redelta_stamp(t: Seq<TimedMessage>, k: int)
    requires
        total_ticks(t) <= u32::MAX,
    ensures
        redelta(stamp(t, k)) == t,
{
    assert forall|i: int| 0 <= i < t.len() implies #[trigger] redelta(stamp(t, k))[i] == t[i] by {
        lemma_total_take_step(t, i);
        lemma_total_prefix_le(t, i + 1);
    }
    assert(redelta(stamp(t, k)) =~= t);
}

proof fn lemma_merge_all_single(t: Seq<TimedMessage>)
    ensures
        merge_all(seq![t]) == stamp(t, 0),
{
    assert(seq![t].drop_last() =~= Seq::<Seq<TimedMessage>>::empty());
    assert(merge_all(seq![t].drop_last()) == Seq::<Stamped>::empty());
    assert(seq![t].last() == t);
}

/// Merging a single track gives that track back unchanged.
pub proof fn lemma_single_track_unchanged(t: Seq<TimedMessage>)
    requires
        total_ticks(t) <= u32::MAX,
    ensures
        merged(seq![t]) == t,
{
    lemma_merge_all_single(t);
    lemma_redelta_stamp(t, 0);
}

proof fn lemma_merge_in_order(a: Seq<Stamped>, b: Seq<Stamped>)
    requires
        b.len() > 0,
        forall|i: int| 0 <= i < a.len() ==> #[trigger] a[i].tick <= b[0].tick,
    ensures
        merge_by_tick(a, b) == a + b,
    decreases a.len(),
{
    if a.len() == 0 {
        assert(a + b =~= b);
    } else {
        let r = a.drop_first();
        assert forall|i: int| 0 <= i < r.len() implies #[trigger] r[i].tick <= b[0].tick by {
            assert(r[i] == a[i + 1]);
        }
        lemma_merge_in_order(r, b);
        assert(seq![a[0]] + (r + b) =~= a + b);
    }
}

/// The track `b` with its first delta moved on by `offset` ticks.
pub open spec fn delayed(b: Seq<TimedMessage>, offset: nat) -> Seq<TimedMessage> {
    b.update(0, TimedMessage { delta: (b[0].delta + offset) as u32, message: b[0].message })
}

proof fn lemma_delayed_totals(b: Seq<TimedMessage>, offset: nat, j: int)
    requires
        b.len() > 0,
        0 <= j < b.len(),
        offset + total_ticks(b) <= u32::MAX,
    ensures
        total_ticks(delayed(b, offset).take(j + 1)) == offset + total_ticks(b.take(j + 1)),
    decreases j,
{
    let d = delayed(b, offset);
    lemma_total_take_step(d, j);
    lemma_total_take_step(b, j);
    if j == 0 {
        lemma_total_prefix_le(b, 1);
    } else {
        lemma_delayed_totals(b, offset, j - 1);
    }
}

proof fn lemma_merge_two(a: Seq<TimedMessage>, d: Seq<TimedMessage>)
    ensures
        merge_all(seq![a, d]) == merge_by_tick(stamp(a, 0), stamp(d, 1)),
{
    assert(seq![a, d].drop_last() =~= seq![a]);
    assert(seq![a, d].last() == d);
    lemma_merge_all_single(a);
}

proof fn lemma_delayed_ticks(a: Seq<TimedMessage>, b: Seq<TimedMessage>)
    requires
        b.len() > 0,
        total_ticks(a) + total_ticks(b) <= u32::MAX,
    ensures
        forall|j: int|
            0 <= j < b.len() ==> #[trigger] stamp(delayed(b, total_ticks(a)), 1)[j].tick
                == total_ticks(a) + total_ticks(b.take(j + 1)),
        forall|i: int|
            0 <= i < a.len() ==> #[trigger] stamp(a, 0)[i].tick <= stamp(
                delayed(b, total_ticks(a)),
                1,
            )[0].tick,
{
    let ta = total_ticks(a);
    assert forall|j: int| 0 <= j < b.len() implies #[trigger] stamp(delayed(b, ta), 1)[j].tick
        == ta + total_ticks(b.take(j + 1)) by {
        lemma_delayed_totals(b, ta, j);
        lemma_total_prefix_le(b, j + 1);
    }
    assert forall|i: int| 0 <= i < a.len() implies #[trigger] stamp(a, 0)[i].tick <= stamp(
        delayed(b, ta),
        1,
    )[0].tick by {
        lemma_total_prefix_le(a, i + 1);
    }
}

proof fn lemma_redelta_follows_at(a: Seq<TimedMessage>, b: Seq<TimedMessage>, i: int)
    requires
        b.len() > 0,
        total_ticks(a) + total_ticks(b) <= u32::MAX,
        0 <= i < a.len() + b.len(),
        forall|j: int|
            0 <= j < b.len() ==> #[trigger] stamp(delayed(b, total_ticks(a)), 1)[j].tick
                == total_ticks(a) + total_ticks(b.take(j + 1)),
    ensures
        redelta(stamp(a, 0) + stamp(delayed(b, total_ticks(a)), 1))[i] == (a + b)[i],
{
    let sa = stamp(a, 0);
    let s = sa + stamp(delayed(b, total_ticks(a)), 1);
    if i < a.len() {
        lemma_redelta_stamp(a, 0);
        assert(redelta(sa)[i] == a[i]);
        assert(s[i] == sa[i]);
        if i > 0 {
            assert(s[i - 1] == sa[i - 1]);
        }
    } else if i == a.len() {
        if a.len() > 0 {
            lemma_total_prefix_le(a, a.len() as int);
            assert(a.take(a.len() as int) =~= a);
        }
        lemma_total_take_step(b, 0);
    } else {
        let j = i - a.len();
        lemma_total_take_step(b, j);
        lemma_total_prefix_le(b, j);
    }
}

/// Two tracks, the second delayed at its start by the whole duration of the
/// first, merge into the first followed by the second as it was.
pub proof fn lemma_delayed_track_follows(a: Seq<TimedMessage>, b: Seq<TimedMessage>)
    requires
        b.len() > 0,
        total_ticks(a) + total_ticks(b) <= u32::MAX,
    ensures
        merged(seq![a, delayed(b, total_ticks(a))]) == a + b,
{
    let d = delayed(b, total_ticks(a));
    lemma_merge_two(a, d);
    lemma_delayed_ticks(a, b);
    lemma_merge_in_order(stamp(a, 0), stamp(d, 1));
    let s = stamp(a, 0) + stamp(d, 1);
    assert forall|i: int| 0 <= i < s.len() implies #[trigger] redelta(s)[i] == (a + b)[i] by {
        lemma_redelta_follows_at(a, b, i);
    }
    assert(redelta(s) =~= a + b);
}

/// The messages that came from track `k`, in the order they stand in `s`.
pub open spec fn messages_of_track(s: Seq<Stamped>, k: int) -> Seq<Message>
    decreases s.len(),
{
    if s.len() == 0 {
        seq![]
    } else {
        (if s[0].track == k {
            seq![s[0].message]
        } else {
            seq![]
        }) + messages_of_track(s.drop_first(), k)
    }
}

/// The messages of a track without their timing.
pub open spec fn track_messages(t: Seq<TimedMessage>) -> Seq<Message> {
    t.map_values(|m: TimedMessage| m.message)
}

/// The number of messages in all tracks together.
pub open spec fn message_count(tracks: Seq<Seq<TimedMessage>>) -> nat
    decreases tracks.len(),
{
    if tracks.len() == 0 {
        0
    } else {
        message_count(tracks.drop_last()) + tracks.last().len()
    }
}

proof fn lemma_messages_of_head(x: Stamped, r: Seq<Stamped>, k: int)
    ensures
        messages_of_track(seq![x] + r, k) == (if x.track == k {
            seq![x.message]
        } else {
            seq![]
        }) + messages_of_track(r, k),
{
    assert((seq![x] + r).drop_first() =~= r);
}

proof fn lemma_messages_of_only(s: Seq<Stamped>, k: int)
    requires
        forall|i: int| 0 <= i < s.len() ==> (#[trigger] s[i]).track == k,
    ensures
        messages_of_track(s, k) == s.map_values(|x: Stamped| x.message),
    decreases s.len(),
{
    if s.len() > 0 {
        let r = s.drop_first();
        assert forall|i: int| 0 <= i < r.len() implies (#[trigger] r[i]).track == k by {
            assert(r[i] == s[i + 1]);
        }
        lemma_messages_of_only(r, k);
        assert(s.map_values(|x: Stamped| x.message) =~= seq![s[0].message] + r.map_values(
            |x: Stamped| x.message,
        ));
    }
}

proof fn lemma_messages_of_none(s: Seq<Stamped>, k: int)
    requires
        forall|i: int| 0 <= i < s.len() ==> (#[trigger] s[i]).track != k,
    ensures
        messages_of_track(s, k) == Seq::<Message>::empty(),
    decreases s.len(),
{
    if s.len() > 0 {
        let r = s.drop_first();
        assert forall|i: int| 0 <= i < r.len() implies (#[trigger] r[i]).track != k by {
            assert(r[i] == s[i + 1]);
        }
        lemma_messages_of_none(r, k);
        assert(Seq::<Message>::empty() + Seq::<Message>::empty() =~= Seq::<Message>::empty());
    }
}

proof fn lemma_messages_of_merge(a: Seq<Stamped>, b: Seq<Stamped>, k: int, skip_b: bool)
    requires
        skip_b ==> forall|i: int| 0 <= i < b.len() ==> (#[trigger] b[i]).track != k,
        !skip_b ==> forall|i: int| 0 <= i < a.len() ==> (#[trigger] a[i]).track != k,
    ensures
        messages_of_track(merge_by_tick(a, b), k) == messages_of_track(
            if skip_b {
                a
            } else {
                b
            },
            k,
        ),
    decreases a.len() + b.len(),
{
    if a.len() == 0 {
        if skip_b {
            lemma_messages_of_none(b, k);
        }
    } else if b.len() == 0 {
        if !skip_b {
            lemma_messages_of_none(a, k);
        }
    } else if a[0].tick <= b[0].tick {
        let r = a.drop_first();
        assert forall|i: int| 0 <= i < r.len() implies #[trigger] r[i] == a[i + 1] by {}
        lemma_messages_of_merge(r, b, k, skip_b);
        lemma_messages_of_head(a[0], merge_by_tick(r, b), k);
        if skip_b {
            assert(a =~= seq![a[0]] + r);
            lemma_messages_of_head(a[0], r, k);
        } else {
            assert(Seq::<Message>::empty() + messages_of_track(b, k) =~= messages_of_track(b, k));
        }
    } else {
        let r = b.drop_first();
        assert forall|i: int| 0 <= i < r.len() implies #[trigger] r[i] == b[i + 1] by {}
        lemma_messages_of_merge(a, r, k, skip_b);
        lemma_messages_of_head(b[0], merge_by_tick(a, r), k);
        if skip_b {
            assert(Seq::<Message>::empty() + messages_of_track(a, k) =~= messages_of_track(a, k));
        } else {
            assert(b =~= seq![b[0]] + r);
            lemma_messages_of_head(b[0], r, k);
        }
    }
}

proof fn lemma_merge_all_tracks_below(tracks: Seq<Seq<TimedMessage>>)
    requires
        tracks.len() <= usize::MAX,
    ensures
        forall|i: int|
            0 <= i < merge_all(tracks).len() ==> (#[trigger] merge_all(tracks)[i]).track
                < tracks.len(),
    decreases tracks.len(),
{
    if tracks.len() > 0 {
        let n = tracks.len();
        lemma_merge_all_tracks_below(tracks.drop_last());
        lemma_merge_forall(
            merge_all(tracks.drop_last()),
            stamp(tracks.last(), n - 1),
            |s: Stamped| s.track < n,
        );
    }
}

proof fn lemma_merge_all_len(tracks: Seq<Seq<TimedMessage>>)
    ensures
        merge_all(tracks).len() == message_count(tracks),
    decreases tracks.len(),
{
    if tracks.len() > 0 {
        lemma_merge_all_len(tracks.drop_last());
        lemma_merge_len(merge_all(tracks.drop_last()), stamp(tracks.last(), tracks.len() - 1));
    }
}

/// Merging keeps every message: as many come out as went in, and the
/// messages of each track come out in the order they had in that track.
pub proof fn lemma_merge_keeps_messages(tracks: Seq<Seq<TimedMessage>>, k: int)
    requires
        tracks.len() <= usize::MAX,
        0 <= k < tracks.len(),
    ensures
        merged(tracks).len() == message_count(tracks),
        forall|i: int|
            0 <= i < merged(tracks).len() ==> (#[trigger] merged(tracks)[i]).message == merge_all(
                tracks,
            )[i].message,
        messages_of_track(merge_all(tracks), k) == track_messages(tracks[k]),
    decreases tracks.len(),
{
    let n = tracks.len();
    let init = tracks.drop_last();
    let st = stamp(tracks.last(), n - 1);
    lemma_merge_all_len(tracks);
    if k == n - 1 {
        lemma_merge_all_tracks_below(init);
        lemma_messages_of_merge(merge_all(init), st, k, false);
        lemma_messages_of_only(st, k);
        assert(st.map_values(|x: Stamped| x.message) =~= track_messages(tracks[k]));
    } else {
        lemma_messages_of_merge(merge_all(init), st, k, true);
        lemma_merge_keeps_messages(init, k);
        assert(init[k] == tracks[k]);
    }
}

proof fn lemma_merge_all_wf(tracks: Seq<Seq<TimedMessage>>)
    requires
        forall|k: int| 0 <= k < tracks.len() ==> stream_wf(#[trigger] tracks[k]),
    ensures
        forall|i: int|
            0 <= i < merge_all(tracks).len() ==> message_wf(#[trigger] merge_all(tracks)[i].message),
    decreases tracks.len(),
{
    if tracks.len() > 0 {
        let init = tracks.drop_last();
        assert forall|k: int| 0 <= k < init.len() implies stream_wf(#[trigger] init[k]) by {
            assert(init[k] == tracks[k]);
        }
        lemma_merge_all_wf(init);
        let last = tracks.last();
        assert(stream_wf(tracks[tracks.len() - 1]));
        let st = stamp(last, tracks.len() - 1);
        assert forall|i: int| 0 <= i < st.len() implies message_wf(#[trigger] st[i].message) by {
            assert(st[i].message == last[i].message);
        }
        lemma_merge_forall(merge_all(init), st, |s: Stamped| message_wf(s.message));
    }
}

/// The stream that well-formed tracks are read as is well formed.
pub proof fn lemma_linearized_wf(format: TrackFormat, tracks: Seq<Seq<TimedMessage>>)
    requires
        forall|k: int| 0 <= k < tracks.len() ==> stream_wf(#[trigger] tracks[k]),
    ensures
        linearized(format, tracks) matches Ok(s) ==> stream_wf(s),
{
    if format == TrackFormat::Parallel {
        lemma_merge_all_wf(tracks);
        let m = merged(tracks);
        assert forall|i: int| 0 <= i < m.len() implies message_wf(#[trigger] m[i].message) by {
            assert(m[i].message == merge_all(tracks)[i].message);
        }
    } else if format == TrackFormat::SingleTrack && tracks.len() > 0 {
        assert(stream_wf(tracks[0]));
    }
}

fn stamp_track(track: &Vec<TimedMessage>, k: usize) -> (r: Vec<Stamped>)
    requires
        total_ticks(track@) <= u32::MAX,
    ensures
        r@ == stamp(track@, k as int),
{
    let mut out: Vec<Stamped> = Vec::new();
    let mut t: u32 = 0;
    let mut i: usize = 0;
    while i < track.len()
        invariant
            i <= track.len(),
            total_ticks(track@) <= u32::MAX,
            t == total_ticks(track@.take(i as int)),
            out.len() == i,
            forall|j: int| 0 <= j < i ==> out@[j] == stamp(track@, k as int)[j],
        decreases track.len() - i,
    {
        proof {
            lemma_total_take_step(track@, i as int);
            lemma_total_prefix_le(track@, i + 1);
        }
        t = t + track[i].delta;
        out.push(Stamped { tick: t, track: k, message: track[i].message });
        i = i + 1;
    }
    assert(out@ =~= stamp(track@, k as int));
    out
}

fn merge_stamped(a: &Vec<Stamped>, b: &Vec<Stamped>) -> (r: Vec<Stamped>)
    ensures
        r@ == merge_by_tick(a@, b@),
{
    let mut out: Vec<Stamped> = Vec::new();
    let mut i: usize = 0;
    let mut j: usize = 0;
    assert(a@.subrange(0, a.len() as int) =~= a@);
    assert(b@.subrange(0, b.len() as int) =~= b@);
    assert(out@ + merge_by_tick(a@, b@) =~= merge_by_tick(a@, b@));
    while i < a.len() || j < b.len()
        invariant
            i <= a.len(),
            j <= b.len(),
            merge_by_tick(a@, b@) == out@ + merge_by_tick(
                a@.subrange(i as int, a.len() as int),
                b@.subrange(j as int, b.len() as int),
            ),
        decreases a.len() - i + b.len() - j,
    {
        let ghost ra = a@.subrange(i as int, a.len() as int);
        let ghost rb = b@.subrange(j as int, b.len() as int);
        if j == b.len() || (i < a.len() && a[i].tick <= b[j].tick) {
            proof {
                assert(ra.drop_first() =~= a@.subrange(i + 1, a.len() as int));
                if rb.len() == 0 {
                    lemma_merge_empty_right(ra);
                    lemma_merge_empty_right(ra.drop_first());
                    assert(ra =~= seq![ra[0]] + ra.drop_first());
                }
                assert(out@ + merge_by_tick(ra, rb) =~= out@.push(a@[i as int])
                    + merge_by_tick(ra.drop_first(), rb));
            }
            out.push(a[i]);
            i = i + 1;
        } else {
            proof {
                assert(rb.drop_first() =~= b@.subrange(j + 1, b.len() as int));
                assert(out@ + merge_by_tick(ra, rb) =~= out@.push(b@[j as int])
                    + merge_by_tick(ra, rb.drop_first()));
            }
            out.push(b[j]);
            j = j + 1;
        }
    }
    assert(out@ + merge_by_tick(seq![], seq![]) =~= out@);
    out
}

fn redelta_stamped(s: &Vec<Stamped>) -> (r: Vec<TimedMessage>)
    requires
        ticks_sorted(s@),
    ensures
        r@ == redelta(s@),
{
    let mut out: Vec<TimedMessage> = Vec::new();
    let mut prev: u32 = 0;
    let mut i: usize = 0;
    while i < s.len()
        invariant
            i <= s.len(),
            ticks_sorted(s@),
            prev == (if i == 0 {
                0
            } else {
                s@[i - 1].tick
            }),
            out.len() == i,
            forall|j: int| 0 <= j < i ==> out@[j] == redelta(s@)[j],
        decreases s.len() - i,
    {
        let e = s[i];
        out.push(TimedMessage { delta: e.tick - prev, message: e.message });
        prev = e.tick;
        i = i + 1;
    }
    assert(out@ =~= redelta(s@));
    out
}

/// Merges parallel tracks into one stream ordered by absolute tick, equal
/// ticks in track order and then in order within the track, each message
/// carrying the ticks since the message before it in the merged stream.
pub fn merge_parallel_tracks(tracks: &Vec<Vec<TimedMessage>>) -> (r: Vec<TimedMessage>)
    requires
        ticks_fit(tracks_view(tracks@)),
    ensures
        r@ == merged(tracks_view(tracks@)),
{
    let ghost tv = tracks_view(tracks@);
    let mut acc: Vec<Stamped> = Vec::new();
    let mut k: usize = 0;
    assert(tv.take(0) =~= Seq::<Seq<TimedMessage>>::empty());
    while k < tracks.len()
        invariant
            k <= tracks.len(),
            tv == tracks_view(tracks@),
            ticks_fit(tv),
            acc@ == merge_all(tv.take(k as int)),
        decreases tracks.len() - k,
    {
        assert(tv[k as int] == tracks@[k as int]@);
        assert(total_ticks(tv[k as int]) <= u32::MAX);
        let stamped = stamp_track(&tracks[k], k);
        acc = merge_stamped(&acc, &stamped);
        proof {
            let p = tv.take(k + 1);
            assert(p.drop_last() =~= tv.take(k as int));
            assert(p.last() == tv[k as int]);
        }
        k = k + 1;
    }
    assert(tv.take(tracks.len() as int) =~= tv);
    proof {
        lemma_merge_all_sorted(tv);
    }
    redelta_stamped(&acc)
}

fn copy_track(track: &Vec<TimedMessage>) -> (r: Vec<TimedMessage>)
    ensures
        r@ == track@,
{
    let mut out: Vec<TimedMessage> = Vec::new();
    let mut i: usize = 0;
    while i < track.len()
        invariant
            i <= track.len(),
            out@ == track@.take(i as int),
        decreases track.len() - i,
    {
        out.push(track[i]);
        i = i + 1;
        assert(out@ =~= track@.take(i as int));
    }
    assert(track@.take(i as int) =~= track@);
    out
}

/// Reads the tracks of a piece as one stream: a single track as it is,
/// parallel tracks merged by time; tracks that play one after another are
/// refused.
pub fn get_tracks(format: TrackFormat, tracks: &Vec<Vec<TimedMessage>>) -> (r: Result<
    Vec<TimedMessage>,
    EncodeError,
>)
    requires
        format == TrackFormat::Parallel ==> ticks_fit(tracks_view(tracks@)),
    ensures
        r matches Ok(s) ==> linearized(format, tracks_view(tracks@)) == Ok::<
            Seq<TimedMessage>,
            EncodeError,
        >(s@),
        r matches Err(e) ==> linearized(format, tracks_view(tracks@)) == Err::<
            Seq<TimedMessage>,
            EncodeError,
        >(e),
{
    match format {
        TrackFormat::SingleTrack => {
            if tracks.len() == 0 {
                Ok(Vec::new())
            } else {
                Ok(copy_track(&tracks[0]))
            }
        },
        TrackFormat::Parallel => Ok(merge_parallel_tracks(tracks)),
        TrackFormat::Sequential => Err(EncodeError::UnsupportedFormat),
    }
}

} // verus!
