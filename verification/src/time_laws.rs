//! What sampling a track and advancing a playhead promise, told by keys and times.
use crate::nearness::near;
use crate::number::Real;
use crate::timeline::{
    advanced, in_order, is_sample, key_set, key_set_at, lemma_reached, not_after, reached, segment, straight,
    BoneTracks, Interp, Key, ObjectTracks, Playhead, SampledTransform,
};
use vstd::prelude::*;

verus! {

/// Between two keys that follow each other a track goes by the earlier one: a constant one holds
/// its value until the next key, whatever that one is, and a straight one leads to the next. Keys
/// less than one hundred-millionth apart are not interpolated.
pub proof fn segments_go_by_their_first_key<
    S: Fn(Real, Real) -> Real,
    M: Fn(Key, Key, Real) -> Real,
>(keys: Seq<Key>, t: Real, span: S, mix: M, r: Option<Real>, i: int)
    requires
        in_order(keys),
        0 <= i < keys.len() - 1,
        is_sample(keys, t, span, mix, r),
        keys[0].time.less(t),
        t.less(keys[keys.len() - 1].time),
        keys[i].time.at_most(t),
        t.less(keys[i + 1].time),
    ensures
        r is Some,
        keys[i].interp == Interp::Constant ==> r == Some(keys[i].value),
        keys[i].interp == Interp::Linear ==> exists|dt: Real| #[trigger]
            span.ensures((keys[i].time, keys[i + 1].time), dt) && (if dt.less(
                Real { bits: 0x322b_cc77 },
            ) {
                r == Some(keys[i].value)
            } else {
                mix.ensures((keys[i], keys[i + 1], t), r->0)
            }),
{
    lemma_reached(keys, t);
    let n = reached(keys, t);
    if n <= i {
        assert(!not_after(keys[n].time, t));
        if n < i {
            assert(!keys[i].time.less(keys[n].time));
        }
    }
    if n > i + 1 {
        assert(not_after(keys[i + 1].time, t));
    }
    assert(segment(keys, t) == i);
}

/// At a key and beyond the ends a track has the values of its keys: none without keys, the first
/// value up to the first key, and the last from the last key on.
pub proof fn tracks_begin_and_end_with_their_keys<
    S: Fn(Real, Real) -> Real,
    M: Fn(Key, Key, Real) -> Real,
>(keys: Seq<Key>, t: Real, span: S, mix: M, r: Option<Real>)
    requires
        in_order(keys),
        !t.nan(),
        is_sample(keys, t, span, mix, r),
    ensures
        r is None <==> keys.len() == 0,
        keys.len() > 0 && !keys[0].time.less(t) ==> r == Some(keys[0].value),
        keys.len() > 0 && keys[0].time.less(t) && !t.less(keys[keys.len() - 1].time) ==> r == Some(
            keys[keys.len() - 1].value,
        ),
{
}

/// A key that is set stands in the track with its value, at its own time or at that of the key it
/// replaces, and what is before it is not later and what is after it not earlier.
pub proof fn set_keys_are_there(before: Seq<Key>, after: Seq<Key>, key: Key)
    requires
        in_order(before),
        !key.time.nan(),
        key_set(before, after, key),
    ensures
        exists|n: int|
            0 <= n < after.len() && (#[trigger] after[n]).value == key.value && after[n].interp
                == key.interp && (after[n].time == key.time || before.len() == after.len()
                && after[n].time == before[n].time),
        before.len() <= after.len() <= before.len() + 1,
        forall|i: int, j: int|
            0 <= i < j < after.len() ==> !(#[trigger] after[j]).time.less(
                (#[trigger] after[i]).time,
            ),
{
    crate::timeline::setting_keys_keeps_order(before, after, key);
    crate::timeline::setting_a_key_keeps_the_others(before, after, key);
    let changed = exists|i: int|
        0 <= i < before.len() && crate::nearness::near((#[trigger] before[i]).time, key.time);
    if changed {
        let n = choose|n: int|
            0 <= n < before.len() && crate::nearness::near(before[n].time, key.time) && after
                == #[trigger] before.update(n, Key { time: before[n].time, ..key });
        assert(after[n].value == key.value);
    } else {
        let n = choose|n: int|
            0 <= n <= before.len() && after == #[trigger] before.insert(n, key);
        assert(after[n].value == key.value);
    }
}

/// A playhead that does not loop never goes past the end of its clip, and stops exactly when it
/// comes to it. One that loops goes on playing, and is taken around a clip that has a duration.
/// Nothing but the time, and whether it plays, changes.
pub proof fn playheads_stop_or_go_around<W: Fn(Real, Real) -> Real>(
    before: Playhead,
    after: Playhead,
    time: Real,
    wrap: W,
)
    requires
        before.playing,
        !time.nan(),
        !before.clip_duration.nan(),
        advanced(before, after, time, wrap),
    ensures
        after.clip_duration == before.clip_duration,
        after.loop_play == before.loop_play,
        !before.loop_play && time.less(before.clip_duration) ==> after.time == time && after.playing,
        !before.loop_play && !time.less(before.clip_duration) ==> after.time.same_number(
            before.clip_duration,
        ) && !after.playing,
        before.loop_play ==> after.playing,
        before.loop_play && (Real { bits: 0 }).less(before.clip_duration) ==> wrap.ensures(
            (time, before.clip_duration),
            after.time,
        ),
        before.loop_play && !(Real { bits: 0 }).less(before.clip_duration) ==> after.time == time,
{
}

/// A track with one key holds its value at its time.
proof fn lemma_single<S: Fn(Real, Real) -> Real, M: Fn(Key, Key, Real) -> Real>(
    before: Seq<Key>,
    after: Seq<Key>,
    t: Real,
    value: Real,
    span: S,
    mix: M,
    r: Option<Real>,
)
    requires
        before.len() == 0,
        !t.nan(),
        key_set(before, after, straight(t, value)),
        is_sample(after, t, span, mix, r),
    ensures
        r == Some(value),
{
    assert(after.len() == 1 && after[0] == straight(t, value)) by {
        reveal_with_fuel(reached, 2);
    }
}

/// A transform that is keyed where there was no key comes back at its time: place, turn and size,
/// each coordinate from its own track.
pub proof fn keyed_transforms_come_back<
    S: Fn(Real, Real) -> Real,
    M: Fn(Key, Key, Real) -> Real,
>(
    before: ObjectTracks,
    after: ObjectTracks,
    t: Real,
    pos: Seq<Real>,
    rot: Seq<Real>,
    scale: Seq<Real>,
    span: S,
    mix: M,
    r: SampledTransform,
)
    requires
        before.keyless(),
        !t.nan(),
        before.is_keyed(after, t, pos, rot, scale),
        after.is_sampled(t, span, mix, r),
    ensures
        r.tx == Some(pos[0]) && r.ty == Some(pos[1]) && r.tz == Some(pos[2]),
        r.rx == Some(rot[0]) && r.ry == Some(rot[1]) && r.rz == Some(rot[2]),
        r.sx == Some(scale[0]) && r.sy == Some(scale[1]) && r.sz == Some(scale[2]),
{
    lemma_single(before.tx.keys@, after.tx.keys@, t, pos[0], span, mix, r.tx);
    lemma_single(before.ty.keys@, after.ty.keys@, t, pos[1], span, mix, r.ty);
    lemma_single(before.tz.keys@, after.tz.keys@, t, pos[2], span, mix, r.tz);
    lemma_single(before.rx.keys@, after.rx.keys@, t, rot[0], span, mix, r.rx);
    lemma_single(before.ry.keys@, after.ry.keys@, t, rot[1], span, mix, r.ry);
    lemma_single(before.rz.keys@, after.rz.keys@, t, rot[2], span, mix, r.rz);
    lemma_single(before.sx.keys@, after.sx.keys@, t, scale[0], span, mix, r.sx);
    lemma_single(before.sy.keys@, after.sy.keys@, t, scale[1], span, mix, r.sy);
    lemma_single(before.sz.keys@, after.sz.keys@, t, scale[2], span, mix, r.sz);
}

/// A coordinate of a transform has a sample exactly where its own track has keys.
pub proof fn coordinates_go_by_their_tracks<
    S: Fn(Real, Real) -> Real,
    M: Fn(Key, Key, Real) -> Real,
>(tracks: ObjectTracks, t: Real, span: S, mix: M, r: SampledTransform)
    requires
        tracks.is_sampled(t, span, mix, r),
    ensures
        r.tx is Some == (tracks.tx.keys@.len() > 0),
        r.ty is Some == (tracks.ty.keys@.len() > 0),
        r.tz is Some == (tracks.tz.keys@.len() > 0),
        r.rx is Some == (tracks.rx.keys@.len() > 0),
        r.ry is Some == (tracks.ry.keys@.len() > 0),
        r.rz is Some == (tracks.rz.keys@.len() > 0),
        r.sx is Some == (tracks.sx.keys@.len() > 0),
        r.sy is Some == (tracks.sy.keys@.len() > 0),
        r.sz is Some == (tracks.sz.keys@.len() > 0),
{
}

/// The angles of a bone that are keyed where there was no key come back at their time, and a bone
/// without keys about an axis is not turned about it.
pub proof fn keyed_bones_come_back<S: Fn(Real, Real) -> Real, M: Fn(Key, Key, Real) -> Real>(
    before: BoneTracks,
    after: BoneTracks,
    t: Real,
    angles: Seq<Real>,
    span: S,
    mix: M,
    r: Seq<Real>,
)
    requires
        before.keyless(),
        !t.nan(),
        before.is_keyed(after, t, angles),
        after.is_sampled(t, span, mix, r),
    ensures
        r.len() == 3,
        r[0] == angles[0] && r[1] == angles[1] && r[2] == angles[2],
{
    lemma_keyed(before.rx.keys@, after.rx.keys@, straight(t, angles[0]));
    lemma_keyed(before.ry.keys@, after.ry.keys@, straight(t, angles[1]));
    lemma_keyed(before.rz.keys@, after.rz.keys@, straight(t, angles[2]));
    lemma_single(before.rx.keys@, after.rx.keys@, t, angles[0], span, mix, Some(r[0]));
    lemma_single(before.ry.keys@, after.ry.keys@, t, angles[1], span, mix, Some(r[1]));
    lemma_single(before.rz.keys@, after.rz.keys@, t, angles[2], span, mix, Some(r[2]));
}

proof fn lemma_keyed(before: Seq<Key>, after: Seq<Key>, key: Key)
    requires
        before.len() == 0,
        key_set(before, after, key),
    ensures
        after.len() == 1,
{
    reveal_with_fuel(reached, 2);
}

/// Bones are turned only about the axes that they have keys for.
pub proof fn unkeyed_bones_do_not_turn<S: Fn(Real, Real) -> Real, M: Fn(Key, Key, Real) -> Real>(
    tracks: BoneTracks,
    t: Real,
    span: S,
    mix: M,
    r: Seq<Real>,
)
    requires
        tracks.is_sampled(t, span, mix, r),
    ensures
        tracks.rx.keys@.len() == 0 ==> r[0].bits == 0,
        tracks.ry.keys@.len() == 0 ==> r[1].bits == 0,
        tracks.rz.keys@.len() == 0 ==> r[2].bits == 0,
{
}

/// Setting a key that is near to others takes the place of the first of these: it keeps the time
/// that was there, and has the new value and the new way of leading on. No key is added then, and
/// every other stays.
pub proof fn set_keys_take_the_place_of_near_ones(
    before: Seq<Key>,
    after: Seq<Key>,
    key: Key,
    n: int,
    i: int,
)
    requires
        key_set(before, after, key),
        0 <= n < before.len(),
        near(before[n].time, key.time),
        forall|j: int| 0 <= j < n ==> !near((#[trigger] before[j]).time, key.time),
        0 <= i < before.len(),
    ensures
        after.len() == before.len(),
        after[n].time == before[n].time,
        after[n].value == key.value,
        after[n].interp == key.interp,
        i != n ==> after[i] == before[i],
{
    let m = choose|m: int| #[trigger] key_set_at(before, after, key, m);
    if m < n {
        assert(near(before[m].time, key.time));
    }
    if n < m {
        assert(!near(before[n].time, key.time));
    }
}

/// Setting a key that is near to no other adds it as it is.
pub proof fn far_keys_are_added(before: Seq<Key>, after: Seq<Key>, key: Key)
    requires
        key_set(before, after, key),
        forall|j: int| 0 <= j < before.len() ==> !near((#[trigger] before[j]).time, key.time),
        in_order(before),
    ensures
        after.len() == before.len() + 1,
        after.contains(key),
        forall|j: int| 0 <= j < before.len() ==> after.contains(#[trigger] before[j]),
{
    let m = choose|m: int| #[trigger] key_set_at(before, after, key, m);
    if m < before.len() {
        assert(near(before[m].time, key.time));
    }
    let at = reached(before, key.time);
    lemma_reached(before, key.time);
    assert(after[at] == key);
    assert forall|j: int| 0 <= j < before.len() implies after.contains(#[trigger] before[j]) by {
        if j < at {
            assert(after[j] == before[j]);
        } else {
            assert(after[j + 1] == before[j]);
        }
    }
}

} // verus!
