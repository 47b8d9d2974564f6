//! Timelines: keyframe tracks, clips and the playhead.
use crate::nearness::{is_near, near, nearness_is_mutual};
use crate::number::{Real, ZERO_BITS};
use std::collections::HashMap;
use vstd::prelude::*;

verus! {

broadcast use vstd::std_specs::hash::group_hash_axioms;

/// The bit pattern of one hundred-millionth: a shorter segment is not interpolated.
pub const SHORT_BITS: u32 = 0x322b_cc77;

/// The bit pattern of four, the duration of a new clip.
pub const FOUR_BITS: u32 = 0x4080_0000;

/// The time axis of a timeline.
#[derive(Clone, Copy, Debug)]
pub enum TimeBase {
    Seconds,
    Frames { fps: (u32, u32) },
    Musical,
}

/// How a key leads to the next one: by its own value, or in a straight line.
#[derive(Clone, Copy, Debug, PartialEq, Eq, Structural)]
pub enum Interp {
    Constant,
    Linear,
}

/// A value at a time.
#[derive(Clone, Copy, Debug, PartialEq, Eq, Structural)]
pub struct Key {
    pub time: Real,
    pub value: Real,
    pub interp: Interp,
}

/// Keys in the order of their times.
#[derive(Debug)]
pub struct Track {
    pub keys: Vec<Key>,
}

/// Whether keys are in the order of their times, which are numbers.
pub open spec fn in_order(keys: Seq<Key>) -> bool {
    &&& forall|i: int| 0 <= i < keys.len() ==> !(#[trigger] keys[i]).time.nan()
    &&& forall|i: int, j: int|
        0 <= i < j < keys.len() ==> !(#[trigger] keys[j]).time.less((#[trigger] keys[i]).time)
}

/// Whether `time` is at or before `other`.
pub open spec fn not_after(time: Real, other: Real) -> bool {
    time.less(other) || time.same_number(other)
}

/// How many of the first `n` keys, taken from the front, are at or before `t`.
pub open spec fn reached(keys: Seq<Key>, t: Real) -> int
    decreases keys.len(),
{
    if keys.len() == 0 {
        0
    } else {
        let rest = reached(keys.drop_last(), t);
        if rest == keys.len() - 1 && not_after(keys.last().time, t) {
            rest + 1
        } else {
            rest
        }
    }
}

/// The key that the segment around `t` starts at.
pub open spec fn segment(keys: Seq<Key>, t: Real) -> int {
    if reached(keys, t) == 0 { 0 } else { reached(keys, t) - 1 }
}

/// Whether `value` is that of the segment between two keys at `t`. `span` gives how far apart
/// two times are, and `mix` the point between two keys on a straight line.
pub open spec fn between<S: Fn(Real, Real) -> Real, M: Fn(Key, Key, Real) -> Real>(
    a: Key,
    b: Key,
    t: Real,
    span: S,
    mix: M,
    value: Real,
) -> bool {
    exists|dt: Real| #[trigger]
        span.ensures((a.time, b.time), dt) && if dt.less(Real { bits: SHORT_BITS }) || a.interp
            == Interp::Constant {
            value == a.value
        } else {
            mix.ensures((a, b, t), value)
        }
}

/// Whether `r` is the value of a track at `t`: none without keys, the first value before the
/// first key, the last value after the last key, and else that of the segment around `t`.
pub open spec fn is_sample<S: Fn(Real, Real) -> Real, M: Fn(Key, Key, Real) -> Real>(
    keys: Seq<Key>,
    t: Real,
    span: S,
    mix: M,
    r: Option<Real>,
) -> bool {
    if keys.len() == 0 {
        r is None
    } else if not_after(t, keys[0].time) {
        r == Some(keys[0].value)
    } else if not_after(keys.last().time, t) {
        r == Some(keys.last().value)
    } else {
        r is Some && between(
            keys[segment(keys, t)],
            keys[segment(keys, t) + 1],
            t,
            span,
            mix,
            r->0,
        )
    }
}

/// Whether `after` is `before` with a key set, where `n` is the first key at the same time, or
/// the number of keys if there is none. Times less than half a thousandth apart are the same.
pub open spec fn key_set_at(before: Seq<Key>, after: Seq<Key>, key: Key, n: int) -> bool {
    &&& 0 <= n <= before.len()
    &&& forall|i: int| 0 <= i < n ==> !near((#[trigger] before[i]).time, key.time)
    &&& n < before.len() ==> near(before[n].time, key.time) && after == before.update(
        n,
        Key { time: before[n].time, ..key },
    )
    &&& n == before.len() ==> after == before.insert(reached(before, key.time), key)
}

/// Whether `after` is `before` with a key set: the first key that is at the same time takes the
/// value, and else a new key comes after all keys that are not later.
pub open spec fn key_set(before: Seq<Key>, after: Seq<Key>, key: Key) -> bool {
    exists|n: int| #[trigger] key_set_at(before, after, key, n)
}

pub(crate) proof fn lemma_reached(keys: Seq<Key>, t: Real)
    ensures
        0 <= reached(keys, t) <= keys.len(),
        forall|i: int| 0 <= i < reached(keys, t) ==> not_after((#[trigger] keys[i]).time, t),
        reached(keys, t) < keys.len() ==> !not_after(keys[reached(keys, t)].time, t),
    decreases keys.len(),
{
    if keys.len() > 0 {
        lemma_reached(keys.drop_last(), t);
        let rest = reached(keys.drop_last(), t);
        assert forall|i: int| 0 <= i < reached(keys, t) implies not_after(
            (#[trigger] keys[i]).time,
            t,
        ) by {
            if i < rest {
                assert(keys.drop_last()[i] == keys[i]);
            }
        }
        if rest < keys.len() - 1 {
            assert(keys.drop_last()[rest] == keys[rest]);
        }
    }
}

impl Track {
    /// Whether the keys are in order.
    pub open spec fn valid(&self) -> bool {
        in_order(self.keys@)
    }

    /// Whether a key at `time` can be set. What is no number can only be the one key of a track.
    pub open spec fn accepts(&self, time: Real) -> bool {
        self.valid() && (time.nan() ==> self.keys.len() == 0)
    }

    /// A track without keys.
    pub fn new() -> (r: Track)
        ensures
            r.keys@.len() == 0,
            r.valid(),
    {
        Track { keys: Vec::new() }
    }

    /// How many keys are at or before `t`, from the front.
    fn count_reached(&self, t: Real) -> (r: usize)
        ensures
            r == reached(self.keys@, t),
            r <= self.keys.len(),
    {
        let mut n: usize = 0;
        while n < self.keys.len() && self.keys[n].time.le(t)
            invariant
                n <= self.keys.len(),
                forall|i: int| 0 <= i < n ==> not_after((#[trigger] self.keys[i]).time, t),
            decreases self.keys.len() - n,
        {
            n = n + 1;
        }
        proof {
            lemma_reached(self.keys@, t);
            let m = reached(self.keys@, t);
            if m < n {
                assert(not_after(self.keys@[m].time, t));
            }
            if n < m {
                assert(not_after(self.keys@[n as int].time, t));
            }
        }
        n
    }

    /// The value of the track at `t`. `span` gives how far apart two times are, and `mix` the
    /// point between two keys on a straight line.
    pub fn sample<S: Fn(Real, Real) -> Real, M: Fn(Key, Key, Real) -> Real>(
        &self,
        t: Real,
        span: &S,
        mix: &M,
    ) -> (r: Option<Real>)
        requires
            self.valid(),
            t.nan() ==> self.keys.len() != 1,
            forall|a: Real, b: Real| span.requires((a, b)),
            forall|a: Key, b: Key, t: Real| mix.requires((a, b, t)),
        ensures
            is_sample(self.keys@, t, *span, *mix, r),
    {
        let n: usize = self.keys.len();
        if n == 0 {
            return None;
        }
        if t.le(self.keys[0].time) {
            return Some(self.keys[0].value);
        }
        if self.keys[n - 1].time.le(t) {
            return Some(self.keys[n - 1].value);
        }
        let count: usize = self.count_reached(t);
        let at: usize = if count == 0 {
            0
        } else {
            count - 1
        };
        proof {
            lemma_reached(self.keys@, t);
            if count == n {
                assert(not_after(self.keys@[n - 1].time, t));
            }
            if n == 1 {
                assert(!t.nan() && !self.keys@[0].time.nan());
            }
        }
        let a: Key = self.keys[at];
        let b: Key = self.keys[at + 1];
        let dt: Real = span(a.time, b.time);
        assert(span.ensures((a.time, b.time), dt));
        let constant: bool = a.interp == Interp::Constant;
        if dt.lt(Real { bits: SHORT_BITS }) || constant {
            assert(between(a, b, t, *span, *mix, a.value));
            return Some(a.value);
        }
        let value: Real = mix(a, b, t);
        assert(between(a, b, t, *span, *mix, value));
        Some(value)
    }

    /// Set a key: the first key that is at the same time, less than half a thousandth away, takes
    /// the value, and else a new key comes in by its time.
    pub fn set_key(&mut self, time: Real, value: Real, interp: Interp)
        requires
            old(self).accepts(time),
        ensures
            key_set(old(self).keys@, final(self).keys@, (Key { time, value, interp })),
            !time.nan() ==> final(self).valid(),
    {
        let ghost before = self.keys@;
        let ghost key = Key { time, value, interp };
        let mut n: usize = 0;
        while n < self.keys.len()
            invariant
                n <= self.keys.len(),
                self.keys@ == before,
                before == old(self).keys@,
                in_order(before),
                key == (Key { time, value, interp }),
                forall|i: int| 0 <= i < n ==> !near((#[trigger] before[i]).time, time),
            decreases self.keys.len() - n,
        {
            let own: Real = self.keys[n].time;
            if is_near(own, time) {
                self.keys.set(n, Key { time: own, value, interp });
                proof {
                    let after = before.update(n as int, Key { time: own, ..key });
                    assert(self.keys@ == after);
                    assert(key_set_at(before, after, key, n as int));
                    assert forall|i: int| 0 <= i < after.len() implies !(#[trigger] after[i]).time.nan() by {
                        assert(!before[i].time.nan());
                    }
                    assert forall|i: int, j: int| 0 <= i < j < after.len() implies !(
                    #[trigger] after[j]).time.less((#[trigger] after[i]).time) by {
                        assert(!before[j].time.less(before[i].time));
                    }
                }
                return;
            }
            n = n + 1;
        }
        let at: usize = self.count_reached(time);
        self.keys.insert(at, Key { time, value, interp });
        proof {
            let after = before.insert(at as int, key);
            assert(self.keys@ == after);
            assert(key_set_at(before, after, key, n as int));
            if !time.nan() {
                lemma_inserted(before, key);
            }
        }
    }

    /// Whether the track has no keys.
    pub fn is_empty(&self) -> (r: bool)
        ensures
            r == (self.keys@.len() == 0),
    {
        self.keys.len() == 0
    }
}

/// A key that comes in by its time leaves the keys in order.
proof fn lemma_inserted(keys: Seq<Key>, key: Key)
    requires
        in_order(keys),
        !key.time.nan(),
    ensures
        in_order(keys.insert(reached(keys, key.time), key)),
{
    let at = reached(keys, key.time);
    let after = keys.insert(at, key);
    lemma_reached(keys, key.time);
    assert forall|i: int| 0 <= i < after.len() implies !(#[trigger] after[i]).time.nan() by {
        if i < at {
            assert(after[i] == keys[i]);
        } else if i > at {
            assert(after[i] == keys[i - 1]);
        }
    }
    assert forall|i: int, j: int| 0 <= i < j < after.len() implies !(#[trigger] after[j]).time.less(
        (#[trigger] after[i]).time,
    ) by {
        let a = if i < at { keys[i] } else { keys[i - 1] };
        let b = if j < at { keys[j] } else { keys[j - 1] };
        if i != at && j != at {
            assert(after[i] == a && after[j] == b);
            let x = if i < at { i } else { i - 1 };
            let y = if j < at { j } else { j - 1 };
            assert(!keys[y].time.less(keys[x].time));
        } else if j == at {
            assert(after[i] == keys[i]);
            assert(not_after(keys[i].time, key.time));
        } else {
            assert(after[j] == keys[j - 1]);
            assert(!not_after(keys[at].time, key.time));
            if j - 1 > at {
                assert(!keys[j - 1].time.less(keys[at].time));
            }
        }
    }
}

/// Setting keys keeps a track in order, whatever order they come in.
pub proof fn setting_keys_keeps_order(before: Seq<Key>, after: Seq<Key>, key: Key)
    requires
        in_order(before),
        !key.time.nan(),
        key_set(before, after, key),
    ensures
        in_order(after),
{
    let n = choose|n: int| #[trigger] key_set_at(before, after, key, n);
    if n < before.len() {
        assert forall|i: int| 0 <= i < after.len() implies !(#[trigger] after[i]).time.nan() by {
            assert(!before[i].time.nan());
        }
        assert forall|i: int, j: int| 0 <= i < j < after.len() implies !(
        #[trigger] after[j]).time.less((#[trigger] after[i]).time) by {
            assert(!before[j].time.less(before[i].time));
        }
    } else {
        lemma_inserted(before, key);
    }
}

/// Whether no two keys are at the same time, and all are at finite times.
pub open spec fn apart(keys: Seq<Key>) -> bool {
    &&& forall|i: int| 0 <= i < keys.len() ==> (#[trigger] keys[i]).time.finite()
    &&& forall|i: int, j: int|
        0 <= i < keys.len() && 0 <= j < keys.len() && i != j ==> !near(
            (#[trigger] keys[i]).time,
            (#[trigger] keys[j]).time,
        )
}

/// Whether each key is later than the one before it.
pub open spec fn ascending(keys: Seq<Key>) -> bool {
    forall|i: int, j: int|
        0 <= i < j < keys.len() ==> (#[trigger] keys[i]).time.less((#[trigger] keys[j]).time)
}

proof fn lemma_apart_ascends(keys: Seq<Key>)
    requires
        in_order(keys),
        apart(keys),
    ensures
        ascending(keys),
{
    assert forall|i: int, j: int| 0 <= i < j < keys.len() implies (#[trigger] keys[i]).time.less(
        (#[trigger] keys[j]).time,
    ) by {
        assert(!keys[j].time.less(keys[i].time));
        assert(keys[i].time.finite() && keys[j].time.finite());
        assert(!near(keys[i].time, keys[j].time));
        nearness_is_mutual(keys[i].time, keys[j].time);
    }
}

/// The keys of a track stay apart: however many keys are set at finite times, no two come within
/// half a thousandth of each other, and each is later than the one before it. A track without keys
/// begins like that.
pub proof fn set_keys_stay_apart(before: Seq<Key>, after: Seq<Key>, key: Key)
    requires
        in_order(before),
        apart(before),
        key.time.finite(),
        key_set(before, after, key),
    ensures
        in_order(Seq::<Key>::empty()),
        apart(Seq::<Key>::empty()),
        in_order(after),
        apart(after),
        ascending(after),
{
    setting_keys_keeps_order(before, after, key);
    let n = choose|n: int| #[trigger] key_set_at(before, after, key, n);
    let at = reached(before, key.time);
    lemma_reached(before, key.time);
    assert forall|i: int| 0 <= i < after.len() implies (#[trigger] after[i]).time.finite() by {
        if n < before.len() {
            assert(after[i].time == before[i].time);
        } else if i != at {
            assert(after[i] == before[if i < at { i } else { i - 1 }]);
        }
    }
    assert forall|i: int, j: int|
        0 <= i < after.len() && 0 <= j < after.len() && i != j implies !near(
        (#[trigger] after[i]).time,
        (#[trigger] after[j]).time,
    ) by {
        nearness_is_mutual(after[i].time, after[j].time);
        if n < before.len() {
            assert(after[i].time == before[i].time && after[j].time == before[j].time);
            assert(!near(before[i].time, before[j].time));
        } else {
            let x = if i < at { i } else { i - 1 };
            let y = if j < at { j } else { j - 1 };
            if j == at {
                assert(after[i] == before[x]);
                assert(!near(before[x].time, key.time));
            } else if i == at {
                assert(after[j] == before[y]);
                assert(!near(before[y].time, key.time));
            } else {
                assert(after[i] == before[x] && after[j] == before[y]);
                assert(!near(before[x].time, before[y].time));
            }
        }
    }
    lemma_apart_ascends(after);
}

/// Setting a key changes one key or adds one: where some key is at the same time, its value and
/// what follows it change, and else the key is new. All other keys stay as they are.
pub proof fn setting_a_key_keeps_the_others(before: Seq<Key>, after: Seq<Key>, key: Key)
    requires
        key_set(before, after, key),
    ensures
        (exists|i: int| 0 <= i < before.len() && near((#[trigger] before[i]).time, key.time))
            ==> after.len() == before.len() && exists|n: int|
            0 <= n < before.len() && near(before[n].time, key.time) && after
                == #[trigger] before.update(n, Key { time: before[n].time, ..key }),
        !(exists|i: int| 0 <= i < before.len() && near((#[trigger] before[i]).time, key.time))
            ==> exists|n: int|
            0 <= n <= before.len() && after == #[trigger] before.insert(n, key),
{
    let n = choose|n: int| #[trigger] key_set_at(before, after, key, n);
    lemma_reached(before, key.time);
    if n < before.len() {
        assert(near(before[n].time, key.time));
        assert(after == before.update(n, Key { time: before[n].time, ..key }));
    } else {
        assert(after == before.insert(reached(before, key.time), key));
    }
}

/// A track holds its ends: before its first key it has the first value, and after its last key
/// the last.
pub proof fn tracks_hold_their_ends<S: Fn(Real, Real) -> Real, M: Fn(Key, Key, Real) -> Real>(
    keys: Seq<Key>,
    t: Real,
    span: S,
    mix: M,
    r: Option<Real>,
)
    requires
        keys.len() > 0,
        in_order(keys),
        is_sample(keys, t, span, mix, r),
    ensures
        not_after(t, keys[0].time) ==> r == Some(keys[0].value),
        keys.last().time.less(t) ==> r == Some(keys.last().value),
{
    assert(!keys[0].time.nan());
    if keys.len() > 1 {
        assert(!keys[keys.len() - 1].time.less(keys[0].time));
    }
}

/// The nine tracks of the transform of an object.
#[derive(Debug)]
pub struct ObjectTracks {
    pub tx: Track,
    pub ty: Track,
    pub tz: Track,
    pub rx: Track,
    pub ry: Track,
    pub rz: Track,
    pub sx: Track,
    pub sy: Track,
    pub sz: Track,
}

/// The values of the nine tracks at a time, none where a track has no keys.
#[derive(Clone, Copy, Debug)]
pub struct SampledTransform {
    pub tx: Option<Real>,
    pub ty: Option<Real>,
    pub tz: Option<Real>,
    pub rx: Option<Real>,
    pub ry: Option<Real>,
    pub rz: Option<Real>,
    pub sx: Option<Real>,
    pub sy: Option<Real>,
    pub sz: Option<Real>,
}

/// The three tracks of the pose of a bone.
#[derive(Debug)]
pub struct BoneTracks {
    pub rx: Track,
    pub ry: Track,
    pub rz: Track,
}

impl Track {
    /// Whether the track can be asked at `t`.
    pub open spec fn answers(&self, t: Real) -> bool {
        self.valid() && (t.nan() ==> self.keys.len() != 1)
    }
}

impl ObjectTracks {
    /// Whether all tracks can be asked at `t`.
    pub open spec fn answers(&self, t: Real) -> bool {
        self.tx.answers(t) && self.ty.answers(t) && self.tz.answers(t) && self.rx.answers(t)
            && self.ry.answers(t) && self.rz.answers(t) && self.sx.answers(t) && self.sy.answers(t)
            && self.sz.answers(t)
    }

    /// Whether a key at `t` can be set on all tracks.
    pub open spec fn accepts(&self, t: Real) -> bool {
        self.tx.accepts(t) && self.ty.accepts(t) && self.tz.accepts(t) && self.rx.accepts(t)
            && self.ry.accepts(t) && self.rz.accepts(t) && self.sx.accepts(t) && self.sy.accepts(t)
            && self.sz.accepts(t)
    }

    /// Whether `r` holds the values of all tracks at `t`.
    pub open spec fn is_sampled<S: Fn(Real, Real) -> Real, M: Fn(Key, Key, Real) -> Real>(
        &self,
        t: Real,
        span: S,
        mix: M,
        r: SampledTransform,
    ) -> bool {
        &&& is_sample(self.tx.keys@, t, span, mix, r.tx)
        &&& is_sample(self.ty.keys@, t, span, mix, r.ty)
        &&& is_sample(self.tz.keys@, t, span, mix, r.tz)
        &&& is_sample(self.rx.keys@, t, span, mix, r.rx)
        &&& is_sample(self.ry.keys@, t, span, mix, r.ry)
        &&& is_sample(self.rz.keys@, t, span, mix, r.rz)
        &&& is_sample(self.sx.keys@, t, span, mix, r.sx)
        &&& is_sample(self.sy.keys@, t, span, mix, r.sy)
        &&& is_sample(self.sz.keys@, t, span, mix, r.sz)
    }

    /// Whether `after` is these tracks with a straight key set at `t` on each of them.
    pub open spec fn is_keyed(
        &self,
        after: ObjectTracks,
        t: Real,
        pos: Seq<Real>,
        rot: Seq<Real>,
        scale: Seq<Real>,
    ) -> bool {
        &&& key_set(self.tx.keys@, after.tx.keys@, straight(t, pos[0]))
        &&& key_set(self.ty.keys@, after.ty.keys@, straight(t, pos[1]))
        &&& key_set(self.tz.keys@, after.tz.keys@, straight(t, pos[2]))
        &&& key_set(self.rx.keys@, after.rx.keys@, straight(t, rot[0]))
        &&& key_set(self.ry.keys@, after.ry.keys@, straight(t, rot[1]))
        &&& key_set(self.rz.keys@, after.rz.keys@, straight(t, rot[2]))
        &&& key_set(self.sx.keys@, after.sx.keys@, straight(t, scale[0]))
        &&& key_set(self.sy.keys@, after.sy.keys@, straight(t, scale[1]))
        &&& key_set(self.sz.keys@, after.sz.keys@, straight(t, scale[2]))
    }

    /// Whether no track has keys.
    pub open spec fn keyless(&self) -> bool {
        self.tx.keys@.len() == 0 && self.ty.keys@.len() == 0 && self.tz.keys@.len() == 0
            && self.rx.keys@.len() == 0 && self.ry.keys@.len() == 0 && self.rz.keys@.len() == 0
            && self.sx.keys@.len() == 0 && self.sy.keys@.len() == 0 && self.sz.keys@.len() == 0
    }

    /// Tracks without keys.
    pub fn new() -> (r: ObjectTracks)
        ensures
            r.keyless(),
            forall|t: Real| #[trigger] r.accepts(t),
    {
        ObjectTracks {
            tx: Track::new(),
            ty: Track::new(),
            tz: Track::new(),
            rx: Track::new(),
            ry: Track::new(),
            rz: Track::new(),
            sx: Track::new(),
            sy: Track::new(),
            sz: Track::new(),
        }
    }

    /// The values of all tracks at `t`.
    pub fn sample<S: Fn(Real, Real) -> Real, M: Fn(Key, Key, Real) -> Real>(
        &self,
        t: Real,
        span: &S,
        mix: &M,
    ) -> (r: SampledTransform)
        requires
            self.answers(t),
            forall|a: Real, b: Real| span.requires((a, b)),
            forall|a: Key, b: Key, t: Real| mix.requires((a, b, t)),
        ensures
            self.is_sampled(t, *span, *mix, r),
    {
        SampledTransform {
            tx: self.tx.sample(t, span, mix),
            ty: self.ty.sample(t, span, mix),
            tz: self.tz.sample(t, span, mix),
            rx: self.rx.sample(t, span, mix),
            ry: self.ry.sample(t, span, mix),
            rz: self.rz.sample(t, span, mix),
            sx: self.sx.sample(t, span, mix),
            sy: self.sy.sample(t, span, mix),
            sz: self.sz.sample(t, span, mix),
        }
    }
}

/// A key that leads to the next one in a straight line.
pub open spec fn straight(time: Real, value: Real) -> Key {
    Key { time, value, interp: Interp::Linear }
}

/// Whether `r` is the value of a track at `t`, zero if it has no keys.
pub open spec fn is_angle<S: Fn(Real, Real) -> Real, M: Fn(Key, Key, Real) -> Real>(
    keys: Seq<Key>,
    t: Real,
    span: S,
    mix: M,
    r: Real,
) -> bool {
    if keys.len() == 0 {
        r == (Real { bits: ZERO_BITS })
    } else {
        is_sample(keys, t, span, mix, Some(r))
    }
}

impl BoneTracks {
    /// Whether all tracks can be asked at `t`.
    pub open spec fn answers(&self, t: Real) -> bool {
        self.rx.answers(t) && self.ry.answers(t) && self.rz.answers(t)
    }

    /// Whether a key at `t` can be set on all tracks.
    pub open spec fn accepts(&self, t: Real) -> bool {
        self.rx.accepts(t) && self.ry.accepts(t) && self.rz.accepts(t)
    }

    /// Whether no track has keys.
    pub open spec fn keyless(&self) -> bool {
        self.rx.keys@.len() == 0 && self.ry.keys@.len() == 0 && self.rz.keys@.len() == 0
    }

    /// Whether `r` holds the angles of the bone at `t`.
    pub open spec fn is_sampled<S: Fn(Real, Real) -> Real, M: Fn(Key, Key, Real) -> Real>(
        &self,
        t: Real,
        span: S,
        mix: M,
        r: Seq<Real>,
    ) -> bool {
        &&& r.len() == 3
        &&& is_angle(self.rx.keys@, t, span, mix, r[0])
        &&& is_angle(self.ry.keys@, t, span, mix, r[1])
        &&& is_angle(self.rz.keys@, t, span, mix, r[2])
    }

    /// Whether `after` is these tracks with a straight key set at `t` on each of them.
    pub open spec fn is_keyed(
        &self,
        after: BoneTracks,
        t: Real,
        angles: Seq<Real>,
    ) -> bool {
        &&& key_set(self.rx.keys@, after.rx.keys@, straight(t, angles[0]))
        &&& key_set(self.ry.keys@, after.ry.keys@, straight(t, angles[1]))
        &&& key_set(self.rz.keys@, after.rz.keys@, straight(t, angles[2]))
    }

    /// Tracks without keys.
    pub fn new() -> (r: BoneTracks)
        ensures
            r.keyless(),
            forall|t: Real| #[trigger] r.accepts(t),
    {
        BoneTracks { rx: Track::new(), ry: Track::new(), rz: Track::new() }
    }

    /// The angles of the bone at `t`, zero where a track has no keys.
    pub fn sample<S: Fn(Real, Real) -> Real, M: Fn(Key, Key, Real) -> Real>(
        &self,
        t: Real,
        span: &S,
        mix: &M,
    ) -> (r: [Real; 3])
        requires
            self.answers(t),
            forall|a: Real, b: Real| span.requires((a, b)),
            forall|a: Key, b: Key, t: Real| mix.requires((a, b, t)),
        ensures
            self.is_sampled(t, *span, *mix, r@),
    {
        let zero: Real = Real { bits: ZERO_BITS };
        let x: Real = match self.rx.sample(t, span, mix) {
            Some(v) => v,
            None => zero,
        };
        let y: Real = match self.ry.sample(t, span, mix) {
            Some(v) => v,
            None => zero,
        };
        let z: Real = match self.rz.sample(t, span, mix) {
            Some(v) => v,
            None => zero,
        };
        [x, y, z]
    }

    /// Whether no track has keys.
    pub fn is_empty(&self) -> (r: bool)
        ensures
            r == self.keyless(),
    {
        self.rx.is_empty() && self.ry.is_empty() && self.rz.is_empty()
    }
}

/// A clip: a duration, and tracks by the number of the object and of the bone.
#[derive(Debug)]
pub struct AnimationClip {
    pub name: String,
    pub duration: Real,
    pub loop_clip: bool,
    pub tracks: HashMap<u64, ObjectTracks>,
    pub bone_tracks: HashMap<u64, HashMap<u32, BoneTracks>>,
}

impl AnimationClip {
    /// A looping clip without tracks.
    pub fn new(name: String, duration: Real) -> (r: AnimationClip)
        ensures
            r.name == name,
            r.duration == duration,
            r.loop_clip,
            r.tracks@ == Map::<u64, ObjectTracks>::empty(),
            r.bone_tracks@ == Map::<u64, HashMap<u32, BoneTracks>>::empty(),
    {
        AnimationClip {
            name,
            duration,
            loop_clip: true,
            tracks: HashMap::new(),
            bone_tracks: HashMap::new(),
        }
    }
}

/// Where playing has come to.
#[derive(Clone, Copy, Debug, PartialEq, Eq, Structural)]
pub struct Playhead {
    pub time: Real,
    pub playing: bool,
    pub clip_duration: Real,
    pub loop_play: bool,
}

impl Default for Playhead {
    /// At the start of a clip of four seconds, not playing, looping.
    fn default() -> (r: Playhead)
        ensures
            r == (Playhead {
                time: Real { bits: ZERO_BITS },
                playing: false,
                clip_duration: Real { bits: FOUR_BITS },
                loop_play: true,
            }),
    {
        Playhead {
            time: Real { bits: ZERO_BITS },
            playing: false,
            clip_duration: Real { bits: FOUR_BITS },
            loop_play: true,
        }
    }
}

/// The smaller of two numbers, or the other one where one is no number.
pub open spec fn lesser(a: Real, b: Real) -> Real {
    if a.nan() || b.less(a) {
        b
    } else {
        a
    }
}

/// Whether `after` is `before` when `time` has come: looping playheads wrap around a clip that
/// has a duration, and others stop at its end.
pub open spec fn advanced<W: Fn(Real, Real) -> Real>(
    before: Playhead,
    after: Playhead,
    time: Real,
    wrap: W,
) -> bool {
    let end = before.clip_duration;
    if before.loop_play {
        if (Real { bits: ZERO_BITS }).less(end) {
            wrap.ensures((time, end), after.time) && after == (Playhead {
                time: after.time,
                ..before
            })
        } else {
            after == (Playhead { time, ..before })
        }
    } else {
        after == (Playhead {
            time: lesser(time, end),
            playing: !not_after(end, lesser(time, end)),
            ..before
        })
    }
}

impl Playhead {
    /// Advance by `dt`. `sum` adds to a time, and `wrap` takes a time around a duration. A
    /// playhead that is not playing stays where it is.
    pub fn advance<S: Fn(Real, Real) -> Real, W: Fn(Real, Real) -> Real>(
        &mut self,
        dt: Real,
        sum: S,
        wrap: W,
    )
        requires
            forall|a: Real, b: Real| sum.requires((a, b)),
            forall|a: Real, b: Real| wrap.requires((a, b)),
        ensures
            !old(self).playing ==> *final(self) == *old(self),
            old(self).playing ==> exists|time: Real| #[trigger]
                sum.ensures((old(self).time, dt), time) && advanced(
                    *old(self),
                    *final(self),
                    time,
                    wrap,
                ),
    {
        if !self.playing {
            return;
        }
        let ghost before = *self;
        let time: Real = sum(self.time, dt);
        assert(sum.ensures((before.time, dt), time));
        let end: Real = self.clip_duration;
        if self.loop_play {
            let zero: Real = Real { bits: ZERO_BITS };
            if zero.lt(end) {
                self.time = wrap(time, end);
            } else {
                self.time = time;
            }
        } else {
            let held: Real = if time.is_nan() || end.lt(time) {
                end
            } else {
                time
            };
            self.time = held;
            if end.le(held) {
                self.playing = false;
            }
        }
        assert(advanced(before, *self, time, wrap));
    }
}

/// A clip on a time axis, and where playing has come to.
#[derive(Debug)]
pub struct Timeline {
    pub time_base: TimeBase,
    pub clip: AnimationClip,
    pub playhead: Playhead,
}

impl Default for Timeline {
    /// An empty clip of four seconds.
    fn default() -> (r: Timeline)
        ensures
            r.time_base is Seconds,
            r.clip.name@ == "untitled"@,
            r.clip.duration == (Real { bits: FOUR_BITS }),
            r.clip.loop_clip,
            r.clip.tracks@ == Map::<u64, ObjectTracks>::empty(),
            r.clip.bone_tracks@ == Map::<u64, HashMap<u32, BoneTracks>>::empty(),
            r.playhead == (Playhead {
                time: Real { bits: ZERO_BITS },
                playing: false,
                clip_duration: Real { bits: FOUR_BITS },
                loop_play: true,
            }),
    {
        Timeline {
            time_base: TimeBase::Seconds,
            clip: AnimationClip::new("untitled".to_owned(), Real { bits: FOUR_BITS }),
            playhead: Playhead::default(),
        }
    }
}

impl Timeline {
    /// Start playing.
    pub fn play(&mut self)
        ensures
            final(self).playhead == (Playhead { playing: true, ..old(self).playhead }),
            final(self).clip == old(self).clip,
            final(self).time_base == old(self).time_base,
    {
        self.playhead.playing = true;
    }

    /// Stop playing where it is.
    pub fn pause(&mut self)
        ensures
            final(self).playhead == (Playhead { playing: false, ..old(self).playhead }),
            final(self).clip == old(self).clip,
            final(self).time_base == old(self).time_base,
    {
        self.playhead.playing = false;
    }

    /// Stop playing and go back to the start.
    pub fn stop(&mut self)
        ensures
            final(self).playhead == (Playhead {
                playing: false,
                time: Real { bits: ZERO_BITS },
                ..old(self).playhead
            }),
            final(self).clip == old(self).clip,
            final(self).time_base == old(self).time_base,
    {
        self.playhead.playing = false;
        self.playhead.time = Real { bits: ZERO_BITS };
    }

    /// Set a straight key at the playhead on all nine tracks of an object.
    pub fn set_keyframe_trs(
        &mut self,
        obj_serial: u64,
        pos: [Real; 3],
        rot: [Real; 3],
        scale: [Real; 3],
    )
        requires
            old(self).clip.tracks@.contains_key(obj_serial) ==> old(
                self,
            ).clip.tracks@[obj_serial].accepts(old(self).playhead.time),
        ensures
            final(self).clip.tracks@.contains_key(obj_serial),
            exists|before: ObjectTracks| #[trigger]
                before.is_keyed(
                    final(self).clip.tracks@[obj_serial],
                    old(self).playhead.time,
                    pos@,
                    rot@,
                    scale@,
                ) && (if old(self).clip.tracks@.contains_key(obj_serial) {
                    before == old(self).clip.tracks@[obj_serial]
                } else {
                    before.keyless()
                }),
            final(self).clip.tracks@.remove(obj_serial) == old(self).clip.tracks@.remove(
                obj_serial,
            ),
            final(self).clip.bone_tracks == old(self).clip.bone_tracks,
            final(self).clip.name == old(self).clip.name,
            final(self).clip.duration == old(self).clip.duration,
            final(self).clip.loop_clip == old(self).clip.loop_clip,
            final(self).playhead == old(self).playhead,
            final(self).time_base == old(self).time_base,
    {
        let t: Real = self.playhead.time;
        let ghost start = self.clip.tracks@;
        let mut tracks: ObjectTracks = match self.clip.tracks.remove(&obj_serial) {
            Some(tracks) => tracks,
            None => ObjectTracks::new(),
        };
        let ghost before = tracks;
        assert(before.accepts(t));
        tracks.tx.set_key(t, pos[0], Interp::Linear);
        tracks.ty.set_key(t, pos[1], Interp::Linear);
        tracks.tz.set_key(t, pos[2], Interp::Linear);
        tracks.rx.set_key(t, rot[0], Interp::Linear);
        tracks.ry.set_key(t, rot[1], Interp::Linear);
        tracks.rz.set_key(t, rot[2], Interp::Linear);
        tracks.sx.set_key(t, scale[0], Interp::Linear);
        tracks.sy.set_key(t, scale[1], Interp::Linear);
        tracks.sz.set_key(t, scale[2], Interp::Linear);
        assert(before.is_keyed(tracks, t, pos@, rot@, scale@));
        let ghost after = tracks;
        self.clip.tracks.insert(obj_serial, tracks);
        proof {
            assert(self.clip.tracks@[obj_serial] == after);
            assert(self.clip.tracks@.remove(obj_serial) =~= start.remove(obj_serial));
        }
    }

    /// Set a straight key at the playhead on the three tracks of a bone.
    pub fn set_bone_keyframe(
        &mut self,
        obj_serial: u64,
        bone: u32,
        euler_deg: [Real; 3],
    )
        requires
            old(self).clip.bone_tracks@.contains_key(obj_serial) && old(
                self,
            ).clip.bone_tracks@[obj_serial]@.contains_key(bone) ==> old(
                self,
            ).clip.bone_tracks@[obj_serial]@[bone].accepts(old(self).playhead.time),
        ensures
            final(self).clip.bone_tracks@.contains_key(obj_serial),
            final(self).clip.bone_tracks@[obj_serial]@.contains_key(bone),
            exists|before: BoneTracks| #[trigger]
                before.is_keyed(
                    final(self).clip.bone_tracks@[obj_serial]@[bone],
                    old(self).playhead.time,
                    euler_deg@,
                ) && (if old(self).clip.bone_tracks@.contains_key(obj_serial) && old(
                    self,
                ).clip.bone_tracks@[obj_serial]@.contains_key(bone) {
                    before == old(self).clip.bone_tracks@[obj_serial]@[bone]
                } else {
                    before.keyless()
                }),
            final(self).clip.bone_tracks@[obj_serial]@.remove(bone) == (if old(
                self,
            ).clip.bone_tracks@.contains_key(obj_serial) {
                old(self).clip.bone_tracks@[obj_serial]@.remove(bone)
            } else {
                Map::empty()
            }),
            final(self).clip.bone_tracks@.remove(obj_serial) == old(
                self,
            ).clip.bone_tracks@.remove(obj_serial),
            final(self).clip.tracks == old(self).clip.tracks,
            final(self).clip.name == old(self).clip.name,
            final(self).clip.duration == old(self).clip.duration,
            final(self).clip.loop_clip == old(self).clip.loop_clip,
            final(self).playhead == old(self).playhead,
            final(self).time_base == old(self).time_base,
    {
        let t: Real = self.playhead.time;
        let ghost start = self.clip.bone_tracks@;
        let mut bones: HashMap<u32, BoneTracks> = match self.clip.bone_tracks.remove(&obj_serial) {
            Some(bones) => bones,
            None => HashMap::new(),
        };
        let ghost first = bones@;
        let mut tracks: BoneTracks = match bones.remove(&bone) {
            Some(tracks) => tracks,
            None => BoneTracks::new(),
        };
        let ghost before = tracks;
        assert(before.accepts(t));
        tracks.rx.set_key(t, euler_deg[0], Interp::Linear);
        tracks.ry.set_key(t, euler_deg[1], Interp::Linear);
        tracks.rz.set_key(t, euler_deg[2], Interp::Linear);
        assert(before.is_keyed(tracks, t, euler_deg@));
        let ghost after = tracks;
        bones.insert(bone, tracks);
        let ghost second = bones@;
        self.clip.bone_tracks.insert(obj_serial, bones);
        proof {
            assert(self.clip.bone_tracks@[obj_serial]@ == second);
            assert(second[bone] == after);
            assert(second.remove(bone) =~= first.remove(bone));
            assert(Map::<u32, BoneTracks>::empty().remove(bone) =~= Map::empty());
            assert(self.clip.bone_tracks@.remove(obj_serial) =~= start.remove(obj_serial));
        }
    }
}

impl Timeline {
    /// The values of all object tracks at the playhead, by the number of the object.
    pub fn sample_all<S: Fn(Real, Real) -> Real, M: Fn(Key, Key, Real) -> Real>(
        &self,
        span: &S,
        mix: &M,
    ) -> (r: HashMap<u64, SampledTransform>)
        requires
            forall|k: u64| #[trigger]
                self.clip.tracks@.contains_key(k) ==> self.clip.tracks@[k].answers(
                    self.playhead.time,
                ),
            forall|a: Real, b: Real| span.requires((a, b)),
            forall|a: Key, b: Key, t: Real| mix.requires((a, b, t)),
        ensures
            r@.dom() == self.clip.tracks@.dom(),
            forall|k: u64| #[trigger]
                r@.contains_key(k) ==> self.clip.tracks@[k].is_sampled(
                    self.playhead.time,
                    *span,
                    *mix,
                    r@[k],
                ),
    {
        let t: Real = self.playhead.time;
        let ghost all = self.clip.tracks@;
        let mut out: HashMap<u64, SampledTransform> = HashMap::new();
        for serial in it: self.clip.tracks.keys()
            invariant
                all == self.clip.tracks@,
                t == self.playhead.time,
                it.seq().unref().to_set() == all.dom(),
                forall|k: u64| #[trigger] all.contains_key(k) ==> all[k].answers(t),
                forall|a: Real, b: Real| span.requires((a, b)),
                forall|a: Key, b: Key, t: Real| mix.requires((a, b, t)),
                forall|i: int| 0 <= i < it.index() ==> out@.contains_key(*#[trigger] it.seq()[i]),
                forall|k: u64| #[trigger]
                    out@.contains_key(k) ==> all.contains_key(k) && all[k].is_sampled(
                        t,
                        *span,
                        *mix,
                        out@[k],
                    ),
        {
            proof {
                assert(it.seq().unref()[it.index() as int] == *serial);
                assert(it.seq().unref().to_set().contains(*serial));
                assert(all.contains_key(*serial));
            }
            match self.clip.tracks.get(serial) {
                Some(tracks) => {
                    let made: SampledTransform = tracks.sample(t, span, mix);
                    out.insert(*serial, made);
                },
                None => {},
            }
        }
        out
    }
}

/// Whether a clip has keys for a bone of an object.
pub open spec fn bone_keyed(
    bones: Map<u64, HashMap<u32, BoneTracks>>,
    serial: u64,
    bone: u32,
) -> bool {
    bones.contains_key(serial) && bones[serial]@.contains_key(bone)
        && !bones[serial]@[bone].keyless()
}

/// Whether a list names a bone.
pub open spec fn bone_listed(list: Seq<(u64, u32, [Real; 3])>, serial: u64, bone: u32) -> bool {
    exists|i: int| 0 <= i < list.len() && (#[trigger] list[i]).0 == serial && list[i].1 == bone
}

impl Timeline {
    /// The angles of all bones that have keys, at the playhead: the number of the object, the
    /// bone, and its angles. Each bone comes once, in no particular order.
    pub fn sample_bones<S: Fn(Real, Real) -> Real, M: Fn(Key, Key, Real) -> Real>(
        &self,
        span: &S,
        mix: &M,
    ) -> (r: Vec<(u64, u32, [Real; 3])>)
        requires
            forall|k: u64, b: u32|
                self.clip.bone_tracks@.contains_key(k) && (
                #[trigger] self.clip.bone_tracks@[k])@.contains_key(b)
                    ==> (#[trigger] self.clip.bone_tracks@[k]@[b]).answers(self.playhead.time),
            forall|a: Real, b: Real| span.requires((a, b)),
            forall|a: Key, b: Key, t: Real| mix.requires((a, b, t)),
        ensures
            forall|i: int|
                0 <= i < r.len() ==> bone_keyed(
                    self.clip.bone_tracks@,
                    (#[trigger] r[i]).0,
                    r[i].1,
                ) && self.clip.bone_tracks@[r[i].0]@[r[i].1].is_sampled(
                    self.playhead.time,
                    *span,
                    *mix,
                    r[i].2@,
                ),
            forall|k: u64, b: u32| #[trigger]
                bone_keyed(self.clip.bone_tracks@, k, b) ==> bone_listed(r@, k, b),
            forall|i: int, j: int|
                0 <= i < j < r.len() ==> (#[trigger] r[i]).0 != (#[trigger] r[j]).0 || r[i].1
                    != r[j].1,
    {
        let t: Real = self.playhead.time;
        let ghost all = self.clip.bone_tracks@;
        let mut out: Vec<(u64, u32, [Real; 3])> = Vec::new();
        let ghost mut done: Set<u64> = Set::empty();
        for serial in it: self.clip.bone_tracks.keys()
            invariant
                all == self.clip.bone_tracks@,
                t == self.playhead.time,
                it.seq().unref().to_set() == all.dom(),
                it.seq().no_duplicates(),
                forall|k: u64, b: u32|
                    all.contains_key(k) && (#[trigger] all[k])@.contains_key(b)
                        ==> (#[trigger] all[k]@[b]).answers(t),
                forall|a: Real, b: Real| span.requires((a, b)),
                forall|a: Key, b: Key, t: Real| mix.requires((a, b, t)),
                forall|k: u64| #[trigger]
                    done.contains(k) <==> exists|n: int|
                        0 <= n < it.index() && *#[trigger] it.seq()[n] == k,
                sampled_upto(all, t, *span, *mix, out@),
                forall|i: int| 0 <= i < out.len() ==> done.contains((#[trigger] out[i]).0),
                forall|k: u64, b: u32|
                    done.contains(k) && #[trigger] bone_keyed(all, k, b) ==> bone_listed(
                        out@,
                        k,
                        b,
                    ),
        {
            proof {
                let n = it.index() as int;
                assert(it.seq().unref()[n] == *serial);
                assert(it.seq().unref().to_set().contains(*serial));
                assert(all.contains_key(*serial));
                if done.contains(*serial) {
                    let m = choose|m: int| 0 <= m < n && *#[trigger] it.seq()[m] == *serial;
                    assert(it.seq()[m] == it.seq()[n]);
                }
            }
            let ghost first = out@;
            match self.clip.bone_tracks.get(serial) {
                Some(bones) => {
                    append_bones(*serial, bones, t, span, mix, &mut out);
                },
                None => {},
            }
            proof {
                let ghost before = done;
                done = done.insert(*serial);
                assert forall|i: int| 0 <= i < out.len() implies done.contains(
                    (#[trigger] out[i]).0,
                ) by {
                    if i < first.len() {
                        assert(out[i] == first[i]);
                    }
                }
                assert forall|i: int, j: int| 0 <= i < j < out.len() implies (#[trigger] out[i]).0
                    != (#[trigger] out[j]).0 || out[i].1 != out[j].1 by {
                    if i < first.len() {
                        assert(out[i] == first[i]);
                        if j < first.len() {
                            assert(out[j] == first[j]);
                        } else {
                            assert(out[j].0 == *serial);
                            assert(before.contains(first[i].0));
                        }
                    }
                }
                assert forall|i: int| 0 <= i < out.len() implies bone_keyed(
                    all,
                    (#[trigger] out[i]).0,
                    out[i].1,
                ) && all[out[i].0]@[out[i].1].is_sampled(t, *span, *mix, out[i].2@) by {
                    if i < first.len() {
                        assert(out[i] == first[i]);
                    }
                }
                assert forall|k: u64, b: u32|
                    done.contains(k) && #[trigger] bone_keyed(all, k, b) implies bone_listed(
                    out@,
                    k,
                    b,
                ) by {
                    if k != *serial {
                        assert(bone_listed(first, k, b));
                        let i = choose|i: int|
                            0 <= i < first.len() && (#[trigger] first[i]).0 == k && first[i].1 == b;
                        assert(out[i] == first[i]);
                    }
                }
            }
        }
        assert forall|k: u64, b: u32| #[trigger] bone_keyed(all, k, b) implies bone_listed(
            out@,
            k,
            b,
        ) by {
            assert(all.dom().contains(k));
        }
        out
    }
}

/// Whether a list holds angles of bones that have keys, each bone once.
spec fn sampled_upto<S: Fn(Real, Real) -> Real, M: Fn(Key, Key, Real) -> Real>(
    all: Map<u64, HashMap<u32, BoneTracks>>,
    t: Real,
    span: S,
    mix: M,
    out: Seq<(u64, u32, [Real; 3])>,
) -> bool {
    &&& forall|i: int|
        0 <= i < out.len() ==> bone_keyed(all, (#[trigger] out[i]).0, out[i].1)
            && all[out[i].0]@[out[i].1].is_sampled(t, span, mix, out[i].2@)
    &&& forall|i: int, j: int|
        0 <= i < j < out.len() ==> (#[trigger] out[i]).0 != (#[trigger] out[j]).0 || out[i].1
            != out[j].1
}

/// Append the angles of the bones of one object that have keys.
fn append_bones<S: Fn(Real, Real) -> Real, M: Fn(Key, Key, Real) -> Real>(
    serial: u64,
    bones: &HashMap<u32, BoneTracks>,
    t: Real,
    span: &S,
    mix: &M,
    out: &mut Vec<(u64, u32, [Real; 3])>,
)
    requires
        forall|b: u32| bones@.contains_key(b) ==> (#[trigger] bones@[b]).answers(t),
        forall|a: Real, b: Real| span.requires((a, b)),
        forall|a: Key, b: Key, t: Real| mix.requires((a, b, t)),
    ensures
        final(out).len() >= old(out).len(),
        forall|i: int| 0 <= i < old(out).len() ==> #[trigger] final(out)[i] == old(out)[i],
        forall|i: int|
            old(out).len() <= i < final(out).len() ==> (#[trigger] final(out)[i]).0 == serial
                && bones@.contains_key(final(out)[i].1) && !bones@[final(out)[i].1].keyless()
                && bones@[final(out)[i].1].is_sampled(t, *span, *mix, final(out)[i].2@),
        forall|i: int, j: int|
            old(out).len() <= i < j < final(out).len() ==> (#[trigger] final(out)[i]).1 != (
            #[trigger] final(out)[j]).1,
        forall|b: u32| #[trigger]
            bones@.contains_key(b) && !bones@[b].keyless() ==> bone_listed(final(out)@, serial, b),
{
    let ghost start = out@;
    let ghost all = bones@;
    let ghost mut done: Set<u32> = Set::empty();
    for bone in it: bones.keys()
        invariant
            all == bones@,
            it.seq().unref().to_set() == all.dom(),
            it.seq().no_duplicates(),
            forall|b: u32| all.contains_key(b) ==> (#[trigger] all[b]).answers(t),
            forall|a: Real, b: Real| span.requires((a, b)),
            forall|a: Key, b: Key, t: Real| mix.requires((a, b, t)),
            forall|k: u32| #[trigger]
                done.contains(k) <==> exists|n: int|
                    0 <= n < it.index() && *#[trigger] it.seq()[n] == k,
            out.len() >= start.len(),
            forall|i: int| 0 <= i < start.len() ==> #[trigger] out[i] == start[i],
            forall|i: int|
                start.len() <= i < out.len() ==> (#[trigger] out[i]).0 == serial && done.contains(
                    out[i].1,
                ) && all.contains_key(out[i].1) && !all[out[i].1].keyless()
                    && all[out[i].1].is_sampled(t, *span, *mix, out[i].2@),
            forall|i: int, j: int|
                start.len() <= i < j < out.len() ==> (#[trigger] out[i]).1 != (#[trigger] out[j]).1,
            forall|b: u32| #[trigger]
                done.contains(b) && !all[b].keyless() ==> bone_listed(out@, serial, b),
    {
        proof {
            let n = it.index() as int;
            assert(it.seq().unref()[n] == *bone);
            assert(it.seq().unref().to_set().contains(*bone));
            assert(all.contains_key(*bone));
            if done.contains(*bone) {
                let m = choose|m: int| 0 <= m < n && *#[trigger] it.seq()[m] == *bone;
                assert(it.seq()[m] == it.seq()[n]);
            }
        }
        let ghost first = out@;
        match bones.get(bone) {
            Some(tracks) => {
                if !tracks.is_empty() {
                    let made: [Real; 3] = tracks.sample(t, span, mix);
                    out.push((serial, *bone, made));
                    assert(out[first.len() as int].1 == *bone);
                }
            },
            None => {},
        }
        proof {
            done = done.insert(*bone);
            assert forall|b: u32| #[trigger]
                done.contains(b) && !all[b].keyless() implies bone_listed(out@, serial, b) by {
                if b != *bone {
                    assert(bone_listed(first, serial, b));
                    let i = choose|i: int|
                        0 <= i < first.len() && (#[trigger] first[i]).0 == serial && first[i].1 == b;
                    assert(out[i] == first[i]);
                }
            }
        }
    }
    assert forall|b: u32| #[trigger]
        bones@.contains_key(b) && !bones@[b].keyless() implies bone_listed(out@, serial, b) by {
        assert(all.dom().contains(b));
        assert(done.contains(b));
    }
}

impl Default for Track {
    /// A track without keys.
    fn default() -> (r: Track)
        ensures
            r.keys@.len() == 0,
            r.valid(),
    {
        Track::new()
    }
}

impl Default for ObjectTracks {
    /// Tracks without keys.
    fn default() -> (r: ObjectTracks)
        ensures
            r.keyless(),
            forall|t: Real| #[trigger] r.accepts(t),
    {
        ObjectTracks::new()
    }
}

impl Default for BoneTracks {
    /// Tracks without keys.
    fn default() -> (r: BoneTracks)
        ensures
            r.keyless(),
            forall|t: Real| #[trigger] r.accepts(t),
    {
        BoneTracks::new()
    }
}

impl Default for AnimationClip {
    /// A clip without a name, a duration or tracks.
    fn default() -> (r: AnimationClip)
        ensures
            r.name@ == ""@,
            r.duration == (Real { bits: ZERO_BITS }),
            !r.loop_clip,
            r.tracks@ == Map::<u64, ObjectTracks>::empty(),
            r.bone_tracks@ == Map::<u64, HashMap<u32, BoneTracks>>::empty(),
    {
        AnimationClip {
            name: "".to_owned(),
            duration: Real { bits: ZERO_BITS },
            loop_clip: false,
            tracks: HashMap::new(),
            bone_tracks: HashMap::new(),
        }
    }
}

} // verus!
