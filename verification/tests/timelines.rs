//! Tracks, clips and the playhead.

use sweet::nearness::is_near;
use sweet::number::Real;
use sweet::timeline::{
    AnimationClip, BoneTracks, Interp, Key, ObjectTracks, Playhead, TimeBase, Timeline, Track,
};

fn re(x: f32) -> Real {
    Real { bits: x.to_bits() }
}

fn fl(r: Real) -> f32 {
    f32::from_bits(r.bits)
}

fn span(a: Real, b: Real) -> Real {
    re((fl(a) - fl(b)).abs())
}

fn mix(k1: Key, k2: Key, t: Real) -> Real {
    let s = (fl(t) - fl(k1.time)) / (fl(k2.time) - fl(k1.time));
    re(fl(k1.value) + (fl(k2.value) - fl(k1.value)) * s)
}

fn sum(a: Real, b: Real) -> Real {
    re(fl(a) + fl(b))
}

fn wrap(t: Real, duration: Real) -> Real {
    re(fl(t).rem_euclid(fl(duration)))
}

fn set(t: &mut Track, time: f32, value: f32, interp: Interp) {
    t.set_key(re(time), re(value), interp);
}

fn sample(t: &Track, time: f32) -> Option<f32> {
    t.sample(re(time), &span, &mix).map(fl)
}

#[test]
fn track_linear_interp() {
    let mut t = Track::default();
    set(&mut t, 0.0, 0.0, Interp::Linear);
    set(&mut t, 1.0, 10.0, Interp::Linear);
    assert!((sample(&t, 0.5).unwrap() - 5.0).abs() < 1e-5);
    assert!((sample(&t, 0.0).unwrap() - 0.0).abs() < 1e-5);
    assert!((sample(&t, 1.0).unwrap() - 10.0).abs() < 1e-5);
    assert!((sample(&t, 2.0).unwrap() - 10.0).abs() < 1e-5);
}

#[test]
fn track_constant_interp() {
    let mut t = Track::default();
    set(&mut t, 0.0, 5.0, Interp::Constant);
    set(&mut t, 1.0, 20.0, Interp::Constant);
    assert_eq!(sample(&t, 0.5).unwrap(), 5.0);
    assert_eq!(sample(&t, 1.5).unwrap(), 20.0);
}

#[test]
fn keys_come_in_by_their_time() {
    let mut t = Track::default();
    assert!(t.is_empty());
    assert_eq!(sample(&t, 1.0), None);
    set(&mut t, 2.0, 20.0, Interp::Linear);
    set(&mut t, 0.0, 0.0, Interp::Linear);
    set(&mut t, 1.0, 5.0, Interp::Constant);
    assert!(!t.is_empty());
    let times: Vec<f32> = t.keys.iter().map(|k| fl(k.time)).collect();
    assert_eq!(times, vec![0.0, 1.0, 2.0]);
    set(&mut t, 1.0002, 7.0, Interp::Linear);
    assert_eq!(t.keys.len(), 3, "near enough to be the same key");
    assert_eq!(fl(t.keys[1].value), 7.0);
    assert_eq!(fl(t.keys[1].time), 1.0);
    assert_eq!(sample(&t, -3.0), Some(0.0), "before the first key");
    assert_eq!(sample(&t, 1.5), Some(13.5));
}

#[test]
fn playhead_loops() {
    let mut ph = Playhead {
        clip_duration: re(4.0),
        loop_play: true,
        playing: true,
        ..Playhead::default()
    };
    ph.advance(re(3.9), sum, wrap);
    ph.advance(re(0.2), sum, wrap);
    assert!(fl(ph.time) < 0.5, "should wrap around");
}

#[test]
fn playheads_stop_at_the_end() {
    let mut ph = Playhead { loop_play: false, playing: true, ..Playhead::default() };
    ph.advance(re(3.0), sum, wrap);
    assert_eq!(fl(ph.time), 3.0);
    assert!(ph.playing);
    ph.advance(re(3.0), sum, wrap);
    assert_eq!(fl(ph.time), 4.0);
    assert!(!ph.playing);
    ph.advance(re(3.0), sum, wrap);
    assert_eq!(fl(ph.time), 4.0, "it does not play");
    let mut still = Playhead { clip_duration: re(0.0), playing: true, ..Playhead::default() };
    still.advance(re(1.5), sum, wrap);
    assert_eq!(fl(still.time), 1.5, "nothing to wrap around");
}

#[test]
fn timeline_bone_keyframe_interpolates() {
    let mut tl = Timeline::default();
    tl.playhead.time = re(0.0);
    tl.set_bone_keyframe(7, 2, [re(0.0), re(0.0), re(0.0)]);
    tl.playhead.time = re(2.0);
    tl.set_bone_keyframe(7, 2, [re(0.0), re(0.0), re(90.0)]);
    tl.playhead.time = re(1.0);
    let samples = tl.sample_bones(&span, &mix);
    let found =
        samples.iter().find(|(s, b, _)| *s == 7 && *b == 2).expect("bone track sampled");
    let angles: Vec<f32> = found.2.iter().map(|x| fl(*x)).collect();
    assert!(
        (angles[2] - 45.0).abs() < 1e-3,
        "z euler interpolates to 45 degrees at midpoint, got {}",
        angles[2]
    );
    assert!(angles[0].abs() < 1e-3 && angles[1].abs() < 1e-3, "x/y stay 0");
}

#[test]
fn timeline_set_and_sample_keyframe() {
    let mut tl = Timeline::default();
    tl.playhead.time = re(1.0);
    tl.set_keyframe_trs(42, [re(1.0), re(2.0), re(3.0)], [re(0.0); 3], [re(1.0); 3]);
    tl.playhead.time = re(0.0);
    tl.set_keyframe_trs(42, [re(0.0); 3], [re(0.0); 3], [re(1.0); 3]);
    tl.playhead.time = re(0.5);
    let samples = tl.sample_all(&span, &mix);
    let s = &samples[&42];
    assert!((fl(s.tx.unwrap()) - 0.5).abs() < 1e-4, "linear interp tx");
    assert!((fl(s.ty.unwrap()) - 1.0).abs() < 1e-4, "linear interp ty");
}

#[test]
fn bones_without_keys_are_left_out() {
    let mut tl = Timeline::default();
    assert!(matches!(tl.time_base, TimeBase::Seconds));
    assert_eq!(tl.clip.name, "untitled");
    assert_eq!(fl(tl.clip.duration), 4.0);
    tl.set_bone_keyframe(1, 0, [re(5.0), re(6.0), re(7.0)]);
    tl.clip.bone_tracks.get_mut(&1).unwrap().insert(9, BoneTracks::new());
    let samples = tl.sample_bones(&span, &mix);
    assert_eq!(samples.len(), 1);
    assert_eq!((samples[0].0, samples[0].1, fl(samples[0].2[1])), (1, 0, 6.0));
    assert!(BoneTracks::default().is_empty());
    let clip = AnimationClip::default();
    assert!(clip.name.is_empty() && !clip.loop_clip && clip.tracks.is_empty());
    let none = ObjectTracks::new().sample(re(0.0), &span, &mix);
    assert!(none.tx.is_none() && none.sz.is_none());
    assert_eq!(BoneTracks::new().sample(re(0.0), &span, &mix).map(fl), [0.0; 3]);
}

#[test]
fn stopping_goes_back_to_the_start() {
    let mut tl = Timeline::default();
    tl.play();
    tl.playhead.advance(re(1.5), sum, wrap);
    tl.pause();
    assert_eq!(fl(tl.playhead.time), 1.5);
    assert!(!tl.playhead.playing);
    tl.play();
    tl.stop();
    assert_eq!(fl(tl.playhead.time), 0.0);
    assert!(!tl.playhead.playing);
}

#[test]
fn keys_stay_apart() {
    let mut t = Track::default();
    for i in 0..40 {
        set(&mut t, (i * 7 % 13) as f32 * 0.0003, i as f32, Interp::Linear);
    }
    for pair in t.keys.windows(2) {
        assert!(pair[0].time.lt(pair[1].time));
        assert!(fl(pair[1].time) - fl(pair[0].time) >= 5e-4);
    }
    let count = t.keys.len();
    let first = t.keys[0].time;
    t.set_key(re(fl(first) + 0.0001), re(99.0), Interp::Constant);
    assert_eq!((t.keys.len(), t.keys[0].time), (count, first));
    assert_eq!(fl(t.keys[0].value), 99.0);
}

#[test]
fn nearness_is_that_of_rounded_differences() {
    let near = |a: f32, b: f32| {
        let got = is_near(re(a), re(b));
        assert_eq!(got, (a - b).abs() < 5e-4, "{a:e} and {b:e}");
        assert_eq!(is_near(re(b), re(a)), got);
        got
    };
    assert!(near(1.0, 1.0) && near(0.0, -0.0) && near(1e30, 1e30));
    assert!(near(2.0, 2.0004999) && !near(2.0, 2.0005002));
    assert!(!near(f32::INFINITY, f32::INFINITY) && !near(f32::NAN, 0.0) && !near(1.0, f32::NAN));
    assert!(!near(f32::MAX, f32::MIN) && !near(16384.0, 16384.001));
    let half = 5e-4f32;
    for step in -3i32..=3 {
        let edge = f32::from_bits((half.to_bits() as i32 + step) as u32);
        for b in [0.0, 1e-45, -1e-45, 1e-38, 3e-12, 1e-9, 0.25, -0.25, 1.0, 100.0, 16383.5, -7e3] {
            near(b + edge, b);
            near(b - edge, b);
            near(edge, b);
            near(edge, -edge);
            near(edge * 0.5, b - edge * 0.5);
        }
    }
    // Bit patterns from all over, and their neighbours.
    let mut x = 1u32;
    for _ in 0..20000 {
        x = x.wrapping_mul(1664525).wrapping_add(1013904223);
        let a = f32::from_bits(x);
        near(a, f32::from_bits(x ^ 0x8000_0000));
        near(a, f32::from_bits(x.wrapping_add(x >> 28)));
        near(a, a + 5e-4);
        near(a, a - 4.9e-4);
        near(a, f32::from_bits(x.wrapping_mul(69069)));
        let small = (x >> 8) as f32 / 1.6e7;
        near(small, small + 5e-4);
        near(small, small + f32::from_bits(half.to_bits() - (x & 7)));
    }
}
