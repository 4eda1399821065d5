//! Keyframe animation: tracks of keyframes per object property, and the
//! playback position. Values and frame rates are carried as they are;
//! interpolating between keyframes is the caller's arithmetic.
use vstd::prelude::*;
use crate::text::str_eq;
use crate::ordering::{stable_sort, is_stable_sort};

verus! {

/// An animatable object property.
#[derive(PartialEq, Eq, Structural, Clone, Copy, Debug)]
pub enum AnimProperty {
    PositionX,
    PositionY,
    Rotation,
    ScaleX,
    ScaleY,
    Opacity,
}

/// Easing of the segment that starts at a keyframe.
#[derive(PartialEq, Eq, Structural, Clone, Copy, Debug)]
pub enum EaseType {
    Linear,
    EaseIn,
    EaseOut,
    EaseInOut,
}

/// A value `V` at a frame, with the easing towards the next keyframe.
pub struct Keyframe<V> {
    pub frame: usize,
    pub value: V,
    pub ease: EaseType,
}

/// The keyframes of one property of one object.
pub struct Track<V> {
    pub object_id: String,
    pub property: AnimProperty,
    pub keyframes: Vec<Keyframe<V>>,
}

/// The frames of keyframes.
pub open spec fn frames_of<V>(ks: Seq<Keyframe<V>>) -> Seq<nat> {
    ks.map_values(|k: Keyframe<V>| k.frame as nat)
}

/// The first keyframe below position `n` at `frame`.
pub open spec fn keyframe_at<V>(ks: Seq<Keyframe<V>>, frame: usize, n: nat) -> Option<nat>
    decreases n,
{
    if n == 0 {
        None
    } else {
        match keyframe_at(ks, frame, (n - 1) as nat) {
            Some(p) => Some(p),
            None => if ks[n - 1].frame == frame { Some((n - 1) as nat) } else { None },
        }
    }
}

proof fn lemma_keyframe_at_stable<V>(ks: Seq<Keyframe<V>>, frame: usize, n1: nat, n2: nat)
    requires
        n1 <= n2,
        keyframe_at(ks, frame, n1) is Some,
    ensures
        keyframe_at(ks, frame, n2) == keyframe_at(ks, frame, n1),
    decreases n2,
{
    if n2 > n1 {
        lemma_keyframe_at_stable(ks, frame, n1, (n2 - 1) as nat);
    }
}

/// Keyframes in strictly increasing frame order: sorted, and no frame
/// holds two keyframes.
pub open spec fn frames_increasing<V>(ks: Seq<Keyframe<V>>) -> bool {
    forall|a: int, b: int| 0 <= a < b < ks.len() ==> #[trigger] ks[a].frame < #[trigger] ks[b].frame
}

proof fn lemma_keyframe_at_none<V>(ks: Seq<Keyframe<V>>, frame: usize, n: nat)
    requires
        n <= ks.len(),
        keyframe_at(ks, frame, n) is None,
    ensures
        forall|i: int| 0 <= i < n ==> (#[trigger] ks[i]).frame != frame,
    decreases n,
{
    if n > 0 {
        lemma_keyframe_at_none(ks, frame, (n - 1) as nat);
    }
}

/// Where a frame falls on a track.
pub enum Sample {
    /// The track has no keyframes.
    Missing,
    /// The value is that of the keyframe at this position.
    At(usize),
    /// Between the keyframe at `from` and the next one, `elapsed` of the
    /// segment's `span` frames (never zero) past its start.
    Between { from: usize, elapsed: usize, span: usize },
}

/// The first segment below position `n` (keyframes `i`, `i + 1`) that
/// contains `frame`.
pub open spec fn segment_with<V>(ks: Seq<Keyframe<V>>, frame: usize, n: nat) -> Option<nat>
    decreases n,
{
    if n == 0 {
        None
    } else {
        match segment_with(ks, frame, (n - 1) as nat) {
            Some(i) => Some(i),
            None => {
                let i = (n - 1) as int;
                if ks[i].frame <= frame && frame <= ks[i + 1].frame { Some(i as nat) } else { None }
            },
        }
    }
}

proof fn lemma_segment_with_stable<V>(ks: Seq<Keyframe<V>>, frame: usize, n1: nat, n2: nat)
    requires
        n1 <= n2,
        segment_with(ks, frame, n1) is Some,
    ensures
        segment_with(ks, frame, n2) == segment_with(ks, frame, n1),
    decreases n2,
{
    if n2 > n1 {
        lemma_segment_with_stable(ks, frame, n1, (n2 - 1) as nat);
    }
}

/// Where `frame` falls on a track with keyframes `ks`: before or at the
/// first keyframe (or with a single one) its value; at or after the last
/// one its value; else the first segment that contains it (a segment of
/// zero length gives its start value); the last value if none does.
pub open spec fn sample_of<V>(ks: Seq<Keyframe<V>>, frame: usize) -> Sample {
    if ks.len() == 0 {
        Sample::Missing
    } else if ks.len() == 1 || frame <= ks[0].frame {
        Sample::At(0)
    } else if frame >= ks.last().frame {
        Sample::At((ks.len() - 1) as usize)
    } else {
        match segment_with(ks, frame, (ks.len() - 1) as nat) {
            Some(i) => if ks[i + 1int].frame == ks[i as int].frame {
                Sample::At(i as usize)
            } else {
                Sample::Between {
                    from: i as usize,
                    elapsed: (frame - ks[i as int].frame) as usize,
                    span: (ks[i + 1int].frame - ks[i as int].frame) as usize,
                }
            },
            None => Sample::At((ks.len() - 1) as usize),
        }
    }
}

impl<V> Track<V> {
    /// An empty track.
    pub fn new(object_id: &str, property: AnimProperty) -> (t: Self)
        ensures
            t.object_id@ == object_id@,
            t.property == property,
            t.keyframes@.len() == 0,
    {
        Track { object_id: object_id.to_owned(), property, keyframes: Vec::new() }
    }

    /// Set the keyframe at `frame`: the first keyframe at that frame takes
    /// the value and easing; otherwise a keyframe is added and the
    /// keyframes are stably sorted by frame. Keyframes in strictly
    /// increasing frame order stay so.
    pub fn add_keyframe(&mut self, frame: usize, value: V, ease: EaseType)
        ensures
            final(self).object_id == old(self).object_id,
            final(self).property == old(self).property,
            frames_increasing(old(self).keyframes@) ==> frames_increasing(final(self).keyframes@),
            match keyframe_at(old(self).keyframes@, frame, old(self).keyframes@.len()) {
                Some(p) => final(self).keyframes@ == old(self).keyframes@.update(p as int,
                    Keyframe { frame, value, ease }),
                None => {
                    let added = old(self).keyframes@.push(Keyframe { frame, value, ease });
                    exists|perm: Seq<int>| #[trigger] is_stable_sort(perm, frames_of(added))
                        && final(self).keyframes@.len() == added.len()
                        && forall|k: int| 0 <= k < added.len() ==> final(self).keyframes@[k] == added[#[trigger] perm[k]]
                },
            },
    {
        let n = self.keyframes.len();
        let mut i: usize = 0;
        while i < n
            invariant
                i <= n,
                n == self.keyframes@.len(),
                *self == *old(self),
                keyframe_at(self.keyframes@, frame, i as nat) is None,
            decreases n - i,
        {
            if self.keyframes[i].frame == frame {
                proof {
                    lemma_keyframe_at_stable(self.keyframes@, frame, (i + 1) as nat, n as nat);
                }
                self.keyframes.set(i, Keyframe { frame, value, ease });
                assert(forall|k: int| 0 <= k < n ==> (#[trigger] self.keyframes@[k]).frame == old(self).keyframes@[k].frame);
                return;
            }
            i += 1;
        }
        self.keyframes.push(Keyframe { frame, value, ease });
        let ghost added = self.keyframes@;
        let mut keys: Vec<usize> = Vec::new();
        let m = self.keyframes.len();
        let mut q: usize = 0;
        while q < m
            invariant
                q <= m,
                m == self.keyframes@.len(),
                self.object_id == old(self).object_id,
                self.property == old(self).property,
                self.keyframes@ == added,
                keys@.len() == q,
                forall|t: int| 0 <= t < q ==> keys@[t] == self.keyframes@[t].frame,
            decreases m - q,
        {
            keys.push(self.keyframes[q].frame);
            q += 1;
        }
        assert(keys@.map_values(|k: usize| k as nat) =~= frames_of(added));
        let perm = stable_sort(&mut self.keyframes, &mut keys);
        assert(is_stable_sort(perm@, frames_of(added)));
        proof {
            if frames_increasing(old(self).keyframes@) {
                lemma_keyframe_at_none(old(self).keyframes@, frame, n as nat);
                let fr = frames_of(added);
                assert forall|x: int, y: int| 0 <= x < y < added.len() implies fr[x] != fr[y] by {
                    assert(fr[x] == added[x].frame && fr[y] == added[y].frame);
                    if y < n {
                        assert(added[x] == old(self).keyframes@[x] && added[y] == old(self).keyframes@[y]);
                    } else {
                        assert(added[x] == old(self).keyframes@[x]);
                    }
                }
                let fin = self.keyframes@;
                let pm = perm@;
                assert forall|a: int, b: int| 0 <= a < b < fin.len() implies #[trigger] fin[a].frame < #[trigger] fin[b].frame by {
                    assert(fin[a] == added[pm[a]] && fin[b] == added[pm[b]]);
                    assert(fr[pm[a]] <= fr[pm[b]]);
                    assert(pm[a] != pm[b]);
                    if pm[a] < pm[b] {
                        assert(fr[pm[a]] != fr[pm[b]]);
                    } else {
                        assert(fr[pm[b]] != fr[pm[a]]);
                    }
                }
            }
        }
    }

    /// Where `frame` falls on the track (see `sample_of`).
    pub fn sample_at(&self, frame: usize) -> (r: Sample)
        ensures
            r == sample_of(self.keyframes@, frame),
    {
        let n = self.keyframes.len();
        if n == 0 {
            return Sample::Missing;
        }
        if n == 1 || frame <= self.keyframes[0].frame {
            return Sample::At(0);
        }
        if frame >= self.keyframes[n - 1].frame {
            return Sample::At(n - 1);
        }
        let ghost ks = self.keyframes@;
        let mut i: usize = 0;
        while i < n - 1
            invariant
                i <= n - 1,
                n == ks.len(),
                n >= 2,
                ks == self.keyframes@,
                frame > ks[0].frame,
                frame < ks[n - 1].frame,
                segment_with(ks, frame, i as nat) is None,
            decreases n - 1 - i,
        {
            let f0 = self.keyframes[i].frame;
            let f1 = self.keyframes[i + 1].frame;
            if frame >= f0 && frame <= f1 {
                proof {
                    assert(segment_with(ks, frame, (i + 1) as nat) == Some(i as nat));
                    lemma_segment_with_stable(ks, frame, (i + 1) as nat, (n - 1) as nat);
                }
                if f1 == f0 {
                    return Sample::At(i);
                }
                return Sample::Between { from: i, elapsed: frame - f0, span: f1 - f0 };
            }
            i += 1;
        }
        Sample::At(n - 1)
    }
}

/// The playback state: frame rate `F`, frame count, position, and tracks
/// of values `V`.
pub struct Timeline<F, V> {
    pub fps: F,
    pub total_frames: usize,
    pub current_frame: usize,
    pub is_playing: bool,
    pub loop_playback: bool,
    pub tracks: Vec<Track<V>>,
}

/// The first track below position `n` for the object and property.
pub open spec fn track_of<V>(ts: Seq<Track<V>>, object_id: Seq<char>, property: AnimProperty, n: nat) -> Option<nat>
    decreases n,
{
    if n == 0 {
        None
    } else {
        match track_of(ts, object_id, property, (n - 1) as nat) {
            Some(p) => Some(p),
            None => if ts[n - 1].object_id@ == object_id && ts[n - 1].property == property {
                Some((n - 1) as nat)
            } else {
                None
            },
        }
    }
}

proof fn lemma_track_of_stable<V>(ts: Seq<Track<V>>, object_id: Seq<char>, property: AnimProperty, n1: nat, n2: nat)
    requires
        n1 <= n2,
        track_of(ts, object_id, property, n1) is Some,
    ensures
        track_of(ts, object_id, property, n2) == track_of(ts, object_id, property, n1),
    decreases n2,
{
    if n2 > n1 {
        lemma_track_of_stable(ts, object_id, property, n1, (n2 - 1) as nat);
    }
}

impl<F, V> Timeline<F, V> {
    /// Step one frame: at the end, wrap to the start when looping, else
    /// stop playing.
    pub fn advance_frame(&mut self)
        ensures
            final(self).total_frames == old(self).total_frames,
            final(self).loop_playback == old(self).loop_playback,
            final(self).tracks == old(self).tracks,
            final(self).fps == old(self).fps,
            if old(self).current_frame + 1 >= old(self).total_frames {
                if old(self).loop_playback {
                    final(self).current_frame == 0 && final(self).is_playing == old(self).is_playing
                } else {
                    final(self).current_frame == old(self).current_frame && !final(self).is_playing
                }
            } else {
                final(self).current_frame == old(self).current_frame + 1 && final(self).is_playing == old(self).is_playing
            },
    {
        if self.current_frame >= self.total_frames || self.total_frames - self.current_frame <= 1 {
            if self.loop_playback {
                self.current_frame = 0;
            } else {
                self.is_playing = false;
            }
        } else {
            self.current_frame = self.current_frame + 1;
        }
    }

    /// The track of an object's property, added empty if missing.
    pub fn add_or_get_track_mut(&mut self, object_id: &str, property: AnimProperty) -> (t: &mut Track<V>)
        ensures
            final(self).total_frames == old(self).total_frames,
            final(self).current_frame == old(self).current_frame,
            final(self).is_playing == old(self).is_playing,
            final(self).loop_playback == old(self).loop_playback,
            final(self).fps == old(self).fps,
            match track_of(old(self).tracks@, object_id@, property, old(self).tracks@.len()) {
                Some(p) => *t == old(self).tracks@[p as int]
                    && final(self).tracks@ == old(self).tracks@.update(p as int, *final(t)),
                None => t.object_id@ == object_id@ && t.property == property && t.keyframes@.len() == 0
                    && final(self).tracks@ == old(self).tracks@.push(*final(t)),
            },
    {
        let n = self.tracks.len();
        let mut i: usize = 0;
        while i < n
            invariant
                i <= n,
                n == self.tracks@.len(),
                *self == *old(self),
                track_of(self.tracks@, object_id@, property, i as nat) is None,
            decreases n - i,
        {
            if self.tracks[i].property == property && str_eq(self.tracks[i].object_id.as_str(), object_id) {
                proof {
                    lemma_track_of_stable(self.tracks@, object_id@, property, (i + 1) as nat, n as nat);
                }
                return &mut self.tracks[i];
            }
            i += 1;
        }
        self.tracks.push(Track::new(object_id, property));
        let last = self.tracks.len() - 1;
        &mut self.tracks[last]
    }
}

} // verus!
