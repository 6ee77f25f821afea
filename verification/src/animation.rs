//! Keyframe animation: tracks of timed values, the playback state of one
//! instance, and the pose a state selects.
//!
//! Time is counted in whole ticks. A track's cursor rests on the last keyframe
//! whose time has passed; the pose lies between that keyframe and the next.

use crate::geometry::{lemma_lerp_between, Point3, UnitQuaternion, Vector3};
use vstd::prelude::*;

verus! {

/// Two values and how far the way from the first to the second has been
/// gone: `num / den`, with `0 < den` and `num <= den`.
#[derive(Clone, Copy, Debug, PartialEq, Eq, Structural)]
pub struct Blend<T> {
    pub from: T,
    pub to: T,
    pub num: u64,
    pub den: u64,
}

/// The blend that rests on `value`.
pub open spec fn hold<T>(value: T) -> Blend<T> {
    Blend { from: value, to: value, num: 0, den: 1 }
}

/// The keyframe times do not fall.
pub open spec fn sorted<T>(track: Seq<(u64, T)>) -> bool {
    forall|i: int, j: int| 0 <= i <= j < track.len() ==> track[i].0 <= track[j].0
}

/// Where a cursor that stands on keyframe `from` comes to rest: it steps on
/// while the next keyframe's time has been reached.
pub open spec fn seek<T>(track: Seq<(u64, T)>, from: nat, progress: nat) -> nat
    decreases track.len() - from,
{
    if from + 1 < track.len() && track[from as int + 1].0 <= progress {
        seek(track, from + 1, progress)
    } else {
        from
    }
}

/// The cursor after it has been advanced to `progress`. On an empty track it
/// stays; one that stands beyond the last keyframe is put on it first.
pub open spec fn advance_cursor<T>(track: Seq<(u64, T)>, cursor: nat, progress: nat) -> nat {
    if track.len() == 0 {
        cursor
    } else if cursor >= track.len() {
        seek(track, (track.len() - 1) as nat, progress)
    } else {
        seek(track, cursor, progress)
    }
}

/// `seek` stops at the first keyframe from `from` on whose successor lies
/// ahead of `progress`, or at the last keyframe.
pub proof fn lemma_seek_rests<T>(track: Seq<(u64, T)>, from: nat, progress: nat)
    requires
        from < track.len(),
    ensures
        from <= seek(track, from, progress) < track.len(),
        forall|j: int| from < j <= seek(track, from, progress) ==> (#[trigger] track[j]).0 <= progress,
        seek(track, from, progress) + 1 < track.len() ==> track[seek(track, from, progress) as int + 1].0
            > progress,
        seek(track, seek(track, from, progress), progress) == seek(track, from, progress),
    decreases track.len() - from,
{
    if from + 1 < track.len() && track[from as int + 1].0 <= progress {
        lemma_seek_rests(track, from + 1, progress);
    }
}

/// Advancing a cursor twice to the same progress is advancing it once.
pub proof fn lemma_advance_cursor_idempotent<T>(track: Seq<(u64, T)>, cursor: nat, progress: nat)
    ensures
        advance_cursor(track, advance_cursor(track, cursor, progress), progress) == advance_cursor(
            track,
            cursor,
            progress,
        ),
{
    if track.len() > 0 {
        let from = if cursor >= track.len() {
            (track.len() - 1) as nat
        } else {
            cursor
        };
        lemma_seek_rests(track, from, progress);
    }
}

/// What a track yields for a cursor and a progress: the base value where the
/// track is empty; the keyframe under the cursor where it is the last one or
/// its time has not come; the next keyframe where its time has passed; and
/// else the two with the share of the way between their times.
pub open spec fn sample_spec<T>(track: Seq<(u64, T)>, cursor: nat, progress: nat, base: T) -> Blend<T> {
    if track.len() == 0 {
        hold(base)
    } else {
        let c = if cursor >= track.len() {
            track.len() - 1
        } else {
            cursor as int
        };
        if c + 1 >= track.len() || progress <= track[c].0 {
            hold(track[c].1)
        } else if progress >= track[c + 1].0 {
            hold(track[c + 1].1)
        } else {
            Blend {
                from: track[c].1,
                to: track[c + 1].1,
                num: (progress - track[c].0) as u64,
                den: (track[c + 1].0 - track[c].0) as u64,
            }
        }
    }
}

/// Advances a cursor over a track.
pub fn seek_cursor<T>(track: &Vec<(u64, T)>, cursor: usize, progress: u64) -> (r: usize)
    ensures
        r == advance_cursor(track@, cursor as nat, progress as nat),
{
    if track.len() == 0 {
        return cursor;
    }
    let mut c: usize = if cursor >= track.len() {
        track.len() - 1
    } else {
        cursor
    };
    let ghost from = c as nat;
    while c + 1 < track.len() && track[c + 1].0 <= progress
        invariant
            c < track.len(),
            seek(track@, c as nat, progress as nat) == seek(track@, from, progress as nat),
        decreases track.len() - c,
    {
        c += 1;
    }
    c
}

/// Reads a track at a cursor and a progress.
pub fn sample_track<T: Copy>(track: &Vec<(u64, T)>, cursor: usize, progress: u64, base: T) -> (b:
    Blend<T>)
    ensures
        b == sample_spec(track@, cursor as nat, progress as nat, base),
        0 < b.den,
        b.num <= b.den,
{
    if track.len() == 0 {
        return Blend { from: base, to: base, num: 0, den: 1 };
    }
    let c: usize = if cursor >= track.len() {
        track.len() - 1
    } else {
        cursor
    };
    let cur_frame: (u64, T) = track[c];
    if c + 1 >= track.len() || progress <= cur_frame.0 {
        return Blend { from: cur_frame.1, to: cur_frame.1, num: 0, den: 1 };
    }
    let next_frame: (u64, T) = track[c + 1];
    if progress >= next_frame.0 {
        return Blend { from: next_frame.1, to: next_frame.1, num: 0, den: 1 };
    }
    Blend {
        from: cur_frame.1,
        to: next_frame.1,
        num: progress - cur_frame.0,
        den: next_frame.0 - cur_frame.0,
    }
}

/// The time of the first keyframe, if there is one.
pub open spec fn first_time<T>(track: Seq<(u64, T)>) -> Option<u64> {
    if track.len() == 0 {
        None
    } else {
        Some(track[0].0)
    }
}

/// The time of the last keyframe, if there is one.
pub open spec fn last_time<T>(track: Seq<(u64, T)>) -> Option<u64> {
    if track.len() == 0 {
        None
    } else {
        Some(track[track.len() - 1].0)
    }
}

/// The smaller of two times, where both are there.
pub open spec fn earlier(a: Option<u64>, b: Option<u64>) -> Option<u64> {
    match (a, b) {
        (None, _) => b,
        (_, None) => a,
        (Some(x), Some(y)) => if x <= y {
            a
        } else {
            b
        },
    }
}

/// The larger of two times, where both are there.
pub open spec fn later(a: Option<u64>, b: Option<u64>) -> Option<u64> {
    match (a, b) {
        (None, _) => b,
        (_, None) => a,
        (Some(x), Some(y)) => if x >= y {
            a
        } else {
            b
        },
    }
}

/// Three tracks, each of which may be empty, and the span of time they
/// cover.
#[derive(Debug)]
pub struct Animation {
    pub start: u64,
    pub end: u64,
    pub pos_track: Vec<(u64, Point3)>,
    pub rot_track: Vec<(u64, UnitQuaternion)>,
    pub scale_track: Vec<(u64, Vector3)>,
}

/// What an animation holds, as plain values.
pub struct AnimationView {
    pub start: u64,
    pub end: u64,
    pub pos_track: Seq<(u64, Point3)>,
    pub rot_track: Seq<(u64, UnitQuaternion)>,
    pub scale_track: Seq<(u64, Vector3)>,
}

impl View for Animation {
    type V = AnimationView;

    open spec fn view(&self) -> AnimationView {
        AnimationView {
            start: self.start,
            end: self.end,
            pos_track: self.pos_track@,
            rot_track: self.rot_track@,
            scale_track: self.scale_track@,
        }
    }
}

impl AnimationView {
    /// The earliest first keyframe among the tracks that have one.
    pub open spec fn spec_start(self) -> Option<u64> {
        earlier(
            earlier(first_time(self.pos_track), first_time(self.rot_track)),
            first_time(self.scale_track),
        )
    }

    /// The latest last keyframe among the tracks that have one.
    pub open spec fn spec_end(self) -> Option<u64> {
        later(later(last_time(self.pos_track), last_time(self.rot_track)), last_time(self.scale_track))
    }

    pub open spec fn tracks_sorted(self) -> bool {
        &&& sorted(self.pos_track)
        &&& sorted(self.rot_track)
        &&& sorted(self.scale_track)
    }

    /// The tracks are sorted, and `start` and `end` are the least and the
    /// greatest keyframe time, where there is any keyframe.
    pub open spec fn wf(self) -> bool {
        &&& self.tracks_sorted()
        &&& self.spec_start() matches Some(t) ==> self.start == t
        &&& self.spec_end() matches Some(t) ==> self.end == t
    }

    /// The animation with `start` and `end` set from the first and last
    /// keyframes of the tracks that are not empty; where all are empty both
    /// stay as they are.
    pub open spec fn spanned(self) -> AnimationView {
        AnimationView {
            start: match self.spec_start() {
                Some(t) => t,
                None => self.start,
            },
            end: match self.spec_end() {
                Some(t) => t,
                None => self.end,
            },
            ..self
        }
    }
}

/// A copy of a track.
fn copy_track<T: Copy>(track: &Vec<(u64, T)>) -> (r: Vec<(u64, T)>)
    ensures
        r@ == track@,
{
    let mut r: Vec<(u64, T)> = Vec::new();
    let mut i: usize = 0;
    while i < track.len()
        invariant
            i <= track.len(),
            r@ == track@.take(i as int),
        decreases track.len() - i,
    {
        r.push(track[i]);
        assert(track@.take(i + 1) =~= track@.take(i as int).push(track[i as int]));
        i += 1;
    }
    assert(track@.take(track.len() as int) =~= track@);
    r
}

impl Animation {
    /// An animation over the given tracks whose span is not computed yet.
    pub fn new(
        pos_track: Vec<(u64, Point3)>,
        rot_track: Vec<(u64, UnitQuaternion)>,
        scale_track: Vec<(u64, Vector3)>,
    ) -> (a: Self)
        ensures
            a@ == (AnimationView {
                start: 0,
                end: 0,
                pos_track: pos_track@,
                rot_track: rot_track@,
                scale_track: scale_track@,
            }),
    {
        Self {
            start: 0,
            end: 0,
            pos_track: pos_track,
            rot_track: rot_track,
            scale_track: scale_track,
        }
    }

    /// Sets `start` and `end` from the first and last keyframes of the tracks
    /// that are not empty; where all are empty both stay as they are.
    pub fn compute_start_end(&mut self)
        ensures
            final(self)@ == old(self)@.spanned(),
            old(self)@.tracks_sorted() ==> final(self)@.wf(),
    {
        let mut min: u64 = u64::MAX;
        let mut max: u64 = 0;
        let mut valid: bool = false;
        if self.pos_track.len() > 0 {
            let first: u64 = self.pos_track[0].0;
            let last: u64 = self.pos_track[self.pos_track.len() - 1].0;
            min = if first < min { first } else { min };
            max = if last > max { last } else { max };
            valid = true;
        }
        if self.rot_track.len() > 0 {
            let first: u64 = self.rot_track[0].0;
            let last: u64 = self.rot_track[self.rot_track.len() - 1].0;
            min = if first < min { first } else { min };
            max = if last > max { last } else { max };
            valid = true;
        }
        if self.scale_track.len() > 0 {
            let first: u64 = self.scale_track[0].0;
            let last: u64 = self.scale_track[self.scale_track.len() - 1].0;
            min = if first < min { first } else { min };
            max = if last > max { last } else { max };
            valid = true;
        }
        if valid {
            self.start = min;
            self.end = max;
        }
    }

    /// A copy of the animation.
    pub fn duplicate(&self) -> (a: Self)
        ensures
            a@ == self@,
    {
        Self {
            start: self.start,
            end: self.end,
            pos_track: copy_track(&self.pos_track),
            rot_track: copy_track(&self.rot_track),
            scale_track: copy_track(&self.scale_track),
        }
    }
}

/// In a well-formed animation every keyframe lies within the span.
pub proof fn law_span_covers(a: AnimationView)
    requires
        a.wf(),
    ensures
        forall|i: int| 0 <= i < a.pos_track.len() ==> a.start <= (#[trigger] a.pos_track[i]).0 <= a.end,
        forall|i: int| 0 <= i < a.rot_track.len() ==> a.start <= (#[trigger] a.rot_track[i]).0 <= a.end,
        forall|i: int|
            0 <= i < a.scale_track.len() ==> a.start <= (#[trigger] a.scale_track[i]).0 <= a.end,
{
}

/// What a playback state holds, as plain values.
pub struct AnimationStateView {
    pub animation_name: Seq<char>,
    pub new_animation_name: Seq<char>,
    pub animation_progress: nat,
    pub pos_frame_idx: nat,
    pub rot_frame_idx: nat,
    pub scale_frame_idx: nat,
    pub once: bool,
    pub num_loops: nat,
    pub need_reset: bool,
    pub done: bool,
}

impl AnimationStateView {
    /// The next advance starts the requested animation from its beginning:
    /// another animation was requested, or a reset.
    pub open spec fn switching(self) -> bool {
        self.animation_name != self.new_animation_name || self.need_reset
    }

    /// The progress that the next advance adds to.
    pub open spec fn base_progress(self) -> nat {
        if self.switching() {
            0
        } else {
            self.animation_progress
        }
    }

    /// Whether the next advance finds the animation finished already.
    pub open spec fn base_done(self) -> bool {
        !self.switching() && self.done
    }

    /// The cursor of one track that the next advance starts from.
    pub open spec fn base_cursor(self, cursor: nat) -> nat {
        if self.switching() {
            0
        } else {
            cursor
        }
    }
}

/// How often a looping animation of length `end` starts over when its
/// progress is taken to `total`: progress is carried back by `end` while it
/// lies beyond `end`. An animation of no length starts over once, at
/// progress 0.
pub open spec fn wraps(total: nat, end: nat) -> nat {
    if total <= end {
        0
    } else if end == 0 {
        1
    } else {
        ((total - 1) / (end as int)) as nat
    }
}

/// How many rounds an advance by `dt` adds to the loop counter: none while
/// progress does not come to lie beyond the end, or where the animation was
/// done already; one where an animation that plays once runs out; and else
/// as often as the animation starts over.
pub open spec fn rounds(animation: AnimationView, s: AnimationStateView, dt: nat) -> nat {
    let total = s.base_progress() + dt;
    let end = animation.end as nat;
    if total <= end || s.base_done() {
        0
    } else if s.once {
        1
    } else {
        wraps(total, end)
    }
}

/// The state after time `dt` has passed on `animation`.
pub open spec fn advance_spec(animation: AnimationView, s: AnimationStateView, dt: nat) -> AnimationStateView {
    let total = s.base_progress() + dt;
    let end = animation.end as nat;
    let progress = if total <= end {
        total
    } else if s.once {
        end
    } else if end == 0 {
        0
    } else {
        (total - wraps(total, end) * end) as nat
    };
    let restart = total > end && !s.once;
    let pos = if restart {
        0
    } else {
        s.base_cursor(s.pos_frame_idx)
    };
    let rot = if restart {
        0
    } else {
        s.base_cursor(s.rot_frame_idx)
    };
    let scale = if restart {
        0
    } else {
        s.base_cursor(s.scale_frame_idx)
    };
    AnimationStateView {
        animation_name: s.new_animation_name,
        new_animation_name: s.new_animation_name,
        animation_progress: progress,
        pos_frame_idx: advance_cursor(animation.pos_track, pos, progress),
        rot_frame_idx: advance_cursor(animation.rot_track, rot, progress),
        scale_frame_idx: advance_cursor(animation.scale_track, scale, progress),
        once: s.once,
        num_loops: s.num_loops + rounds(animation, s, dt),
        need_reset: false,
        done: s.base_done() || (total > end && s.once),
    }
}

/// The pose a state selects from an animation: position and scale
/// interpolated, the rotation as the two keyframes and the share of the way
/// between them. `base` stands in for each track that is empty.
pub open spec fn pose_spec(
    animation: AnimationView,
    s: AnimationStateView,
    base: (Point3, UnitQuaternion, Vector3),
) -> (Point3, Blend<UnitQuaternion>, Vector3) {
    let pos = sample_spec(animation.pos_track, s.pos_frame_idx, s.animation_progress, base.0);
    let rot = sample_spec(animation.rot_track, s.rot_frame_idx, s.animation_progress, base.1);
    let scale = sample_spec(animation.scale_track, s.scale_frame_idx, s.animation_progress, base.2);
    (
        pos.from.lerp_spec(pos.to, pos.num as nat, pos.den as nat),
        rot,
        scale.from.lerp_spec(scale.to, scale.num as nat, scale.den as nat),
    )
}

/// The playback state of one instance of an animated object.
#[derive(Clone, Debug)]
pub struct AnimationState {
    pub animation_name: String,
    pub new_animation_name: String,
    pub animation_progress: u64,
    pub pos_frame_idx: usize,
    pub rot_frame_idx: usize,
    pub scale_frame_idx: usize,
    pub once: bool,
    pub num_loops: u64,
    pub need_reset: bool,
    pub done: bool,
}

impl View for AnimationState {
    type V = AnimationStateView;

    open spec fn view(&self) -> AnimationStateView {
        AnimationStateView {
            animation_name: self.animation_name@,
            new_animation_name: self.new_animation_name@,
            animation_progress: self.animation_progress as nat,
            pos_frame_idx: self.pos_frame_idx as nat,
            rot_frame_idx: self.rot_frame_idx as nat,
            scale_frame_idx: self.scale_frame_idx as nat,
            once: self.once,
            num_loops: self.num_loops as nat,
            need_reset: self.need_reset,
            done: self.done,
        }
    }
}

impl AnimationState {
    /// A state at the beginning of the named animation.
    pub fn new(animation_name: &str, once: bool) -> (s: Self)
        ensures
            s@ == (AnimationStateView {
                animation_name: animation_name@,
                new_animation_name: animation_name@,
                animation_progress: 0,
                pos_frame_idx: 0,
                rot_frame_idx: 0,
                scale_frame_idx: 0,
                once: once,
                num_loops: 0,
                need_reset: false,
                done: false,
            }),
    {
        Self {
            animation_name: animation_name.to_string(),
            new_animation_name: animation_name.to_string(),
            animation_progress: 0,
            once: once,
            pos_frame_idx: 0,
            rot_frame_idx: 0,
            scale_frame_idx: 0,
            num_loops: 0,
            need_reset: false,
            done: false,
        }
    }

    /// Asks for the animation to start over at the next advance.
    pub fn reset(&mut self)
        ensures
            final(self)@ == (AnimationStateView { need_reset: true, ..old(self)@ }),
    {
        self.need_reset = true;
    }

    /// Asks for another animation; it becomes the active one at the next
    /// advance.
    pub fn set_new_animation(&mut self, animation_name: &str)
        ensures
            final(self)@ == (AnimationStateView { new_animation_name: animation_name@, ..old(self)@ }),
    {
        self.new_animation_name = animation_name.to_string();
    }

    /// A copy of the state.
    pub fn duplicate(&self) -> (s: Self)
        ensures
            s@ == self@,
    {
        Self {
            animation_name: self.animation_name.clone(),
            new_animation_name: self.new_animation_name.clone(),
            animation_progress: self.animation_progress,
            pos_frame_idx: self.pos_frame_idx,
            rot_frame_idx: self.rot_frame_idx,
            scale_frame_idx: self.scale_frame_idx,
            once: self.once,
            num_loops: self.num_loops,
            need_reset: self.need_reset,
            done: self.done,
        }
    }

    /// How often the animation has started over, or run out, since the state
    /// was made.
    pub fn get_num_loops(&self) -> (n: u64)
        ensures
            n == self@.num_loops,
    {
        self.num_loops
    }

    /// Whether an animation that plays once has run out.
    pub fn is_done(&self) -> (d: bool)
        ensures
            d == self@.done,
    {
        self.done
    }

    /// The name of the active animation.
    pub fn animation_name(&self) -> (name: &str)
        ensures
            name@ == self@.animation_name,
    {
        self.animation_name.as_str()
    }

    /// The name of the animation asked for.
    pub fn new_animation_name(&self) -> (name: &str)
        ensures
            name@ == self@.new_animation_name,
    {
        self.new_animation_name.as_str()
    }

    /// The time gone since the active animation began, or last started over.
    pub fn animation_progress(&self) -> (p: u64)
        ensures
            p == self@.animation_progress,
    {
        self.animation_progress
    }

    /// Lets time `amount` pass on `animation`, which is the one asked for.
    pub fn advance(&mut self, animation: &Animation, amount: u64)
        requires
            old(self)@.base_progress() + amount <= u64::MAX,
            old(self)@.num_loops + rounds(animation@, old(self)@, amount as nat) <= u64::MAX,
        ensures
            final(self)@ == advance_spec(animation@, old(self)@, amount as nat),
    {
        let same: bool = self.animation_name == self.new_animation_name;
        if !same || self.need_reset {
            self.animation_name = self.new_animation_name.clone();
            self.pos_frame_idx = 0;
            self.rot_frame_idx = 0;
            self.scale_frame_idx = 0;
            self.animation_progress = 0;
            self.need_reset = false;
            self.done = false;
        }
        let total: u64 = self.animation_progress + amount;
        let end: u64 = animation.end;
        if total <= end {
            self.animation_progress = total;
        } else if self.once {
            if !self.done {
                self.num_loops = self.num_loops + 1;
            }
            self.done = true;
            self.animation_progress = end;
        } else {
            let loops: u64 = if end == 0 {
                1
            } else {
                (total - 1) / end
            };
            proof {
                if end > 0 {
                    vstd::arithmetic::div_mod::lemma_fundamental_div_mod(
                        (total - 1) as int,
                        end as int,
                    );
                    vstd::arithmetic::div_mod::lemma_mod_pos_bound((total - 1) as int, end as int);
                    assert(loops * end == end * loops) by (nonlinear_arith);
                } else {
                    assert(loops * end == 0) by (nonlinear_arith)
                        requires
                            end == 0,
                    ;
                }
            }
            if !self.done {
                self.num_loops = self.num_loops + loops;
            }
            self.animation_progress = if end == 0 {
                0
            } else {
                total - loops * end
            };
            self.pos_frame_idx = 0;
            self.rot_frame_idx = 0;
            self.scale_frame_idx = 0;
        }
        self.pos_frame_idx = seek_cursor(
            &animation.pos_track,
            self.pos_frame_idx,
            self.animation_progress,
        );
        self.rot_frame_idx = seek_cursor(
            &animation.rot_track,
            self.rot_frame_idx,
            self.animation_progress,
        );
        self.scale_frame_idx = seek_cursor(
            &animation.scale_track,
            self.scale_frame_idx,
            self.animation_progress,
        );
    }

    /// The pose the state selects from `animation`, with `pos`, `rot` and
    /// `scale` standing in for the tracks that are empty.
    pub fn pose(&self, animation: &Animation, pos: Point3, rot: UnitQuaternion, scale: Vector3) -> (r:
        (Point3, Blend<UnitQuaternion>, Vector3))
        ensures
            r == pose_spec(animation@, self@, (pos, rot, scale)),
    {
        let p: Blend<Point3> = sample_track(
            &animation.pos_track,
            self.pos_frame_idx,
            self.animation_progress,
            pos,
        );
        let r: Blend<UnitQuaternion> = sample_track(
            &animation.rot_track,
            self.rot_frame_idx,
            self.animation_progress,
            rot,
        );
        let s: Blend<Vector3> = sample_track(
            &animation.scale_track,
            self.scale_frame_idx,
            self.animation_progress,
            scale,
        );
        (p.from.lerp(&p.to, p.num, p.den), r, s.from.lerp(&s.to, s.num, s.den))
    }
}


/// A track with a single keyframe yields that keyframe's value, whatever the
/// cursor and the progress are.
pub proof fn law_single_keyframe_holds(
    animation: AnimationView,
    s: AnimationStateView,
    base: (Point3, UnitQuaternion, Vector3),
)
    ensures
        animation.pos_track.len() == 1 ==> pose_spec(animation, s, base).0
            == animation.pos_track[0].1,
        animation.rot_track.len() == 1 ==> pose_spec(animation, s, base).1 == hold(
            animation.rot_track[0].1,
        ),
        animation.scale_track.len() == 1 ==> pose_spec(animation, s, base).2
            == animation.scale_track[0].1,
{
    if animation.pos_track.len() == 1 {
        let p = animation.pos_track[0].1;
        lemma_lerp_between(p.x as int, p.x as int, 0, 1);
        lemma_lerp_between(p.y as int, p.y as int, 0, 1);
        lemma_lerp_between(p.z as int, p.z as int, 0, 1);
    }
    if animation.scale_track.len() == 1 {
        let v = animation.scale_track[0].1;
        lemma_lerp_between(v.x as int, v.x as int, 0, 1);
        lemma_lerp_between(v.y as int, v.y as int, 0, 1);
        lemma_lerp_between(v.z as int, v.z as int, 0, 1);
    }
}

/// After an advance the progress of an animation that plays once lies
/// within `0..=end`.
pub proof fn law_progress_in_range_once(animation: AnimationView, s: AnimationStateView, dt: nat)
    requires
        s.once,
    ensures
        advance_spec(animation, s, dt).animation_progress <= animation.end,
{
}

/// After an advance the progress of a looping animation of some length lies
/// within `0..end`, unless the time added up exactly to a whole number of
/// rounds: then it rests on `end`.
pub proof fn law_progress_in_range_looping(animation: AnimationView, s: AnimationStateView, dt: nat)
    requires
        !s.once,
        animation.end > 0,
    ensures
        advance_spec(animation, s, dt).animation_progress <= animation.end,
        advance_spec(animation, s, dt).animation_progress == animation.end <==> s.base_progress() + dt
            > 0 && (s.base_progress() + dt) % (animation.end as nat) == 0,
{
    let total = (s.base_progress() + dt) as int;
    let end = animation.end as int;
    if total > end {
        lemma_wrap(total, end);
    } else if total == end {
        vstd::arithmetic::div_mod::lemma_mod_self_0(end);
    } else {
        vstd::arithmetic::div_mod::lemma_small_mod(total as nat, end as nat);
    }
}

/// For `total > end > 0`: carrying `total` back by `end` as often as `wraps`
/// says leaves a rest within `1..=end`, which is `end` just when `end`
/// divides `total`; and `wraps` is the quotient of `total` by `end`, less one
/// when `end` divides `total`.
proof fn lemma_wrap(total: int, end: int)
    requires
        0 < end < total,
    ensures
        0 < total - wraps(total as nat, end as nat) * end <= end,
        total % end != 0 ==> total - wraps(total as nat, end as nat) * end < end,
        total % end != 0 ==> wraps(total as nat, end as nat) == total / end,
        total % end == 0 ==> wraps(total as nat, end as nat) == total / end - 1,
        total % end == 0 ==> total - wraps(total as nat, end as nat) * end == end,
{
    let k = (total - 1) / end;
    vstd::arithmetic::div_mod::lemma_fundamental_div_mod(total - 1, end);
    vstd::arithmetic::div_mod::lemma_mod_pos_bound(total - 1, end);
    vstd::arithmetic::div_mod::lemma_fundamental_div_mod(total, end);
    vstd::arithmetic::div_mod::lemma_mod_pos_bound(total, end);
    vstd::arithmetic::div_mod::lemma_div_pos_is_pos(total - 1, end);
    let r = (total - 1) % end;
    assert(total - 1 == end * k + r);
    assert(end * k == k * end) by (nonlinear_arith);
    let q = total / end;
    let m = total % end;
    assert(total == end * q + m);
    // total = end * k + (r + 1) with 1 <= r + 1 <= end.
    if r + 1 < end {
        vstd::arithmetic::div_mod::lemma_fundamental_div_mod_converse(total, end, k, r + 1);
    } else {
        assert(end * (k + 1) == end * k + end) by (nonlinear_arith);
        vstd::arithmetic::div_mod::lemma_fundamental_div_mod_converse(total, end, k + 1, 0);
    }
}

/// Advancing by no time twice leaves the state that advancing by no time once
/// leaves, in every field.
pub proof fn law_zero_advance_idempotent(animation: AnimationView, s: AnimationStateView)
    ensures
        advance_spec(animation, advance_spec(animation, s, 0), 0) == advance_spec(animation, s, 0),
{
    let once = advance_spec(animation, s, 0);
    let total = s.base_progress() as int;
    let end = animation.end as int;
    if !s.once && end > 0 && total > end {
        lemma_wrap(total, end);
    }
    let restart = total > end && !s.once;
    lemma_advance_cursor_idempotent(
        animation.pos_track,
        if restart { 0 } else { s.base_cursor(s.pos_frame_idx) },
        once.animation_progress,
    );
    lemma_advance_cursor_idempotent(
        animation.rot_track,
        if restart { 0 } else { s.base_cursor(s.rot_frame_idx) },
        once.animation_progress,
    );
    lemma_advance_cursor_idempotent(
        animation.scale_track,
        if restart { 0 } else { s.base_cursor(s.scale_frame_idx) },
        once.animation_progress,
    );
}

/// The loop counter never falls: an advance adds to it what `rounds` says.
pub proof fn law_loop_count_grows(animation: AnimationView, s: AnimationStateView, dt: nat)
    ensures
        advance_spec(animation, s, dt).num_loops == s.num_loops + rounds(animation, s, dt),
        advance_spec(animation, s, dt).num_loops >= s.num_loops,
{
}

/// One advance of a looping animation of some length adds to the loop
/// counter as many loops as whole rounds lie between the progress before and
/// the progress before plus the time added, for a state that is not done and
/// whose progress lies on `end` just when the time adds up exactly to a whole
/// number of rounds.
pub proof fn law_loop_count(animation: AnimationView, s: AnimationStateView, dt: nat)
    requires
        !s.once,
        !s.base_done(),
        animation.end > 0,
        s.base_progress() <= animation.end,
        (s.base_progress() == animation.end) == (s.base_progress() + dt > 0 && (s.base_progress()
            + dt) % (animation.end as nat) == 0),
    ensures
        advance_spec(animation, s, dt).num_loops == s.num_loops + (s.base_progress() + dt) / (
        animation.end as nat) - s.base_progress() / (animation.end as nat),
{
    let before = s.base_progress() as int;
    let total = before + dt;
    let end = animation.end as int;
    assert((s.base_progress() + dt) % (animation.end as nat) == total % end);
    assert((s.base_progress() + dt) / (animation.end as nat) == total / end);
    assert(s.base_progress() / (animation.end as nat) == before / end);
    if before == end {
        vstd::arithmetic::div_mod::lemma_div_basics(end);
        assert(before / end == 1);
    } else {
        vstd::arithmetic::div_mod::lemma_basic_div(before, end);
        assert(before / end == 0);
    }
    if total > end {
        lemma_wrap(total, end);
    } else if total == end {
        vstd::arithmetic::div_mod::lemma_div_basics(end);
        vstd::arithmetic::div_mod::lemma_mod_self_0(end);
        assert(total / end == 1);
        assert(total % end == 0);
    } else {
        vstd::arithmetic::div_mod::lemma_basic_div(total, end);
        assert(total / end == 0);
    }
}

/// Animations by name.
#[derive(Debug)]
pub struct AnimationSet {
    names: Vec<String>,
    animations: Vec<Animation>,
}

impl View for AnimationSet {
    type V = Map<Seq<char>, AnimationView>;

    closed spec fn view(&self) -> Map<Seq<char>, AnimationView> {
        Map::new(
            |name: Seq<char>| self.has(name),
            |name: Seq<char>| self.animations[self.slot(name)]@,
        )
    }
}

impl AnimationSet {
    /// Each name has its animation, and no name stands twice.
    pub closed spec fn wf(&self) -> bool {
        &&& self.names.len() == self.animations.len()
        &&& forall|i: int, j: int|
            0 <= i < j < self.names.len() ==> self.names[i]@ != self.names[j]@
    }

    spec fn has(&self, name: Seq<char>) -> bool {
        exists|i: int| 0 <= i < self.names.len() && self.names[i]@ == name
    }

    spec fn slot(&self, name: Seq<char>) -> int {
        choose|i: int| 0 <= i < self.names.len() && self.names[i]@ == name
    }

    pub fn new() -> (s: Self)
        ensures
            s.wf(),
            s@ == Map::<Seq<char>, AnimationView>::empty(),
    {
        let s = AnimationSet { names: Vec::new(), animations: Vec::new() };
        assert(s@ =~= Map::<Seq<char>, AnimationView>::empty());
        s
    }

    /// Where `name` stands, if it does.
    fn find(&self, name: &str) -> (r: Option<usize>)
        requires
            self.wf(),
        ensures
            r matches Some(i) ==> i < self.names.len() && self.names[i as int]@ == name@ && self.has(
                name@,
            ) && self.slot(name@) == i,
            r is None ==> !self.has(name@),
    {
        let wanted: String = name.to_string();
        let mut i: usize = 0;
        while i < self.names.len()
            invariant
                self.wf(),
                i <= self.names.len(),
                wanted@ == name@,
                forall|j: int| 0 <= j < i ==> self.names[j]@ != name@,
            decreases self.names.len() - i,
        {
            if self.names[i] == wanted {
                assert(self.names[i as int]@ == name@);
                assert(self.has(name@));
                return Some(i);
            }
            i += 1;
        }
        None
    }

    pub fn contains_key(&self, name: &str) -> (b: bool)
        requires
            self.wf(),
        ensures
            b == self@.contains_key(name@),
    {
        self.find(name).is_some()
    }

    /// The animation of that name.
    pub fn get(&self, name: &str) -> (r: Option<&Animation>)
        requires
            self.wf(),
        ensures
            r matches Some(a) ==> self@.contains_key(name@) && a@ == self@[name@],
            r is None ==> !self@.contains_key(name@),
    {
        match self.find(name) {
            Some(i) => Some(&self.animations[i]),
            None => None,
        }
    }

    /// Puts `animation` under `name`, in place of what stood there.
    pub fn insert(&mut self, name: String, animation: Animation)
        requires
            old(self).wf(),
        ensures
            final(self).wf(),
            final(self)@ == old(self)@.insert(name@, animation@),
    {
        let ghost before = *self;
        match self.find(name.as_str()) {
            Some(i) => {
                self.animations.set(i, animation);
                proof {
                    assert forall|n: Seq<char>| self.has(n) == before.has(n) by {
                        if before.has(n) {
                            assert(self.names[before.slot(n)]@ == n);
                        }
                        if self.has(n) {
                            assert(before.names[self.slot(n)]@ == n);
                        }
                    }
                    assert forall|n: Seq<char>| self.has(n) implies self.slot(n) == before.slot(n) by {
                        assert(before.has(n));
                    }
                }
            },
            None => {
                self.names.push(name);
                self.animations.push(animation);
                proof {
                    assert(self.names[before.names.len() as int]@ == name@);
                    assert forall|n: Seq<char>| self.has(n) == (before.has(n) || n == name@) by {
                        if before.has(n) {
                            assert(self.names[before.slot(n)]@ == n);
                        }
                        if self.has(n) && n != name@ {
                            assert(before.names[self.slot(n)]@ == n);
                        }
                    }
                    assert forall|n: Seq<char>| before.has(n) implies self.slot(n) == before.slot(n) by {
                        assert(self.names[before.slot(n)]@ == n);
                    }
                }
            },
        }
        assert(self@ =~= before@.insert(name@, animation@));
    }
}


/// An animation that holds nothing but a position track.
pub open spec fn only_pos_track(track: Seq<(u64, Point3)>) -> AnimationView {
    AnimationView {
        start: 0,
        end: 0,
        pos_track: track,
        rot_track: Seq::empty(),
        scale_track: Seq::empty(),
    }
}

/// An animation that holds nothing but a rotation track.
pub open spec fn only_rot_track(track: Seq<(u64, UnitQuaternion)>) -> AnimationView {
    AnimationView {
        start: 0,
        end: 0,
        pos_track: Seq::empty(),
        rot_track: track,
        scale_track: Seq::empty(),
    }
}

/// An animation that holds nothing but a scale track.
pub open spec fn only_scale_track(track: Seq<(u64, Vector3)>) -> AnimationView {
    AnimationView {
        start: 0,
        end: 0,
        pos_track: Seq::empty(),
        rot_track: Seq::empty(),
        scale_track: track,
    }
}

impl AnimationSet {
    /// Gives the animation `name` the position track `track`; an animation
    /// that is not there yet comes to be, with that track alone.
    pub fn set_pos_track(&mut self, name: &str, track: Vec<(u64, Point3)>)
        requires
            old(self).wf(),
        ensures
            final(self).wf(),
            final(self)@ == old(self)@.insert(
                name@,
                if old(self)@.contains_key(name@) {
                    AnimationView { pos_track: track@, ..old(self)@[name@] }
                } else {
                    only_pos_track(track@)
                },
            ),
    {
        let updated: Animation = match self.get(name) {
            Some(a) => Animation {
                start: a.start,
                end: a.end,
                pos_track: track,
                rot_track: copy_track(&a.rot_track),
                scale_track: copy_track(&a.scale_track),
            },
            None => Animation::new(track, Vec::new(), Vec::new()),
        };
        self.insert(name.to_string(), updated);
    }

    /// Gives the animation `name` the rotation track `track`; an animation
    /// that is not there yet comes to be, with that track alone.
    pub fn set_rot_track(&mut self, name: &str, track: Vec<(u64, UnitQuaternion)>)
        requires
            old(self).wf(),
        ensures
            final(self).wf(),
            final(self)@ == old(self)@.insert(
                name@,
                if old(self)@.contains_key(name@) {
                    AnimationView { rot_track: track@, ..old(self)@[name@] }
                } else {
                    only_rot_track(track@)
                },
            ),
    {
        let updated: Animation = match self.get(name) {
            Some(a) => Animation {
                start: a.start,
                end: a.end,
                pos_track: copy_track(&a.pos_track),
                rot_track: track,
                scale_track: copy_track(&a.scale_track),
            },
            None => Animation::new(Vec::new(), track, Vec::new()),
        };
        self.insert(name.to_string(), updated);
    }

    /// Gives the animation `name` the scale track `track`; an animation that
    /// is not there yet comes to be, with that track alone.
    pub fn set_scale_track(&mut self, name: &str, track: Vec<(u64, Vector3)>)
        requires
            old(self).wf(),
        ensures
            final(self).wf(),
            final(self)@ == old(self)@.insert(
                name@,
                if old(self)@.contains_key(name@) {
                    AnimationView { scale_track: track@, ..old(self)@[name@] }
                } else {
                    only_scale_track(track@)
                },
            ),
    {
        let updated: Animation = match self.get(name) {
            Some(a) => Animation {
                start: a.start,
                end: a.end,
                pos_track: copy_track(&a.pos_track),
                rot_track: copy_track(&a.rot_track),
                scale_track: track,
            },
            None => Animation::new(Vec::new(), Vec::new(), track),
        };
        self.insert(name.to_string(), updated);
    }

    /// Computes the span of every animation.
    pub fn compute_start_end(&mut self)
        requires
            old(self).wf(),
        ensures
            final(self).wf(),
            final(self)@.dom() == old(self)@.dom(),
            forall|name: Seq<char>|
                old(self)@.contains_key(name) ==> #[trigger] final(self)@[name] == old(
                    self,
                )@[name].spanned(),
    {
        let ghost before = *self;
        let mut i: usize = 0;
        while i < self.animations.len()
            invariant
                before.wf(),
                self.names == before.names,
                self.animations.len() == before.animations.len(),
                i <= self.animations.len(),
                forall|j: int| 0 <= j < i ==> (#[trigger] self.animations[j])@ == before.animations[j]@.spanned(),
                forall|j: int|
                    i <= j < self.animations.len() ==> (#[trigger] self.animations[j]) == before.animations[j],
            decreases self.animations.len() - i,
        {
            self.animations[i].compute_start_end();
            i += 1;
        }
        proof {
            assert forall|n: Seq<char>| self.has(n) == before.has(n) by {}
            assert(self@.dom() =~= before@.dom());
        }
    }

    /// A copy of the set.
    pub fn duplicate(&self) -> (r: Self)
        requires
            self.wf(),
        ensures
            r.wf(),
            r@ == self@,
    {
        let mut names: Vec<String> = Vec::new();
        let mut animations: Vec<Animation> = Vec::new();
        let mut i: usize = 0;
        while i < self.names.len()
            invariant
                self.wf(),
                i <= self.names.len(),
                names.len() == i,
                animations.len() == i,
                forall|j: int| 0 <= j < i ==> (#[trigger] names[j])@ == self.names[j]@,
                forall|j: int| 0 <= j < i ==> (#[trigger] animations[j])@ == self.animations[j]@,
            decreases self.names.len() - i,
        {
            names.push(self.names[i].clone());
            animations.push(self.animations[i].duplicate());
            i += 1;
        }
        let r = AnimationSet { names: names, animations: animations };
        proof {
            assert forall|n: Seq<char>| r.has(n) == self.has(n) by {
                if self.has(n) {
                    assert(r.names[self.slot(n)]@ == n);
                }
                if r.has(n) {
                    assert(self.names[r.slot(n)]@ == n);
                }
            }
            assert forall|n: Seq<char>| self.has(n) implies r.slot(n) == self.slot(n) by {
                assert(r.has(n));
                assert(self.names[r.slot(n)]@ == n);
            }
            assert(r@ =~= self@);
        }
        r
    }
}

} // verus!
