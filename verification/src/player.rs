//! Channels (ordered sequences of interpolation segments with a precomputed
//! total duration) and players (per-bone, per-attribute playback cursors that
//! advance through a channel, wrap around when looping, and terminate when
//! not).

use vstd::prelude::*;
use crate::interpolation::{lerp4, Line, Vec4};

verus! {

/// Upper bound on a channel's total duration and on a player's resting local
/// time, so that per-tick arithmetic on `u64` ticks can never overflow.
pub const MAX_TIME: u64 = 0xffff_ffff;

/// Total playback time of a sequence of segments.
pub open spec fn sum_lens(lines: Seq<Line>) -> int
    decreases lines.len(),
{
    if lines.len() == 0 {
        0
    } else {
        sum_lens(lines.drop_last()) + lines.last().length
    }
}

/// Every segment window has a positive length.
pub open spec fn lines_wf(lines: Seq<Line>) -> bool {
    forall|i: int| 0 <= i < lines.len() ==> (#[trigger] lines[i]).wf()
}

pub proof fn lemma_sum_lens_take_succ(lines: Seq<Line>, i: int)
    requires
        0 <= i < lines.len(),
    ensures
        sum_lens(lines.take(i + 1)) == sum_lens(lines.take(i)) + lines[i].length,
{
    assert(lines.take(i + 1).drop_last() =~= lines.take(i));
    assert(lines.take(i + 1).last() == lines[i]);
}

pub proof fn lemma_sum_lens_bounds(lines: Seq<Line>)
    requires
        lines_wf(lines),
    ensures
        sum_lens(lines) >= lines.len(),
        forall|i: int| 0 <= i < lines.len() ==> #[trigger] lines[i].length <= sum_lens(lines),
    decreases lines.len(),
{
    if lines.len() > 0 {
        lemma_sum_lens_bounds(lines.drop_last());
        assert forall|i: int| 0 <= i < lines.len() implies #[trigger] lines[i].length
            <= sum_lens(lines) by {
            if i < lines.len() - 1 {
                assert(lines.drop_last()[i] == lines[i]);
            }
        }
    }
}

/// An immutable ordered sequence of segments for one bone's one motion
/// attribute, together with its total duration, kept equal to the sum of the
/// member segment lengths so that loop wrap-around never has to re-sum.
#[derive(Debug)]
pub struct Channel {
    pub lines: Vec<Line>,
    pub duration: u64,
}

impl Channel {
    pub open spec fn wf(self) -> bool {
        &&& lines_wf(self.lines@)
        &&& self.lines@.len() >= 1
        &&& self.duration == sum_lens(self.lines@)
        &&& self.duration <= MAX_TIME
    }

    /// Build a channel from its segments, computing the total duration.
    /// Rejects an empty sequence, a zero-length segment, and a total
    /// duration beyond `MAX_TIME`: all malformed authoring data.
    pub fn new(lines: Vec<Line>) -> (r: Option<Channel>)
        ensures
            match r {
                Some(c) => {
                    &&& c.wf()
                    &&& c.lines@ == lines@
                    &&& lines@.len() >= 1
                    &&& sum_lens(lines@) <= MAX_TIME
                    &&& lines_wf(lines@)
                },
                None => !(lines@.len() >= 1 && sum_lens(lines@) <= MAX_TIME && lines_wf(
                    lines@,
                )),
            },
    {
        if lines.len() == 0 {
            return None;
        }
        let mut duration: u64 = 0;
        let mut i: usize = 0;
        while i < lines.len()
            invariant
                0 <= i <= lines@.len(),
                duration == sum_lens(lines@.take(i as int)),
                duration <= MAX_TIME,
                lines_wf(lines@.take(i as int)),
            decreases lines@.len() - i,
        {
            let line = lines[i];
            proof {
                lemma_sum_lens_take_succ(lines@, i as int);
                assert(lines@.take(i as int + 1)[i as int] == lines@[i as int]);
                assert(forall|j: int| 0 <= j < i ==> lines@.take(i as int + 1)[j] == #[trigger] lines@.take(i as int)[j]);
            }
            if line.length == 0 {
                proof {
                    assert(!lines_wf(lines@));
                }
                return None;
            }
            if line.length > MAX_TIME - duration {
                proof {
                    lemma_sum_lens_monotonic(lines@, i as int + 1);
                }
                return None;
            }
            duration = duration + line.length;
            i = i + 1;
        }
        proof {
            assert(lines@.take(lines@.len() as int) =~= lines@);
        }
        Some(Channel { lines, duration })
    }
}

/// A prefix sum never exceeds the full sum (segment lengths are unsigned).
pub proof fn lemma_sum_lens_monotonic(lines: Seq<Line>, i: int)
    requires
        0 <= i <= lines.len(),
    ensures
        sum_lens(lines.take(i)) <= sum_lens(lines),
    decreases lines.len() - i,
{
    if i < lines.len() {
        lemma_sum_lens_take_succ(lines, i);
        lemma_sum_lens_monotonic(lines, i + 1);
    } else {
        assert(lines.take(i) =~= lines);
    }
}

impl Clone for Channel {
    /// A clone carries the same segments and duration; channels are shared
    /// by value between however many players replay the same motion.
    fn clone(&self) -> (res: Self)
        ensures
            res.lines@ == self.lines@,
            res.duration == self.duration,
    {
        let mut lines: Vec<Line> = Vec::new();
        let mut i: usize = 0;
        while i < self.lines.len()
            invariant
                0 <= i <= self.lines@.len(),
                lines@ == self.lines@.take(i as int),
            decreases self.lines@.len() - i,
        {
            lines.push(self.lines[i]);
            proof {
                assert(lines@ =~= self.lines@.take(i as int + 1));
            }
            i = i + 1;
        }
        proof {
            assert(self.lines@.take(self.lines@.len() as int) =~= self.lines@);
        }
        Channel { lines, duration: self.duration }
    }
}

/// The result of advancing a playback cursor: where the cursor lands, what
/// value it yields, and whether it is still playing.
pub struct PlayState {
    pub idx: int,
    pub time: int,
    pub value: Option<Vec4>,
    pub playing: bool,
}

/// The playback step relation, as a function: starting at segment `idx` with
/// local time `time`, find the segment the time falls into, carrying the
/// overshoot from one window into the next. Walking off the end either wraps
/// to segment `0` (looping: a full traversal has already deducted one whole
/// channel duration from the carried time, so the residual phase is kept) or
/// stops playing (the cursor comes to rest at segment `0`, time `0`).
pub open spec fn advance(lines: Seq<Line>, looping: bool, idx: int, time: int) -> PlayState
    decreases time, (if idx >= lines.len() { 1int } else { 0int }), lines.len() - idx,
        when 0 <= idx && 0 <= time && lines_wf(lines) && lines.len() >= 1
{
    if idx < lines.len() {
        if time <= lines[idx].length {
            PlayState {
                idx,
                time,
                value: Some(
                    lerp4(lines[idx].start, lines[idx].end, time, lines[idx].length as int),
                ),
                playing: true,
            }
        } else {
            advance(lines, looping, idx + 1, time - lines[idx].length)
        }
    } else if looping {
        advance(lines, looping, 0, time)
    } else {
        PlayState { idx: 0, time: 0, value: None, playing: false }
    }
}

/// Where `advance` can land: inside a segment window while still playing,
/// or at rest.
pub proof fn lemma_advance_bounds(lines: Seq<Line>, looping: bool, idx: int, time: int)
    requires
        0 <= idx,
        0 <= time,
        lines_wf(lines),
        lines.len() >= 1,
    ensures
        ({
            let res = advance(lines, looping, idx, time);
            &&& res.playing ==> 0 <= res.idx < lines.len() && 0 <= res.time <= lines[res.idx].length
                && res.value is Some
            &&& !res.playing ==> res.idx == 0 && res.time == 0 && res.value is None
        }),
    decreases time, (if idx >= lines.len() { 1int } else { 0int }), lines.len() - idx,
{
    if idx < lines.len() {
        if time <= lines[idx].length {
        } else {
            lemma_advance_bounds(lines, looping, idx + 1, time - lines[idx].length);
        }
    } else if looping {
        lemma_advance_bounds(lines, looping, 0, time);
    }
}

/// Total playback time of the segments `a .. b` of a channel.
pub open spec fn range_sum(lines: Seq<Line>, a: int, b: int) -> int
    recommends
        0 <= a <= b <= lines.len(),
{
    sum_lens(lines.subrange(a, b))
}

pub proof fn lemma_sum_lens_nonneg(lines: Seq<Line>)
    ensures
        sum_lens(lines) >= 0,
    decreases lines.len(),
{
    if lines.len() > 0 {
        lemma_sum_lens_nonneg(lines.drop_last());
    }
}

pub proof fn lemma_range_sum_last(lines: Seq<Line>, a: int, b: int)
    requires
        0 <= a < b <= lines.len(),
    ensures
        range_sum(lines, a, b) == range_sum(lines, a, b - 1) + lines[b - 1].length,
{
    assert(lines.subrange(a, b).drop_last() =~= lines.subrange(a, b - 1));
    assert(lines.subrange(a, b).last() == lines[b - 1]);
}

pub proof fn lemma_range_sum_split(lines: Seq<Line>, a: int, m: int, b: int)
    requires
        0 <= a <= m <= b <= lines.len(),
    ensures
        range_sum(lines, a, b) == range_sum(lines, a, m) + range_sum(lines, m, b),
    decreases b - m,
{
    if m == b {
        assert(lines.subrange(m, b) =~= Seq::<Line>::empty());
    } else {
        lemma_range_sum_split(lines, a, m, b - 1);
        lemma_range_sum_last(lines, a, b);
        lemma_range_sum_last(lines, m, b);
        lemma_range_sum_last(lines, a, b);
    }
}

pub proof fn lemma_range_sum_front(lines: Seq<Line>, a: int, b: int)
    requires
        0 <= a < b <= lines.len(),
    ensures
        range_sum(lines, a, b) == lines[a].length + range_sum(lines, a + 1, b),
{
    lemma_range_sum_split(lines, a, a + 1, b);
    lemma_range_sum_last(lines, a, a + 1);
    assert(lines.subrange(a, a) =~= Seq::<Line>::empty());
}

pub proof fn lemma_range_sum_whole(lines: Seq<Line>)
    ensures
        range_sum(lines, 0, lines.len() as int) == sum_lens(lines),
{
    assert(lines.subrange(0, lines.len() as int) =~= lines);
}

/// How the playback walk from position `idx` with carried time `t` ends:
/// while `t` fits inside the remaining segments it lands in one of them with
/// the time split exactly between the passed windows and the landing window;
/// past them, a non-looping walk stops and a looping walk re-enters at
/// segment `0` with exactly the remaining time.
pub proof fn lemma_advance_walk(lines: Seq<Line>, looping: bool, idx: int, t: int)
    requires
        lines_wf(lines),
        lines.len() >= 1,
        0 <= idx <= lines.len(),
        0 <= t,
    ensures
        ({
            let res = advance(lines, looping, idx, t);
            &&& (idx < lines.len() && t <= range_sum(lines, idx, lines.len() as int)) ==> {
                &&& res.playing
                &&& idx <= res.idx < lines.len()
                &&& 0 <= res.time <= lines[res.idx].length
                &&& range_sum(lines, idx, res.idx) + res.time == t
                &&& forall|j: int| idx <= j < res.idx ==> t > #[trigger] range_sum(
                    lines,
                    idx,
                    j + 1,
                )
            }
            &&& (t > range_sum(lines, idx, lines.len() as int) && !looping) ==> !res.playing
            &&& (t > range_sum(lines, idx, lines.len() as int) && looping) ==> res == advance(
                lines,
                looping,
                0,
                t - range_sum(lines, idx, lines.len() as int),
            )
        }),
    decreases lines.len() - idx,
{
    let len = lines.len() as int;
    if idx == len {
        assert(lines.subrange(idx, len) =~= Seq::<Line>::empty());
    } else {
        assert(lines.subrange(idx, idx) =~= Seq::<Line>::empty());
        lemma_range_sum_front(lines, idx, len);
        if t <= lines[idx].length {
            lemma_sum_lens_nonneg(lines.subrange(idx + 1, len));
        } else {
            lemma_advance_walk(lines, looping, idx + 1, t - lines[idx].length);
            let res = advance(lines, looping, idx, t);
            if t <= range_sum(lines, idx, len) {
                assert forall|j: int| idx <= j < res.idx implies t > #[trigger] range_sum(
                    lines,
                    idx,
                    j + 1,
                ) by {
                    if j > idx {
                        lemma_range_sum_front(lines, idx, j + 1);
                    } else {
                        lemma_range_sum_front(lines, idx, idx + 1);
                        assert(lines.subrange(idx + 1, idx + 1) =~= Seq::<Line>::empty());
                    }
                }
                if res.idx > idx {
                    lemma_range_sum_front(lines, idx, res.idx);
                }
            }
        }
    }
}

/// A per-attribute playback cursor. `Idle` is `channel == None`: the player
/// produces no value until a channel is assigned again.
#[derive(Debug)]
pub struct Player {
    pub looping: bool,
    pub channel: Option<Channel>,
    pub idx: usize,
    pub time: u64,
}

/// What one `play` call does, as a function of the starting player state and
/// the tick delta.
pub open spec fn play_spec(p: Player, delta: int) -> (Player, Option<Vec4>) {
    match p.channel {
        None => (p, None::<Vec4>),
        Some(c) => {
            let res = advance(c.lines@, p.looping, p.idx as int, p.time + delta);
            (
                Player {
                    looping: p.looping,
                    channel: if res.playing {
                        Some(c)
                    } else {
                        None::<Channel>
                    },
                    idx: res.idx as usize,
                    time: res.time as u64,
                },
                res.value,
            )
        },
    }
}

impl Player {
    pub open spec fn wf(self) -> bool {
        &&& self.time <= MAX_TIME
        &&& match self.channel {
            Some(c) => c.wf(),
            None => true,
        }
    }

    /// A fresh idle player.
    pub fn new() -> (r: Player)
        ensures
            r == (Player { looping: false, channel: None::<Channel>, idx: 0, time: 0 }),
            r.wf(),
    {
        Player { looping: false, channel: None, idx: 0, time: 0 }
    }

    /// Advance by `delta` ticks and sample: the value the channel yields at
    /// the new local time, or `None` once a non-looping channel has run out
    /// (the channel is dropped at that point, and the cursor rests at
    /// segment `0`, time `0`).
    #[verifier::loop_isolation(false)]
    pub fn play(&mut self, delta: u64) -> (r: Option<Vec4>)
        requires
            old(self).wf(),
            delta <= MAX_TIME,
        ensures
            final(self).wf(),
            (*final(self), r) == play_spec(*old(self), delta as int),
    {
        let c: Channel = match self.channel.take() {
            Some(c) => c,
            None => {
                return None;
            },
        };
        self.time = self.time + delta;
        proof {
            lemma_sum_lens_bounds(c.lines@);
        }
        loop
            invariant
                c.wf(),
                self.channel is None,
                self.looping == old(self).looping,
                self.idx <= usize::MAX,
                self.time <= old(self).time + delta,
                advance(c.lines@, self.looping, self.idx as int, self.time as int) == advance(
                    c.lines@,
                    old(self).looping,
                    old(self).idx as int,
                    old(self).time + delta,
                ),
            decreases self.time, (if self.idx >= c.lines@.len() { 1int } else { 0int }),
                c.lines@.len() - self.idx,
        {
            if self.idx < c.lines.len() {
                let line = c.lines[self.idx];
                match line.sample(self.time) {
                    Ok(v) => {
                        proof {
                            lemma_sum_lens_bounds(c.lines@);
                            assert(advance(c.lines@, self.looping, self.idx as int, self.time as int)
                                == PlayState {
                                idx: self.idx as int,
                                time: self.time as int,
                                value: Some(
                                    lerp4(line.start, line.end, self.time as int, line.length as int),
                                ),
                                playing: true,
                            });
                        }
                        self.channel = Some(c);
                        return Some(v);
                    },
                    Err(new_time) => {
                        self.time = new_time;
                        self.idx = self.idx + 1;
                    },
                }
            } else if self.looping {
                self.idx = 0;
            } else {
                proof {
                    assert(advance(c.lines@, self.looping, self.idx as int, self.time as int)
                        == PlayState { idx: 0, time: 0, value: None::<Vec4>, playing: false });
                }
                self.idx = 0;
                self.time = 0;
                return None;
            }
        }
    }

    /// The looping playback map is periodic: advancing a looping player by
    /// exactly one full channel duration returns its cursor (segment index
    /// and local time) to exactly where it was, and yields a value. The one
    /// excluded starting point is a local time of `0`, whose phase has a
    /// second representation (the end of the previous segment) that the
    /// cursor normalises to instead.
    pub proof fn lemma_looping_period(self, c: Channel)
        requires
            c.wf(),
            self.channel == Some(c),
            self.looping,
            (self.idx as int) < c.lines@.len(),
            0 < self.time <= c.lines@[self.idx as int].length,
        ensures
            play_spec(self, c.duration as int).0 == self,
            play_spec(self, c.duration as int).1 is Some,
    {
        let lines = c.lines@;
        let len = lines.len() as int;
        let idx = self.idx as int;
        let time = self.time as int;
        let dur = c.duration as int;
        lemma_range_sum_whole(lines);
        lemma_range_sum_split(lines, 0, idx, len);
        lemma_sum_lens_nonneg(lines.subrange(0, idx));
        lemma_sum_lens_nonneg(lines.subrange(idx, len));
        lemma_advance_walk(lines, true, idx, time + dur);
        let t0 = time + range_sum(lines, 0, idx);
        assert(advance(lines, true, idx, time + dur) == advance(lines, true, 0, t0));
        lemma_range_sum_split(lines, 0, idx + 1, len);
        lemma_range_sum_last(lines, 0, idx + 1);
        lemma_sum_lens_nonneg(lines.subrange(idx + 1, len));
        lemma_advance_walk(lines, true, 0, t0);
        let res = advance(lines, true, 0, t0);
        assert(lines.subrange(0, 0) =~= Seq::<Line>::empty());
        if res.idx < idx {
            lemma_range_sum_last(lines, 0, res.idx + 1);
            lemma_range_sum_split(lines, 0, res.idx + 1, idx);
            lemma_sum_lens_nonneg(lines.subrange(res.idx + 1, idx));
            assert(false);
        }
        if res.idx > idx {
            assert(t0 > range_sum(lines, 0, idx + 1));
            assert(false);
        }
        lemma_advance_bounds(lines, true, idx, time + dur);
    }

    /// Assign a channel (replacing any existing one) and set the loop flag.
    /// The cursor is not reset here: that is the orchestration layer's step
    /// when a new animation starts.
    pub fn set_channel(&mut self, channel: &Channel, looping: bool)
        requires
            channel.wf(),
            old(self).wf(),
        ensures
            final(self).wf(),
            final(self).channel matches Some(c) && c.lines@ == channel.lines@ && c.duration
                == channel.duration,
            final(self).looping == looping,
            final(self).idx == old(self).idx,
            final(self).time == old(self).time,
    {
        self.channel = Some(channel.clone());
        self.looping = looping;
    }

    /// Rewind the cursor to the start of the channel.
    pub fn reset(&mut self)
        ensures
            *final(self) == (Player {
                looping: old(self).looping,
                channel: old(self).channel,
                idx: 0,
                time: 0,
            }),
            old(self).wf() ==> final(self).wf(),
    {
        self.idx = 0;
        self.time = 0;
    }

    /// Drop the channel immediately: the attribute stops moving and the
    /// player produces no value until reassigned.
    pub fn kill(&mut self)
        ensures
            *final(self) == (Player {
                looping: old(self).looping,
                channel: None::<Channel>,
                idx: old(self).idx,
                time: old(self).time,
            }),
            old(self).wf() ==> final(self).wf(),
    {
        self.channel = None;
    }
}

/// The scale attribute's value: a plain axes vector, kept as its own type so
/// a bone's scale player cannot be confused with its translation player.
#[derive(Clone, Copy, Debug, PartialEq, Eq, Structural)]
pub struct Scale {
    pub axes: Vec4,
}

impl Scale {
    pub fn new(axes: Vec4) -> (r: Scale)
        ensures
            r == (Scale { axes }),
    {
        Scale { axes }
    }

    /// Component-wise sum of two scales.
    pub fn add(self, rhs: Scale) -> (r: Scale)
        requires
            i32::MIN <= self.axes.x + rhs.axes.x <= i32::MAX,
            i32::MIN <= self.axes.y + rhs.axes.y <= i32::MAX,
            i32::MIN <= self.axes.z + rhs.axes.z <= i32::MAX,
            i32::MIN <= self.axes.w + rhs.axes.w <= i32::MAX,
        ensures
            r.axes.x == self.axes.x + rhs.axes.x,
            r.axes.y == self.axes.y + rhs.axes.y,
            r.axes.z == self.axes.z + rhs.axes.z,
            r.axes.w == self.axes.w + rhs.axes.w,
    {
        Scale {
            axes: Vec4 {
                x: self.axes.x + rhs.axes.x,
                y: self.axes.y + rhs.axes.y,
                z: self.axes.z + rhs.axes.z,
                w: self.axes.w + rhs.axes.w,
            },
        }
    }

    /// Component-wise scalar multiple of a scale.
    pub fn mul(self, rhs: i32) -> (r: Scale)
        requires
            i32::MIN <= self.axes.x * rhs <= i32::MAX,
            i32::MIN <= self.axes.y * rhs <= i32::MAX,
            i32::MIN <= self.axes.z * rhs <= i32::MAX,
            i32::MIN <= self.axes.w * rhs <= i32::MAX,
        ensures
            r.axes.x == self.axes.x * rhs,
            r.axes.y == self.axes.y * rhs,
            r.axes.z == self.axes.z * rhs,
            r.axes.w == self.axes.w * rhs,
    {
        Scale {
            axes: Vec4 {
                x: self.axes.x * rhs,
                y: self.axes.y * rhs,
                z: self.axes.z * rhs,
                w: self.axes.w * rhs,
            },
        }
    }
}

/// A bone's written-back pose: one value per motion attribute.
#[derive(Clone, Copy, Debug, PartialEq, Eq, Structural)]
pub struct Transform {
    pub translation: Vec4,
    pub rotation: Vec4,
    pub scale: Vec4,
}

impl Transform {
    pub fn new(translation: Vec4, rotation: Vec4, scale: Vec4) -> (r: Transform)
        ensures
            r == (Transform { translation, rotation, scale }),
    {
        Transform { translation, rotation, scale }
    }
}

/// One animated bone at runtime: its identity, its three per-attribute
/// players, and the transform the sampled values are written into.
#[derive(Debug)]
pub struct RigBone {
    pub entity: u64,
    pub translation: Player,
    pub rotation: Player,
    pub scale: Player,
    pub transform: Transform,
}

pub open spec fn rig_bones_wf(bones: Seq<RigBone>) -> bool {
    &&& forall|i: int| 0 <= i < bones.len() ==> (#[trigger] bones[i]).translation.wf()
        && bones[i].rotation.wf() && bones[i].scale.wf()
    &&& forall|i: int, j: int|
        #![trigger bones[i], bones[j]]
        0 <= i < j < bones.len() ==> bones[i].entity != bones[j].entity
}

/// The store of animated bones of one skeleton instance, looked up by bone
/// identity when an animation starts and walked whole every tick.
#[derive(Debug)]
pub struct Rig {
    pub bones: Vec<RigBone>,
}

impl Rig {
    pub open spec fn wf(self) -> bool {
        rig_bones_wf(self.bones@)
    }

    pub fn new() -> (r: Rig)
        ensures
            r.bones@.len() == 0,
            r.wf(),
    {
        Rig { bones: Vec::new() }
    }

    /// Add a bone with idle players and the given starting transform.
    /// Refused (returns `false`, rig unchanged) when the identity is
    /// already present.
    #[verifier::loop_isolation(false)]
    pub fn add_bone(&mut self, entity: u64, transform: Transform) -> (added: bool)
        requires
            old(self).wf(),
        ensures
            final(self).wf(),
            added <==> (forall|i: int| 0 <= i < old(self).bones@.len() ==> (
            #[trigger] old(self).bones@[i]).entity != entity),
            added ==> final(self).bones@ == old(self).bones@.push(
                RigBone {
                    entity,
                    translation: Player {
                        looping: false,
                        channel: None::<Channel>,
                        idx: 0,
                        time: 0,
                    },
                    rotation: Player { looping: false, channel: None::<Channel>, idx: 0, time: 0 },
                    scale: Player { looping: false, channel: None::<Channel>, idx: 0, time: 0 },
                    transform,
                },
            ),
            !added ==> *final(self) == *old(self),
    {
        let mut i: usize = 0;
        while i < self.bones.len()
            invariant
                *self == *old(self),
                0 <= i <= self.bones@.len(),
                forall|k: int| 0 <= k < i ==> (#[trigger] self.bones@[k]).entity != entity,
            decreases self.bones@.len() - i,
        {
            if self.bones[i].entity == entity {
                proof {
                    assert(old(self).bones@[i as int].entity == entity);
                }
                return false;
            }
            i = i + 1;
        }
        proof {
            assert(forall|k: int| 0 <= k < self.bones@.len() ==> (#[trigger] self.bones@[k]).entity
                != entity);
        }
        self.bones.push(
            RigBone {
                entity,
                translation: Player::new(),
                rotation: Player::new(),
                scale: Player::new(),
                transform,
            },
        );
        proof {
            let n = old(self).bones@.len() as int;
            assert(forall|k: int| 0 <= k < n ==> self.bones@[k] == #[trigger] old(self).bones@[k]);
            assert(self.bones@[n].translation.wf());
            assert(self.bones@[n].rotation.wf());
            assert(self.bones@[n].scale.wf());
            assert(rig_bones_wf(self.bones@));
        }
        true
    }
}

/// What one tick does to one bone's translation attribute: the player takes
/// one `play` step, and the sampled value, if any, lands in the transform.
pub open spec fn translation_step(ob: RigBone, nb: RigBone, delta: int) -> bool {
    let (p, v) = play_spec(ob.translation, delta);
    &&& nb.entity == ob.entity
    &&& nb.translation == p
    &&& nb.rotation == ob.rotation
    &&& nb.scale == ob.scale
    &&& nb.transform == (Transform {
        translation: if v is Some {
            v.unwrap()
        } else {
            ob.transform.translation
        },
        rotation: ob.transform.rotation,
        scale: ob.transform.scale,
    })
}

/// What one tick does to one bone's rotation attribute.
pub open spec fn rotation_step(ob: RigBone, nb: RigBone, delta: int) -> bool {
    let (p, v) = play_spec(ob.rotation, delta);
    &&& nb.entity == ob.entity
    &&& nb.rotation == p
    &&& nb.translation == ob.translation
    &&& nb.scale == ob.scale
    &&& nb.transform == (Transform {
        translation: ob.transform.translation,
        rotation: if v is Some {
            v.unwrap()
        } else {
            ob.transform.rotation
        },
        scale: ob.transform.scale,
    })
}

/// What one tick does to one bone's scale attribute.
pub open spec fn scale_step(ob: RigBone, nb: RigBone, delta: int) -> bool {
    let (p, v) = play_spec(ob.scale, delta);
    &&& nb.entity == ob.entity
    &&& nb.scale == p
    &&& nb.translation == ob.translation
    &&& nb.rotation == ob.rotation
    &&& nb.transform == (Transform {
        translation: ob.transform.translation,
        rotation: ob.transform.rotation,
        scale: if v is Some {
            v.unwrap()
        } else {
            ob.transform.scale
        },
    })
}

/// Advance every bone's translation player by `delta` and write each value
/// that is produced into that bone's transform.
#[verifier::loop_isolation(false)]
pub fn translation(rig: &mut Rig, delta: u64)
    requires
        old(rig).wf(),
        delta <= MAX_TIME,
    ensures
        final(rig).wf(),
        final(rig).bones@.len() == old(rig).bones@.len(),
        forall|i: int| 0 <= i < old(rig).bones@.len() ==> translation_step(
            #[trigger] old(rig).bones@[i],
            final(rig).bones@[i],
            delta as int,
        ),
{
    let mut i: usize = 0;
    while i < rig.bones.len()
        invariant
            0 <= i <= rig.bones@.len(),
            rig.bones@.len() == old(rig).bones@.len(),
            forall|k: int| 0 <= k < i ==> translation_step(
                #[trigger] old(rig).bones@[k],
                rig.bones@[k],
                delta as int,
            ),
            forall|k: int| i <= k < rig.bones@.len() ==> rig.bones@[k] == #[trigger] old(
                rig,
            ).bones@[k],
            rig_bones_wf(rig.bones@),
        decreases rig.bones@.len() - i,
    {
        proof {
            assert(rig.bones@[i as int] == old(rig).bones@[i as int]);
        }
        let bone = &mut rig.bones[i];
        let sampled = bone.translation.play(delta);
        match sampled {
            Some(v) => {
                bone.transform.translation = v;
            },
            None => {},
        }
        i = i + 1;
    }
}

/// Advance every bone's rotation player by `delta` and write each value
/// that is produced into that bone's transform.
#[verifier::loop_isolation(false)]
pub fn rotation(rig: &mut Rig, delta: u64)
    requires
        old(rig).wf(),
        delta <= MAX_TIME,
    ensures
        final(rig).wf(),
        final(rig).bones@.len() == old(rig).bones@.len(),
        forall|i: int| 0 <= i < old(rig).bones@.len() ==> rotation_step(
            #[trigger] old(rig).bones@[i],
            final(rig).bones@[i],
            delta as int,
        ),
{
    let mut i: usize = 0;
    while i < rig.bones.len()
        invariant
            0 <= i <= rig.bones@.len(),
            rig.bones@.len() == old(rig).bones@.len(),
            forall|k: int| 0 <= k < i ==> rotation_step(
                #[trigger] old(rig).bones@[k],
                rig.bones@[k],
                delta as int,
            ),
            forall|k: int| i <= k < rig.bones@.len() ==> rig.bones@[k] == #[trigger] old(
                rig,
            ).bones@[k],
            rig_bones_wf(rig.bones@),
        decreases rig.bones@.len() - i,
    {
        proof {
            assert(rig.bones@[i as int] == old(rig).bones@[i as int]);
        }
        let bone = &mut rig.bones[i];
        let sampled = bone.rotation.play(delta);
        match sampled {
            Some(v) => {
                bone.transform.rotation = v;
            },
            None => {},
        }
        i = i + 1;
    }
}

/// Advance every bone's scale player by `delta` and write each value that is
/// produced into that bone's transform.
#[verifier::loop_isolation(false)]
pub fn scale(rig: &mut Rig, delta: u64)
    requires
        old(rig).wf(),
        delta <= MAX_TIME,
    ensures
        final(rig).wf(),
        final(rig).bones@.len() == old(rig).bones@.len(),
        forall|i: int| 0 <= i < old(rig).bones@.len() ==> scale_step(
            #[trigger] old(rig).bones@[i],
            final(rig).bones@[i],
            delta as int,
        ),
{
    let mut i: usize = 0;
    while i < rig.bones.len()
        invariant
            0 <= i <= rig.bones@.len(),
            rig.bones@.len() == old(rig).bones@.len(),
            forall|k: int| 0 <= k < i ==> scale_step(
                #[trigger] old(rig).bones@[k],
                rig.bones@[k],
                delta as int,
            ),
            forall|k: int| i <= k < rig.bones@.len() ==> rig.bones@[k] == #[trigger] old(
                rig,
            ).bones@[k],
            rig_bones_wf(rig.bones@),
        decreases rig.bones@.len() - i,
    {
        proof {
            assert(rig.bones@[i as int] == old(rig).bones@[i as int]);
        }
        let bone = &mut rig.bones[i];
        let sampled = bone.scale.play(delta);
        match sampled {
            Some(v) => {
                bone.transform.scale = v;
            },
            None => {},
        }
        i = i + 1;
    }
}


/// Pointwise per-tick relation for the translation pass over a whole rig.
pub open spec fn translation_rel(ob: Seq<RigBone>, nb: Seq<RigBone>, delta: int) -> bool {
    &&& nb.len() == ob.len()
    &&& forall|i: int| 0 <= i < ob.len() ==> translation_step(#[trigger] ob[i], nb[i], delta)
}

/// Pointwise per-tick relation for the rotation pass over a whole rig.
pub open spec fn rotation_rel(ob: Seq<RigBone>, nb: Seq<RigBone>, delta: int) -> bool {
    &&& nb.len() == ob.len()
    &&& forall|i: int| 0 <= i < ob.len() ==> rotation_step(#[trigger] ob[i], nb[i], delta)
}

/// Pointwise per-tick relation for the scale pass over a whole rig.
pub open spec fn scale_rel(ob: Seq<RigBone>, nb: Seq<RigBone>, delta: int) -> bool {
    &&& nb.len() == ob.len()
    &&& forall|i: int| 0 <= i < ob.len() ==> scale_step(#[trigger] ob[i], nb[i], delta)
}

/// Sum of a sequence of tick deltas.
pub open spec fn sum_deltas(deltas: Seq<int>) -> int
    decreases deltas.len(),
{
    if deltas.len() == 0 {
        0
    } else {
        sum_deltas(deltas.drop_last()) + deltas.last()
    }
}

/// The player state after feeding it a sequence of tick deltas, one `play`
/// call each.
pub open spec fn run_ticks(p: Player, deltas: Seq<int>) -> Player
    decreases deltas.len(),
{
    if deltas.len() == 0 {
        p
    } else {
        run_ticks(play_spec(p, deltas[0]).0, deltas.subrange(1, deltas.len() as int))
    }
}

pub proof fn lemma_run_ticks_snoc(p: Player, deltas: Seq<int>, d: int)
    ensures
        run_ticks(p, deltas.push(d)) == play_spec(run_ticks(p, deltas), d).0,
    decreases deltas.len(),
{
    if deltas.len() == 0 {
        assert(deltas.push(d)[0] == d);
        assert(deltas.push(d).subrange(1, 1) =~= Seq::<int>::empty());
        assert(run_ticks(p, deltas.push(d)) == run_ticks(
            play_spec(p, d).0,
            deltas.push(d).subrange(1, 1),
        ));
        assert(run_ticks(play_spec(p, d).0, deltas.push(d).subrange(1, 1)) == play_spec(p, d).0);
    } else {
        let n = deltas.len() as int;
        assert(deltas.push(d)[0] == deltas[0]);
        assert(deltas.push(d).subrange(1, n + 1) =~= deltas.subrange(1, n).push(d));
        lemma_run_ticks_snoc(play_spec(p, deltas[0]).0, deltas.subrange(1, n), d);
    }
}

pub proof fn lemma_sum_deltas_take_succ(deltas: Seq<int>, k: int)
    requires
        0 <= k < deltas.len(),
    ensures
        sum_deltas(deltas.subrange(0, k + 1)) == sum_deltas(deltas.subrange(0, k)) + deltas[k],
{
    assert(deltas.subrange(0, k + 1).drop_last() =~= deltas.subrange(0, k));
    assert(deltas.subrange(0, k + 1).last() == deltas[k]);
}

pub proof fn lemma_sum_deltas_nonneg(deltas: Seq<int>)
    requires
        forall|i: int| 0 <= i < deltas.len() ==> 0 <= #[trigger] deltas[i],
    ensures
        sum_deltas(deltas) >= 0,
    decreases deltas.len(),
{
    if deltas.len() > 0 {
        lemma_sum_deltas_nonneg(deltas.drop_last());
    }
}

/// Where a fresh non-looping player stands after a sequence of ticks: while
/// the cumulative delta is within the channel duration it is still playing,
/// its cursor exactly at the cumulative phase; one tick past the duration it
/// has come to rest.
proof fn lemma_nonlooping_run(c: Channel, deltas: Seq<int>)
    requires
        c.wf(),
        forall|i: int| 0 <= i < deltas.len() ==> 0 <= #[trigger] deltas[i],
    ensures
        ({
            let p0 = Player { looping: false, channel: Some(c), idx: 0, time: 0 };
            let p = run_ticks(p0, deltas);
            let s = sum_deltas(deltas);
            &&& s <= c.duration ==> {
                &&& p.channel == Some(c)
                &&& !p.looping
                &&& (p.idx as int) < c.lines@.len()
                &&& range_sum(c.lines@, 0, p.idx as int) + p.time == s
                &&& p.time <= c.lines@[p.idx as int].length
            }
            &&& s > c.duration ==> p == (Player {
                looping: false,
                channel: None::<Channel>,
                idx: 0,
                time: 0,
            })
        }),
    decreases deltas.len(),
{
    let p0 = Player { looping: false, channel: Some(c), idx: 0, time: 0 };
    let lines = c.lines@;
    let len = lines.len() as int;
    lemma_range_sum_whole(lines);
    lemma_sum_lens_bounds(lines);
    if deltas.len() == 0 {
        assert(lines.subrange(0, 0) =~= Seq::<Line>::empty());
    } else {
        let init = deltas.drop_last();
        let d = deltas.last();
        assert(d == deltas[deltas.len() - 1]);
        assert(0 <= d);
        lemma_nonlooping_run(c, init);
        assert(init.push(d) =~= deltas);
        lemma_run_ticks_snoc(p0, init, d);
        assert(run_ticks(p0, deltas) == play_spec(run_ticks(p0, init), d).0);
        let p = run_ticks(p0, init);
        let s = sum_deltas(init);
        lemma_sum_deltas_nonneg(init);
        if s <= c.duration {
            let idx = p.idx as int;
            let time = p.time as int;
            lemma_range_sum_split(lines, 0, idx, len);
            lemma_sum_lens_nonneg(lines.subrange(0, idx));
            lemma_advance_walk(lines, false, idx, time + d);
            lemma_advance_bounds(lines, false, idx, time + d);
            let res = advance(lines, false, idx, time + d);
            if s + d <= c.duration {
                lemma_range_sum_split(lines, 0, idx, res.idx);
            }
        }
    }
}

/// A non-looping player assigned a whole channel and fed any partition of
/// tick deltas yields a value on exactly the ticks whose cumulative delta is
/// still within the channel's total duration, and holds its channel exactly
/// that long: it goes idle on the first tick that carries the cumulative
/// delta past the duration.
pub proof fn lemma_nonlooping_partition(c: Channel, deltas: Seq<int>, k: int)
    requires
        c.wf(),
        forall|i: int| 0 <= i < deltas.len() ==> 0 <= #[trigger] deltas[i],
        0 <= k < deltas.len(),
    ensures
        ({
            let p0 = Player { looping: false, channel: Some(c), idx: 0, time: 0 };
            let before = run_ticks(p0, deltas.subrange(0, k));
            let cum = sum_deltas(deltas.subrange(0, k + 1));
            &&& (play_spec(before, deltas[k]).1 is Some <==> cum <= c.duration)
            &&& (play_spec(before, deltas[k]).0.channel is Some <==> cum <= c.duration)
        }),
{
    let p0 = Player { looping: false, channel: Some(c), idx: 0, time: 0 };
    let lines = c.lines@;
    let len = lines.len() as int;
    let pre = deltas.subrange(0, k);
    let d = deltas[k];
    assert(forall|i: int| 0 <= i < pre.len() ==> 0 <= #[trigger] pre[i]);
    lemma_nonlooping_run(c, pre);
    lemma_sum_deltas_take_succ(deltas, k);
    lemma_sum_deltas_nonneg(pre);
    let before = run_ticks(p0, pre);
    let s = sum_deltas(pre);
    lemma_range_sum_whole(lines);
    if s <= c.duration {
        let idx = before.idx as int;
        let time = before.time as int;
        lemma_range_sum_split(lines, 0, idx, len);
        lemma_advance_walk(lines, false, idx, time + d);
        lemma_advance_bounds(lines, false, idx, time + d);
    }
}

} // verus!
