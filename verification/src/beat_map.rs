//! The chart data model and the judgement engine.
//!
//! Difficulty scalars (approach rate, overall difficulty, circle size)
//! are held in tenths, so a scalar of 9.0 is stored as 90.  The hit
//! radius and the playfield scale are held in thousandths of a playfield
//! unit.  Times are milliseconds from the start of the track.

use vstd::prelude::*;

verus! {

/// Largest target time the loader accepts, in milliseconds.
pub const MAX_TIME: u64 = 1_000_000_000_000;

/// The outcome of one target: unjudged until a hit or a time-out
/// resolves it, then terminal.
#[derive(Clone, Copy, Debug, PartialEq, Eq, Structural)]
pub enum Score {
    Unjudged,
    Miss,
    Okay,
    Great,
    Perfect,
}

/// One timed target of a chart.
#[derive(Clone, Copy, Debug, PartialEq, Eq, Structural)]
pub struct HitObject {
    /// Scheduled instant, in milliseconds from track start.
    pub time: u64,
    /// Playfield x coordinate, in playfield units.
    pub x: i32,
    /// Playfield y coordinate, in playfield units (origin bottom-left).
    pub y: i32,
    /// Position within the current combo group, starting at 1.
    pub combo: i32,
    /// The outcome assigned so far.
    pub score: Score,
}

/// A loaded chart plus the session state of one play-through.
#[derive(Debug)]
pub struct BeatMap {
    /// Lead time in ms during which a target is visible before its instant.
    pub preempt: u64,
    /// Hit-circle radius, in thousandths of a playfield unit.
    pub cs_milli: u64,
    /// Overall difficulty in tenths; drives the judgement windows.
    pub od: u16,
    /// Audio asset name, as the chart file gave it.
    pub track: Vec<u8>,
    /// The targets, in non-decreasing time order.
    pub objs: Vec<HitObject>,
    /// Input scale: thousandths of a playfield unit per terminal cell.
    pub hit_box: (u64, u64),
}

/// Lead time derived from an approach rate given in tenths.
///
/// This is the exact value of `1200 + 600*(5 - AR)/5` below an approach
/// rate of 5 and of `1200 - 750*(AR - 5)/5` at or above it; both sides
/// give 1200 at exactly 5.
pub open spec fn preempt_of(ar: int) -> int {
    if ar < 50 {
        1800 - 12 * ar
    } else {
        1950 - 15 * ar
    }
}

/// Hit radius in thousandths derived from a circle size given in tenths:
/// the exact value of `1000 * (54.4 - 4.48*CS)`.
pub open spec fn radius_of(cs: int) -> int {
    54400 - 448 * cs
}

/// Largest timing distance still judged Perfect, for an overall
/// difficulty in tenths: `80 - 6*OD` truncated to a millisecond.
pub open spec fn perfect_window(od: int) -> int {
    80 - 6 * od / 10
}

/// Largest timing distance still judged Great: `140 - 8*OD` truncated.
pub open spec fn great_window(od: int) -> int {
    140 - 8 * od / 10
}

/// Largest timing distance still judged Okay: `200 - 10*OD` truncated.
pub open spec fn ok_window(od: int) -> int {
    200 - 10 * od / 10
}

/// Distance in ms between the scheduled and the actual instant.
pub open spec fn time_delta(target: int, hit: int) -> int {
    if hit >= target {
        hit - target
    } else {
        target - hit
    }
}

/// The outcome a hit at `hit` earns on an unjudged target scheduled at
/// `target`, for an overall difficulty `od` in tenths: the first window
/// wide enough decides, and outside every window the target stays
/// unjudged.
pub open spec fn judged(od: int, target: int, hit: int) -> Score {
    let delta = time_delta(target, hit);
    if delta <= perfect_window(od) {
        Score::Perfect
    } else if delta <= great_window(od) {
        Score::Great
    } else if delta <= ok_window(od) {
        Score::Okay
    } else {
        Score::Unjudged
    }
}

/// What `HitObject::score` returns: a terminal outcome is final and is
/// returned unchanged, otherwise the hit is measured against the windows.
pub open spec fn score_result(obj: HitObject, od: int, hit: int) -> Score {
    if obj.score == Score::Unjudged {
        judged(od, obj.time as int, hit)
    } else {
        obj.score
    }
}

impl HitObject {
    /// Judge a hit at instant `hit` against this target.  Idempotent on
    /// an already-judged target: the existing outcome is returned and
    /// nothing is re-derived.
    pub fn score(&self, od: u16, hit: u64) -> (r: Score)
        requires
            od <= 100,
        ensures
            r == score_result(*self, od as int, hit as int),
    {
        match self.score {
            Score::Unjudged => {}
            Score::Miss => { return Score::Miss; }
            Score::Okay => { return Score::Okay; }
            Score::Great => { return Score::Great; }
            Score::Perfect => { return Score::Perfect; }
        }

        let delta: u64 = if hit < self.time {
            self.time - hit
        } else {
            hit - self.time
        };
        if delta <= 80 - 6 * (od as u64) / 10 {
            return Score::Perfect;
        }
        if delta <= 140 - 8 * (od as u64) / 10 {
            return Score::Great;
        }
        if delta <= 200 - 10 * (od as u64) / 10 {
            return Score::Okay;
        }
        Score::Unjudged
    }
}

/// The targets are in non-decreasing time order.
pub open spec fn sorted_by_time(objs: Seq<HitObject>) -> bool {
    forall|i: int, j: int| 0 <= i <= j < objs.len() ==> objs[i].time <= objs[j].time
}

impl BeatMap {
    /// Well-formedness: the derived constants lie in the range the
    /// difficulty scalars 0..=10 can produce, and the targets are in
    /// time order with bounded times.
    pub open spec fn wf(self) -> bool {
        &&& 450 <= self.preempt <= 1800
        &&& self.cs_milli <= 54400
        &&& self.od <= 100
        &&& self.hit_box.0 <= 512_000
        &&& self.hit_box.1 <= 384_000
        &&& sorted_by_time(self.objs@)
        &&& forall|i: int| 0 <= i < self.objs@.len() ==> self.objs@[i].time <= MAX_TIME
    }

    /// Derive the approach lead time from an approach rate in tenths.
    pub fn set_ar(&mut self, ar: u16)
        requires
            ar <= 100,
        ensures
            final(self).preempt == preempt_of(ar as int),
            *final(self) == (BeatMap { preempt: final(self).preempt, ..*old(self) }),
    {
        if ar < 50 {
            self.preempt = 1800 - 12 * (ar as u64);
        } else {
            self.preempt = 1950 - 15 * (ar as u64);
        }
    }

    /// Derive the hit radius from a circle size in tenths.
    pub fn set_cs(&mut self, cs: u16)
        requires
            cs <= 100,
        ensures
            final(self).cs_milli == radius_of(cs as int),
            *final(self) == (BeatMap { cs_milli: final(self).cs_milli, ..*old(self) }),
    {
        self.cs_milli = 54400 - 448 * (cs as u64);
    }
}

/// The instant after which an unhit target counts as missed.
pub open spec fn miss_deadline(obj: HitObject, od: int) -> int {
    obj.time + 200 - 10 * od / 10
}

/// How one pass of the time-out sweep at instant `time` leaves a target:
/// an unjudged target whose miss deadline has passed becomes a Miss,
/// every other target is untouched.
pub open spec fn miss_update(obj: HitObject, od: int, time: int) -> HitObject {
    if obj.score == Score::Unjudged && miss_deadline(obj, od) < time {
        HitObject { score: Score::Miss, ..obj }
    } else {
        obj
    }
}

/// Squared distance between two points.
pub open spec fn dist_sq_spec(ax: int, ay: int, bx: int, by: int) -> int {
    (ax - bx) * (ax - bx) + (ay - by) * (ay - by)
}

/// Squared distance between two points, exactly.
pub fn dist_sq(a: (i64, i64), b: (i64, i64)) -> (r: i128)
    requires
        -0x2000_0000_0000_0000 <= a.0 <= 0x2000_0000_0000_0000,
        -0x2000_0000_0000_0000 <= a.1 <= 0x2000_0000_0000_0000,
        -0x2000_0000_0000_0000 <= b.0 <= 0x2000_0000_0000_0000,
        -0x2000_0000_0000_0000 <= b.1 <= 0x2000_0000_0000_0000,
    ensures
        r == dist_sq_spec(a.0 as int, a.1 as int, b.0 as int, b.1 as int),
{
    let dx = a.0 as i128 - b.0 as i128;
    let dy = a.1 as i128 - b.1 as i128;
    proof {
        let dxi = dx as int;
        let dyi = dy as int;
        assert(0 <= dxi * dxi <= 0x4000_0000_0000_0000 * 0x4000_0000_0000_0000)
            by (nonlinear_arith)
            requires
                -0x4000_0000_0000_0000 <= dxi <= 0x4000_0000_0000_0000,
        {}
        assert(0 <= dyi * dyi <= 0x4000_0000_0000_0000 * 0x4000_0000_0000_0000)
            by (nonlinear_arith)
            requires
                -0x4000_0000_0000_0000 <= dyi <= 0x4000_0000_0000_0000,
        {}
    }
    dx * dx + dy * dy
}

/// Where the pointer sits in thousandths of a playfield unit, after the
/// per-cell scale of the rendering surface is applied.
pub open spec fn pointer_milli(m: BeatMap, pointer: (u16, u16)) -> (int, int) {
    (m.hit_box.0 * pointer.0, m.hit_box.1 * pointer.1)
}

/// The pointer lies inside the target's hit circle.
pub open spec fn within_reach(m: BeatMap, obj: HitObject, pointer: (u16, u16)) -> bool {
    dist_sq_spec(
        pointer_milli(m, pointer).0,
        pointer_milli(m, pointer).1,
        obj.x * 1000,
        obj.y * 1000,
    ) <= m.cs_milli * m.cs_milli
}

/// Target `k` can take this hit: it is still unjudged and the pointer
/// is inside its hit circle.
pub open spec fn hit_eligible(m: BeatMap, k: int, pointer: (u16, u16)) -> bool {
    &&& m.objs@[k].score == Score::Unjudged
    &&& within_reach(m, m.objs@[k], pointer)
}

/// No target before index `j` can take this hit.
pub open spec fn no_eligible_before(m: BeatMap, j: int, pointer: (u16, u16)) -> bool {
    forall|k: int| 0 <= k < j ==> !hit_eligible(m, k, pointer)
}

impl BeatMap {
    /// The time-out sweep: walk the targets in time order and mark every
    /// unjudged target whose miss deadline has passed as a Miss.  A
    /// terminal outcome is never overwritten.  The walk stops at the
    /// first target whose deadline has not passed; by the time order no
    /// later target has expired either, so every target ends as
    /// `miss_update` describes.
    pub fn score_miss(&mut self, time: u64)
        requires
            old(self).wf(),
        ensures
            *final(self) == (BeatMap { objs: final(self).objs, ..*old(self) }),
            final(self).objs@.len() == old(self).objs@.len(),
            forall|k: int| 0 <= k < old(self).objs@.len()
                ==> final(self).objs@[k]
                    == miss_update(old(self).objs@[k], old(self).od as int, time as int),
            final(self).wf(),
    {
        let od = self.od;
        let n = self.objs.len();
        let mut i: usize = 0;
        while i < n
            invariant_except_break
                old(self).wf(),
                n == self.objs.len(),
                n == old(self).objs@.len(),
                0 <= i <= n,
                *self == (BeatMap { objs: self.objs, ..*old(self) }),
                od == old(self).od,
                forall|k: int| i <= k < n ==> self.objs@[k] == old(self).objs@[k],
                forall|k: int| 0 <= k < i
                    ==> self.objs@[k]
                        == miss_update(old(self).objs@[k], od as int, time as int),
            ensures
                n == self.objs.len(),
                *self == (BeatMap { objs: self.objs, ..*old(self) }),
                forall|k: int| 0 <= k < n
                    ==> self.objs@[k]
                        == miss_update(old(self).objs@[k], od as int, time as int),
            decreases n - i,
        {
            if self.objs[i].time + 200 - 10 * (od as u64) / 10 >= time {
                proof {
                    assert forall|k: int| i <= k < n implies self.objs@[k]
                        == miss_update(old(self).objs@[k], od as int, time as int) by {
                        assert(old(self).objs@[i as int].time <= old(self).objs@[k].time);
                    }
                }
                break;
            }
            if self.objs[i].score == Score::Unjudged {
                self.objs[i].score = Score::Miss;
            }
            i += 1;
        }
        proof {
            let g = *old(self);
            assert forall|k: int| 0 <= k < n implies self.objs@[k].time == g.objs@[k].time by {
                assert(self.objs@[k] == miss_update(g.objs@[k], g.od as int, time as int));
            };
            assert forall|i2: int, j2: int| 0 <= i2 <= j2 < n implies self.objs@[i2].time
                <= self.objs@[j2].time by {
                assert(g.objs@[i2].time <= g.objs@[j2].time);
            };
            assert(self.wf());
        }
    }

    /// The hit sweep: judge at most one target.  The first target in
    /// time order that is still unjudged and whose hit circle contains
    /// the pointer takes the hit; its outcome is what `judged` gives for
    /// this instant (possibly still unjudged, when the hit falls outside
    /// every window).  All other targets are untouched, and when no
    /// target can take the hit nothing changes.
    pub fn score_hit(&mut self, time: u64, pointer: (u16, u16))
        requires
            old(self).wf(),
        ensures
            *final(self) == (BeatMap { objs: final(self).objs, ..*old(self) }),
            final(self).objs@.len() == old(self).objs@.len(),
            no_eligible_before(*old(self), old(self).objs@.len() as int, pointer)
                ==> final(self).objs@ =~= old(self).objs@,
            forall|j: int|
                0 <= j < old(self).objs@.len() && hit_eligible(*old(self), j, pointer)
                    && no_eligible_before(*old(self), j, pointer)
                    ==> final(self).objs@ =~= old(self).objs@.update(
                        j,
                        (HitObject {
                            score: judged(
                                old(self).od as int,
                                old(self).objs@[j].time as int,
                                time as int,
                            ),
                            ..old(self).objs@[j]
                        }),
                    ),
            final(self).wf(),
    {
        proof {
            let hb0 = old(self).hit_box.0 as int;
            let hb1 = old(self).hit_box.1 as int;
            let p0 = pointer.0 as int;
            let p1 = pointer.1 as int;
            assert(hb0 * p0 <= 512_000 * 65535) by (nonlinear_arith)
                requires
                    0 <= hb0 <= 512_000,
                    0 <= p0 <= 65535,
            {}
            assert(hb1 * p1 <= 384_000 * 65535) by (nonlinear_arith)
                requires
                    0 <= hb1 <= 384_000,
                    0 <= p1 <= 65535,
            {}
        }
        let px = (self.hit_box.0 * (pointer.0 as u64)) as i64;
        let py = (self.hit_box.1 * (pointer.1 as u64)) as i64;
        let n = self.objs.len();
        let mut i: usize = 0;
        while i < n
            invariant_except_break
                old(self).wf(),
                *self == *old(self),
                n == self.objs.len(),
                0 <= i <= n,
                px == pointer_milli(*old(self), pointer).0,
                py == pointer_milli(*old(self), pointer).1,
                0 <= px <= 512_000 * 65535,
                0 <= py <= 384_000 * 65535,
                no_eligible_before(*old(self), i as int, pointer),
            ensures
                n == old(self).objs@.len(),
                *self == (BeatMap { objs: self.objs, ..*old(self) }),
                self.objs@.len() == n,
                forall|k: int| 0 <= k < n
                    ==> (self.objs@[k].time == old(self).objs@[k].time
                        && self.objs@[k].x == old(self).objs@[k].x
                        && self.objs@[k].y == old(self).objs@[k].y
                        && self.objs@[k].combo == old(self).objs@[k].combo),
                no_eligible_before(*old(self), n as int, pointer) ==> self.objs@ =~= old(self).objs@,
                forall|j: int|
                    0 <= j < n && hit_eligible(*old(self), j, pointer)
                        && no_eligible_before(*old(self), j, pointer)
                        ==> self.objs@ =~= old(self).objs@.update(
                            j,
                            (HitObject {
                                score: judged(
                                    old(self).od as int,
                                    old(self).objs@[j].time as int,
                                    time as int,
                                ),
                                ..old(self).objs@[j]
                            }),
                        ),
            decreases n - i,
        {
            let o = self.objs[i];
            proof {
                let cs = old(self).cs_milli as int;
                assert(cs * cs <= 54400 * 54400) by (nonlinear_arith)
                    requires
                        0 <= cs <= 54400,
                {}
            }
            let d = dist_sq((px, py), ((o.x as i64) * 1000, (o.y as i64) * 1000));
            if d > (self.cs_milli as i128) * (self.cs_milli as i128) {
                i += 1;
                continue;
            }
            if o.score == Score::Unjudged {
                let s = o.score(self.od, time);
                self.objs[i].score = s;
                proof {
                    let g = *old(self);
                    let upd = (HitObject {
                        score: judged(g.od as int, g.objs@[i as int].time as int, time as int),
                        ..g.objs@[i as int]
                    });
                    assert(hit_eligible(g, i as int, pointer));
                    assert(self.objs@ =~= g.objs@.update(i as int, upd));
                    assert forall|j: int|
                        0 <= j < n && hit_eligible(g, j, pointer)
                            && no_eligible_before(g, j, pointer)
                            implies self.objs@ =~= g.objs@.update(
                            j,
                            (HitObject {
                                score: judged(g.od as int, g.objs@[j].time as int, time as int),
                                ..g.objs@[j]
                            }),
                        ) by {
                        if j < i as int {
                            assert(!hit_eligible(g, j, pointer));
                        } else if j > i as int {
                            assert(!hit_eligible(g, i as int, pointer));
                        }
                    };
                }
                break;
            }
            i += 1;
        }
        proof {
            let g = *old(self);
            assert forall|i2: int, j2: int| 0 <= i2 <= j2 < n implies self.objs@[i2].time
                <= self.objs@[j2].time by {
                assert(g.objs@[i2].time <= g.objs@[j2].time);
            };
            assert(self.wf());
        }
    }
}

/// The approach lead time is 1200 at an approach rate of exactly 5 --
/// the two branches of its definition agree there -- and is strictly
/// decreasing over the whole range of approach rates.
pub proof fn lemma_preempt_monotone(ar1: int, ar2: int)
    requires
        0 <= ar1 < ar2 <= 100,
    ensures
        preempt_of(ar1) > preempt_of(ar2),
        preempt_of(50) == 1200,
        1800 - 12 * 50 == 1950 - 15 * 50,
{
}

/// Judging is idempotent: committing the result of one judgement and
/// judging again with the same arguments returns the same outcome and
/// changes nothing.  In particular a target that already carries a
/// terminal outcome keeps it, whatever instant is asked about.
pub proof fn lemma_judge_idempotent(obj: HitObject, od: int, hit: int)
    ensures
        score_result(
            (HitObject { score: score_result(obj, od, hit), ..obj }),
            od,
            hit,
        ) == score_result(obj, od, hit),
        obj.score != Score::Unjudged ==> score_result(obj, od, hit) == obj.score,
{
}

/// The judgement windows are nested for every overall difficulty in
/// 0..=10: a hit inside the Perfect window is inside the Great window,
/// and a hit inside the Great window is inside the Okay window.
pub proof fn lemma_windows_nested(od: int)
    requires
        0 <= od <= 100,
    ensures
        perfect_window(od) <= great_window(od),
        great_window(od) <= ok_window(od),
{
}

} // verus!
