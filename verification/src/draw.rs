//! The visibility window: what one target contributes to a frame.
//!
//! Rendering itself is left to the caller; the library only decides, for
//! a given instant, whether a target is visible and in which visual
//! state, as a plain value.  Playfield y grows upward while drawing
//! surfaces grow downward, so the vertical coordinate is flipped here.

use vstd::prelude::*;
use crate::beat_map::{BeatMap, HitObject, Score, MAX_TIME};

verus! {

/// The visual state of one target at one instant.
#[derive(Clone, Copy, Debug, PartialEq, Eq)]
pub enum ObjDraw {
    /// Nothing is drawn: the target is outside its visibility window or
    /// was hit perfectly.
    Hidden,
    /// A short-lived outcome label (`score` is Miss, Okay or Great) at
    /// the target's surface coordinates.
    Judged { x: i64, y: i64, score: Score },
    /// The hit circle with its combo label; `approach` carries the
    /// shrinking approach-ring radius while the scheduled instant has
    /// not yet passed.  All radii are in thousandths of a playfield
    /// unit.
    Active { x: i64, y: i64, approach: Option<u64>, radius_milli: u64, combo: i32 },
}

/// Radius of the approach ring: it shrinks linearly from six times the
/// hit radius, one lead time before the scheduled instant, down to the
/// hit radius at the instant itself.
pub open spec fn approach_radius(m: BeatMap, obj: HitObject, time: int) -> int {
    m.cs_milli + 5 * m.cs_milli * (obj.time - time) / (m.preempt as int)
}

/// The target is outside its visibility window: more than one lead time
/// early, or past its miss deadline by more than one lead time.
pub open spec fn out_of_window(m: BeatMap, obj: HitObject, time: int) -> bool {
    ||| time + m.preempt < obj.time
    ||| obj.time + 200 - 10 * (m.od as int) / 10 + m.preempt < time
}

/// What `draw_obj` returns: the visual state of `obj` at `time`.
pub open spec fn obj_draw(m: BeatMap, obj: HitObject, time: int) -> ObjDraw {
    if out_of_window(m, obj, time) {
        ObjDraw::Hidden
    } else {
        let sx = obj.x as i64;
        let sy = (384 - obj.y as int) as i64;
        match obj.score {
            Score::Perfect => ObjDraw::Hidden,
            Score::Great => ObjDraw::Judged { x: sx, y: sy, score: Score::Great },
            Score::Okay => ObjDraw::Judged { x: sx, y: sy, score: Score::Okay },
            Score::Miss => ObjDraw::Judged { x: sx, y: sy, score: Score::Miss },
            Score::Unjudged => ObjDraw::Active {
                x: sx,
                y: sy,
                approach: if time <= obj.time {
                    Some(approach_radius(m, obj, time) as u64)
                } else {
                    None
                },
                radius_milli: m.cs_milli,
                combo: obj.combo,
            },
        }
    }
}

impl BeatMap {
    /// Compute the visual state of one target at instant `time`.
    pub fn draw_obj(&self, time: u64, obj: &HitObject) -> (r: ObjDraw)
        requires
            self.wf(),
            time <= MAX_TIME,
            obj.time <= MAX_TIME,
        ensures
            r == obj_draw(*self, *obj, time as int),
    {
        if time + self.preempt < obj.time
            || obj.time + 200 - 10 * (self.od as u64) / 10 + self.preempt < time {
            return ObjDraw::Hidden;
        }
        let sx = obj.x as i64;
        let sy = 384i64 - (obj.y as i64);
        match obj.score {
            Score::Perfect => ObjDraw::Hidden,
            Score::Great => ObjDraw::Judged { x: sx, y: sy, score: Score::Great },
            Score::Okay => ObjDraw::Judged { x: sx, y: sy, score: Score::Okay },
            Score::Miss => ObjDraw::Judged { x: sx, y: sy, score: Score::Miss },
            Score::Unjudged => {
                let approach = if time <= obj.time {
                    proof {
                        let cs = self.cs_milli as int;
                        let dt = obj.time - time;
                        assert(0 <= 5 * cs * dt <= 5 * 54400 * 1800) by (nonlinear_arith)
                            requires
                                0 <= cs <= 54400,
                                0 <= dt <= 1800,
                        {}
                    }
                    Some(self.cs_milli + 5 * self.cs_milli * (obj.time - time) / self.preempt)
                } else {
                    None
                };
                ObjDraw::Active {
                    x: sx,
                    y: sy,
                    approach,
                    radius_milli: self.cs_milli,
                    combo: obj.combo,
                }
            }
        }
    }

    /// Produce one frame: record the input scale of the rendering
    /// surface, then compute the visual state of every target at
    /// instant `time`, in chart order.
    pub fn draw_game(&mut self, time: u64, width: u16, height: u16) -> (cmds: Vec<ObjDraw>)
        requires
            old(self).wf(),
            width > 0,
            height > 0,
            time <= MAX_TIME,
        ensures
            *final(self) == (BeatMap {
                hit_box: (512_000u64 / (width as u64), 384_000u64 / (height as u64)),
                ..*old(self)
            }),
            final(self).wf(),
            cmds@.len() == old(self).objs@.len(),
            forall|k: int| 0 <= k < cmds@.len()
                ==> cmds@[k] == obj_draw(*final(self), final(self).objs@[k], time as int),
    {
        self.hit_box = (512_000u64 / (width as u64), 384_000u64 / (height as u64));
        let n = self.objs.len();
        let mut cmds: Vec<ObjDraw> = Vec::new();
        let mut i: usize = 0;
        while i < n
            invariant
                self.wf(),
                time <= MAX_TIME,
                n == self.objs.len(),
                0 <= i <= n,
                *self == (BeatMap {
                    hit_box: (512_000u64 / (width as u64), 384_000u64 / (height as u64)),
                    ..*old(self)
                }),
                cmds@.len() == i,
                forall|k: int| 0 <= k < i
                    ==> cmds@[k] == obj_draw(*self, self.objs@[k], time as int),
            decreases n - i,
        {
            let c = self.draw_obj(time, &self.objs[i]);
            cmds.push(c);
            i += 1;
        }
        cmds
    }
}

} // verus!
