//! The chart loader: from the lines of a chart file to a `BeatMap`.
//!
//! A chart file is line-oriented: an `AudioFilename` line names the
//! audio asset, `CircleSize`, `OverallDifficulty` and `ApproachRate`
//! lines carry difficulty scalars, a section header of exactly
//! `[HitObjects]` starts the object list and any other bracketed
//! header ends it, and
//! each object line holds comma-separated fields `x,y,time,flags`.
//! Flag bit 4 starts a new combo.  The whole load is specified as a
//! fold of `load_step` over the lines, followed by a time-order check.

use vstd::prelude::*;
use crate::beat_map::{BeatMap, HitObject, Score, MAX_TIME, preempt_of, radius_of, sorted_by_time};
use crate::parse::{
    all_digits, bytes_equal, first_sep, has_prefix, is_digit, parse_i32, parse_tenths,
    parse_uint_capped, parsed_int, parsed_tenths, parsed_uint, split_bytes, split_spec,
    starts_with, tail_from, views_of,
};

verus! {

/// Why a chart failed to load.
#[derive(Clone, Copy, Debug, PartialEq, Eq, Structural)]
pub enum LoadError {
    /// A line could not be parsed as what its position requires.
    BadLine,
    /// A difficulty scalar above 10, a target time too large, or a
    /// combo counter overflow.
    OutOfRange,
    /// The object lines are not in non-decreasing time order.
    Unsorted,
}

/// Bytes of `"AudioFilename"`.
pub open spec fn audio_prefix() -> Seq<u8> {
    seq![65u8, 117, 100, 105, 111, 70, 105, 108, 101, 110, 97, 109, 101]
}

/// Bytes of `"CircleSize"`.
pub open spec fn circle_prefix() -> Seq<u8> {
    seq![67u8, 105, 114, 99, 108, 101, 83, 105, 122, 101]
}

/// Bytes of `"OverallDifficulty"`.
pub open spec fn overall_prefix() -> Seq<u8> {
    seq![79u8, 118, 101, 114, 97, 108, 108, 68, 105, 102, 102, 105, 99, 117, 108, 116, 121]
}

/// Bytes of `"ApproachRate"`.
pub open spec fn approach_prefix() -> Seq<u8> {
    seq![65u8, 112, 112, 114, 111, 97, 99, 104, 82, 97, 116, 101]
}

/// Bytes of `"["`.
pub open spec fn bracket_prefix() -> Seq<u8> {
    seq![91u8]
}

/// Bytes of `"[HitObjects]"`.
pub open spec fn hitobjects_prefix() -> Seq<u8> {
    seq![91u8, 72, 105, 116, 79, 98, 106, 101, 99, 116, 115, 93]
}

fn audio_prefix_vec() -> (r: Vec<u8>)
    ensures
        r@ == audio_prefix(),
{
    let r: Vec<u8> = vec![65u8, 117, 100, 105, 111, 70, 105, 108, 101, 110, 97, 109, 101];
    proof {
        assert(r@ =~= audio_prefix());
    }
    r
}

fn circle_prefix_vec() -> (r: Vec<u8>)
    ensures
        r@ == circle_prefix(),
{
    let r: Vec<u8> = vec![67u8, 105, 114, 99, 108, 101, 83, 105, 122, 101];
    proof {
        assert(r@ =~= circle_prefix());
    }
    r
}

fn overall_prefix_vec() -> (r: Vec<u8>)
    ensures
        r@ == overall_prefix(),
{
    let r: Vec<u8> = vec![
        79u8, 118, 101, 114, 97, 108, 108, 68, 105, 102, 102, 105, 99, 117, 108, 116, 121,
    ];
    proof {
        assert(r@ =~= overall_prefix());
    }
    r
}

fn approach_prefix_vec() -> (r: Vec<u8>)
    ensures
        r@ == approach_prefix(),
{
    let r: Vec<u8> = vec![65u8, 112, 112, 114, 111, 97, 99, 104, 82, 97, 116, 101];
    proof {
        assert(r@ =~= approach_prefix());
    }
    r
}

fn bracket_prefix_vec() -> (r: Vec<u8>)
    ensures
        r@ == bracket_prefix(),
{
    let r: Vec<u8> = vec![91u8];
    proof {
        assert(r@ =~= bracket_prefix());
    }
    r
}

fn hitobjects_prefix_vec() -> (r: Vec<u8>)
    ensures
        r@ == hitobjects_prefix(),
{
    let r: Vec<u8> = vec![91u8, 72, 105, 116, 79, 98, 106, 101, 99, 116, 115, 93];
    proof {
        assert(r@ =~= hitobjects_prefix());
    }
    r
}

/// The loader's running state, one value per chart line consumed.
pub struct LoadState {
    /// Inside the `[HitObjects]` section.
    pub parse_objs: bool,
    /// The combo index the next target will get.
    pub combo: int,
    /// Audio asset name seen so far.
    pub track: Seq<u8>,
    /// Circle size in tenths.
    pub cs: int,
    /// Overall difficulty in tenths.
    pub od: int,
    /// Approach rate in tenths.
    pub ar: int,
    /// Targets collected so far.
    pub objs: Seq<HitObject>,
}

/// The state before any line: defaults CS 4.5, OD 7, AR 9, no track,
/// no targets, first combo index 1.
pub open spec fn init_state() -> LoadState {
    LoadState {
        parse_objs: false,
        combo: 1,
        track: Seq::empty(),
        cs: 45,
        od: 70,
        ar: 90,
        objs: Seq::empty(),
    }
}

/// The difficulty scalar carried by a `Key:value` line, in tenths:
/// the part after the first colon, rejected above 10.
pub open spec fn scalar_value(line: Seq<u8>) -> Result<int, LoadError> {
    let parts = split_spec(line, 58);
    if parts.len() < 2 {
        Err(LoadError::BadLine)
    } else {
        match parsed_tenths(parts[1]) {
            None => Err(LoadError::BadLine),
            Some(v) => if v > 100 {
                Err(LoadError::OutOfRange)
            } else {
                Ok(v)
            },
        }
    }
}

/// An `AudioFilename` line stores its second space-separated word as
/// the track name; other lines pass through.
pub open spec fn step_audio(st: LoadState, line: Seq<u8>) -> Result<LoadState, LoadError> {
    if has_prefix(line, audio_prefix()) {
        let parts = split_spec(line, 32);
        if parts.len() < 2 {
            Err(LoadError::BadLine)
        } else {
            Ok(LoadState { track: parts[1], ..st })
        }
    } else {
        Ok(st)
    }
}

/// A `CircleSize` line stores its scalar; other lines pass through.
pub open spec fn step_cs(st: LoadState, line: Seq<u8>) -> Result<LoadState, LoadError> {
    if has_prefix(line, circle_prefix()) {
        match scalar_value(line) {
            Err(e) => Err(e),
            Ok(v) => Ok(LoadState { cs: v, ..st }),
        }
    } else {
        Ok(st)
    }
}

/// An `OverallDifficulty` line stores its scalar; other lines pass through.
pub open spec fn step_od(st: LoadState, line: Seq<u8>) -> Result<LoadState, LoadError> {
    if has_prefix(line, overall_prefix()) {
        match scalar_value(line) {
            Err(e) => Err(e),
            Ok(v) => Ok(LoadState { od: v, ..st }),
        }
    } else {
        Ok(st)
    }
}

/// An `ApproachRate` line stores its scalar; other lines pass through.
pub open spec fn step_ar(st: LoadState, line: Seq<u8>) -> Result<LoadState, LoadError> {
    if has_prefix(line, approach_prefix()) {
        match scalar_value(line) {
            Err(e) => Err(e),
            Ok(v) => Ok(LoadState { ar: v, ..st }),
        }
    } else {
        Ok(st)
    }
}

/// The flag byte starts a new combo when its bit with value 4 is set;
/// `v` is read as the two's-complement byte the chart wrote.
pub open spec fn flag_new_combo(v: int) -> bool {
    (if v < 0 {
        v + 256
    } else {
        v
    }) % 8 >= 4
}

/// What one object line contributes, given the combo index the next
/// target would take: the target and the combo index after it.  The
/// first four comma-separated fields are x, y, time and the flag byte;
/// any further fields are ignored.
pub open spec fn obj_of(line: Seq<u8>, combo: int) -> Result<(HitObject, int), LoadError> {
    let parts = split_spec(line, 44);
    if parts.len() < 4 {
        Err(LoadError::BadLine)
    } else {
        let xo = parsed_int(parts[0]);
        let yo = parsed_int(parts[1]);
        let to = parsed_uint(parts[2]);
        let fo = parsed_int(parts[3]);
        if fo is None || fo.unwrap() < -128 || fo.unwrap() > 127 {
            Err(LoadError::BadLine)
        } else if xo is None || xo.unwrap() < -0x8000_0000 || xo.unwrap() > 0x7fff_ffff {
            Err(LoadError::BadLine)
        } else if yo is None || yo.unwrap() < -0x8000_0000 || yo.unwrap() > 0x7fff_ffff {
            Err(LoadError::BadLine)
        } else if to is None {
            Err(LoadError::BadLine)
        } else if to.unwrap() > MAX_TIME {
            Err(LoadError::OutOfRange)
        } else {
            let c = if flag_new_combo(fo.unwrap()) {
                1int
            } else {
                combo
            };
            if c >= 0x7fff_ffff {
                Err(LoadError::OutOfRange)
            } else {
                Ok(
                    (
                        HitObject {
                            time: to.unwrap() as u64,
                            x: xo.unwrap() as i32,
                            y: yo.unwrap() as i32,
                            combo: c as i32,
                            score: Score::Unjudged,
                        },
                        c + 1,
                    ),
                )
            }
        }
    }
}

/// Inside the object section, a line adds one target; outside it, it
/// adds nothing.
pub open spec fn step_obj(st: LoadState, line: Seq<u8>) -> Result<LoadState, LoadError> {
    match obj_of(line, st.combo) {
        Err(e) => Err(e),
        Ok(oc) => Ok(LoadState { combo: oc.1, objs: st.objs.push(oc.0), ..st }),
    }
}

/// What one chart line does to the loader state.  The stages follow
/// the line's prefixes in order; a bracketed header contributes
/// nothing else and enters the object section only when it is exactly
/// `[HitObjects]` -- any other bracketed header leaves it.
pub open spec fn load_step(st: LoadState, line: Seq<u8>) -> Result<LoadState, LoadError> {
    match step_audio(st, line) {
        Err(e) => Err(e),
        Ok(s1) => match step_cs(s1, line) {
            Err(e) => Err(e),
            Ok(s2) => match step_od(s2, line) {
                Err(e) => Err(e),
                Ok(s3) => match step_ar(s3, line) {
                    Err(e) => Err(e),
                    Ok(s4) => {
                        if has_prefix(line, bracket_prefix()) {
                            Ok(
                                LoadState {
                                    parse_objs: line == hitobjects_prefix(),
                                    ..s4
                                },
                            )
                        } else if !s4.parse_objs {
                            Ok(s4)
                        } else {
                            step_obj(s4, line)
                        }
                    }
                },
            },
        },
    }
}

/// The fold of `load_step` over the lines, from state `st`.
pub open spec fn load_lines(lines: Seq<Seq<u8>>, st: LoadState) -> Result<LoadState, LoadError>
    decreases lines.len(),
{
    if lines.len() == 0 {
        Ok(st)
    } else {
        match load_step(st, lines[0]) {
            Err(e) => Err(e),
            Ok(s2) => load_lines(lines.skip(1), s2),
        }
    }
}

/// What loading a whole chart yields: the fold over all lines, then
/// the time-order check on the collected targets.
pub open spec fn loaded(lines: Seq<Seq<u8>>) -> Result<LoadState, LoadError> {
    match load_lines(lines, init_state()) {
        Err(e) => Err(e),
        Ok(st) => if sorted_by_time(st.objs) {
            Ok(st)
        } else {
            Err(LoadError::Unsorted)
        },
    }
}

/// All bounds the loader maintains while folding.
pub open spec fn st_bounded(st: LoadState) -> bool {
    &&& 0 <= st.cs <= 100
    &&& 0 <= st.od <= 100
    &&& 0 <= st.ar <= 100
    &&& 1 <= st.combo <= 0x7fff_ffff
    &&& forall|k: int| 0 <= k < st.objs.len() ==> st.objs[k].time <= MAX_TIME
}

/// Read the scalar of a `Key:value` line.
fn scalar_tenths(line: &Vec<u8>) -> (r: Result<u64, LoadError>)
    ensures
        r matches Ok(v) ==> (scalar_value(line@) matches Ok(w) && v == w && 0 <= v <= 100),
        r matches Err(e) ==> (scalar_value(line@) matches Err(e2) && e == e2),
        r is Ok <==> scalar_value(line@) is Ok,
{
    let parts = split_bytes(line, 58);
    proof {
        assert(views_of(parts@).len() == parts@.len());
        if parts@.len() >= 2 {
            assert(views_of(parts@)[1] == parts@[1]@);
        }
    }
    if parts.len() < 2 {
        return Err(LoadError::BadLine);
    }
    match parse_tenths(&parts[1]) {
        None => Err(LoadError::BadLine),
        Some(v) => {
            if v > 100 {
                Err(LoadError::OutOfRange)
            } else {
                Ok(v)
            }
        }
    }
}

/// Read one object line, given the combo index the next target takes.
fn parse_obj_line(line: &Vec<u8>, combo: i32) -> (r: Result<(HitObject, i32), LoadError>)
    requires
        1 <= combo <= 0x7fff_ffff,
    ensures
        r matches Ok(oc) ==> (obj_of(line@, combo as int) matches Ok(oc2) && oc.0 == oc2.0
            && oc.1 == oc2.1 && 1 <= oc.1 <= 0x7fff_ffff && oc.0.time <= MAX_TIME),
        r matches Err(e) ==> (obj_of(line@, combo as int) matches Err(e2) && e == e2),
        r is Ok <==> obj_of(line@, combo as int) is Ok,
{
    let parts = split_bytes(line, 44);
    proof {
        assert(views_of(parts@).len() == parts@.len());
        if parts@.len() >= 4 {
            assert(views_of(parts@)[0] == parts@[0]@);
            assert(views_of(parts@)[1] == parts@[1]@);
            assert(views_of(parts@)[2] == parts@[2]@);
            assert(views_of(parts@)[3] == parts@[3]@);
        }
    }
    if parts.len() < 4 {
        return Err(LoadError::BadLine);
    }
    let fov = match parse_i32(&parts[3]) {
        None => {
            return Err(LoadError::BadLine);
        }
        Some(v) => v,
    };
    if fov < -128 || fov > 127 {
        return Err(LoadError::BadLine);
    }
    let xv = match parse_i32(&parts[0]) {
        None => {
            return Err(LoadError::BadLine);
        }
        Some(v) => v,
    };
    let yv = match parse_i32(&parts[1]) {
        None => {
            return Err(LoadError::BadLine);
        }
        Some(v) => v,
    };
    let tv = match parse_uint_capped(&parts[2], MAX_TIME + 1) {
        None => {
            return Err(LoadError::BadLine);
        }
        Some(v) => v,
    };
    if tv > MAX_TIME {
        return Err(LoadError::OutOfRange);
    }
    let fb: i32 = if fov < 0 {
        fov + 256
    } else {
        fov
    };
    let c: i32 = if fb % 8 >= 4 {
        1
    } else {
        combo
    };
    if c >= 0x7fff_ffff {
        return Err(LoadError::OutOfRange);
    }
    Ok((HitObject { time: tv, x: xv, y: yv, combo: c, score: Score::Unjudged }, c + 1))
}

/// The targets are in non-decreasing time order.
fn check_sorted(objs: &Vec<HitObject>) -> (r: bool)
    ensures
        r == sorted_by_time(objs@),
{
    if objs.len() <= 1 {
        return true;
    }
    let mut k: usize = 1;
    while k < objs.len()
        invariant
            1 <= k <= objs@.len(),
            sorted_by_time(objs@.take(k as int)),
        decreases objs@.len() - k,
    {
        if objs[k - 1].time > objs[k].time {
            proof {
                if sorted_by_time(objs@) {
                    assert(objs@[k as int - 1].time <= objs@[k as int].time);
                }
            }
            return false;
        }
        proof {
            let t = objs@.take(k as int);
            let t2 = objs@.take(k + 1);
            assert forall|a: int, b: int| 0 <= a <= b < t2.len() implies t2[a].time
                <= t2[b].time by {
                if b < k as int {
                    assert(t[a].time <= t[b].time);
                } else if a < k as int {
                    assert(t[a].time <= t[k as int - 1].time);
                    assert(t2[a] == t[a]);
                }
            };
        }
        k += 1;
    }
    proof {
        assert(objs@.take(objs@.len() as int) =~= objs@);
    }
    true
}

/// Load a chart from its lines.
///
/// On success the map is exactly what the fold of `load_step` over the
/// lines yields: the collected track name and targets, the collected
/// overall difficulty, and the lead time and hit radius derived from
/// the collected approach rate and circle size, with a unit input
/// scale.  Every failure is the fold's own error, or `Unsorted` when
/// the fold succeeds but the targets are out of time order.
pub fn load_map(lines: &Vec<Vec<u8>>) -> (r: Result<BeatMap, LoadError>)
    ensures
        r is Ok <==> loaded(views_of(lines@)) is Ok,
        r matches Ok(m) ==> (loaded(views_of(lines@)) matches Ok(st) && m.wf() && m.track@
            == st.track && m.objs@ == st.objs && m.od as int == st.od && m.preempt as int
            == preempt_of(st.ar) && m.cs_milli as int == radius_of(st.cs) && m.hit_box == (
        1000u64,
        1000u64,
        )),
        r matches Err(e) ==> (loaded(views_of(lines@)) matches Err(e2) && e == e2),
{
    let ghost L = views_of(lines@);
    let mut parse_objs: bool = false;
    let mut combo: i32 = 1;
    let mut track: Vec<u8> = Vec::new();
    let mut cs: u64 = 45;
    let mut od: u64 = 70;
    let mut ar: u64 = 90;
    let mut objs: Vec<HitObject> = Vec::new();
    let mut i: usize = 0;
    proof {
        assert(L.skip(0) =~= L);
        assert(track@ =~= Seq::<u8>::empty());
        assert(objs@ =~= Seq::<HitObject>::empty());
    }
    while i < lines.len()
        invariant
            0 <= i <= lines@.len(),
            L == views_of(lines@),
            L.len() == lines@.len(),
            0 <= cs <= 100,
            0 <= od <= 100,
            0 <= ar <= 100,
            1 <= combo <= 0x7fff_ffff,
            forall|k: int| 0 <= k < objs@.len() ==> objs@[k].time <= MAX_TIME,
            load_lines(L, init_state()) == load_lines(
                L.skip(i as int),
                (LoadState {
                    parse_objs,
                    combo: combo as int,
                    track: track@,
                    cs: cs as int,
                    od: od as int,
                    ar: ar as int,
                    objs: objs@,
                }),
            ),
        decreases lines@.len() - i,
    {
        let line = &lines[i];
        let ghost stA = (LoadState {
            parse_objs,
            combo: combo as int,
            track: track@,
            cs: cs as int,
            od: od as int,
            ar: ar as int,
            objs: objs@,
        });
        proof {
            assert(L[i as int] == lines@[i as int]@);
            assert(L.skip(i as int)[0] == L[i as int]);
            assert(L.skip(i as int).skip(1) =~= L.skip(i as int + 1));
        }
        // AudioFilename <name>
        if starts_with(line, &audio_prefix_vec()) {
            let parts = split_bytes(line, 32);
            proof {
                assert(views_of(parts@).len() == parts@.len());
                if parts@.len() >= 2 {
                    assert(views_of(parts@)[1] == parts@[1]@);
                }
            }
            if parts.len() < 2 {
                proof {
                    assert(load_lines(L.skip(i as int), stA) == Err::<LoadState, LoadError>(
                        LoadError::BadLine,
                    ));
                }
                return Err(LoadError::BadLine);
            }
            track = tail_from(&parts[1], 0);
            proof {
                assert(parts@[1]@.skip(0) =~= parts@[1]@);
            }
        }
        let ghost stB = (LoadState { track: track@, ..stA });
        proof {
            assert(step_audio(stA, L[i as int]) == Ok::<LoadState, LoadError>(stB));
        }
        // CircleSize:<scalar>
        if starts_with(line, &circle_prefix_vec()) {
            match scalar_tenths(line) {
                Err(e) => {
                    proof {
                        assert(load_lines(L.skip(i as int), stA) == Err::<LoadState, LoadError>(
                            e,
                        ));
                    }
                    return Err(e);
                }
                Ok(v) => {
                    cs = v;
                }
            }
        }
        let ghost stC = (LoadState { cs: cs as int, ..stB });
        proof {
            assert(step_cs(stB, L[i as int]) == Ok::<LoadState, LoadError>(stC));
        }
        // OverallDifficulty:<scalar>
        if starts_with(line, &overall_prefix_vec()) {
            match scalar_tenths(line) {
                Err(e) => {
                    proof {
                        assert(load_lines(L.skip(i as int), stA) == Err::<LoadState, LoadError>(
                            e,
                        ));
                    }
                    return Err(e);
                }
                Ok(v) => {
                    od = v;
                }
            }
        }
        let ghost stD = (LoadState { od: od as int, ..stC });
        proof {
            assert(step_od(stC, L[i as int]) == Ok::<LoadState, LoadError>(stD));
        }
        // ApproachRate:<scalar>
        if starts_with(line, &approach_prefix_vec()) {
            match scalar_tenths(line) {
                Err(e) => {
                    proof {
                        assert(load_lines(L.skip(i as int), stA) == Err::<LoadState, LoadError>(
                            e,
                        ));
                    }
                    return Err(e);
                }
                Ok(v) => {
                    ar = v;
                }
            }
        }
        let ghost stE = (LoadState { ar: ar as int, ..stD });
        proof {
            assert(step_ar(stD, L[i as int]) == Ok::<LoadState, LoadError>(stE));
        }
        // a bracketed header enters the object section only when it is
        // exactly the object header; inside the section, every line is
        // an object
        if starts_with(line, &bracket_prefix_vec()) {
            parse_objs = bytes_equal(line, &hitobjects_prefix_vec());
        } else if parse_objs {
            match parse_obj_line(line, combo) {
                Err(e) => {
                    proof {
                        assert(step_obj(stE, L[i as int]) == Err::<LoadState, LoadError>(e));
                        assert(load_lines(L.skip(i as int), stA) == Err::<LoadState, LoadError>(
                            e,
                        ));
                    }
                    return Err(e);
                }
                Ok(oc) => {
                    objs.push(oc.0);
                    combo = oc.1;
                }
            }
        }
        let ghost stF = (LoadState {
            parse_objs,
            combo: combo as int,
            objs: objs@,
            ..stE
        });
        proof {
            assert(load_step(stA, L[i as int]) == Ok::<LoadState, LoadError>(stF));
            assert(load_lines(L.skip(i as int), stA) == load_lines(L.skip(i as int + 1), stF));
        }
        i += 1;
    }
    let ghost stZ = (LoadState {
        parse_objs,
        combo: combo as int,
        track: track@,
        cs: cs as int,
        od: od as int,
        ar: ar as int,
        objs: objs@,
    });
    proof {
        assert(L.skip(lines@.len() as int) =~= Seq::<Seq<u8>>::empty());
        assert(load_lines(L, init_state()) == Ok::<LoadState, LoadError>(stZ));
    }
    if !check_sorted(&objs) {
        return Err(LoadError::Unsorted);
    }
    let mut m = BeatMap {
        preempt: 0,
        cs_milli: 0,
        od: od as u16,
        track,
        objs,
        hit_box: (1000, 1000),
    };
    m.set_ar(ar as u16);
    m.set_cs(cs as u16);
    proof {
        assert(m.wf());
    }
    Ok(m)
}

/// Bytes of `"Songs"`.
pub open spec fn songs_prefix() -> Seq<u8> {
    seq![83u8, 111, 110, 103, 115]
}

fn songs_prefix_vec() -> (r: Vec<u8>)
    ensures
        r@ == songs_prefix(),
{
    let r: Vec<u8> = vec![83u8, 111, 110, 103, 115];
    proof {
        assert(r@ =~= songs_prefix());
    }
    r
}

/// The songs directory a config file names, starting from `cur`: every
/// `Songs` line overwrites it with the part after its first colon, and
/// a `Songs` line without one is an error.
pub open spec fn config_songs_spec(lines: Seq<Seq<u8>>, cur: Seq<u8>) -> Result<
    Seq<u8>,
    LoadError,
>
    decreases lines.len(),
{
    if lines.len() == 0 {
        Ok(cur)
    } else if has_prefix(lines[0], songs_prefix()) {
        let parts = split_spec(lines[0], 58);
        if parts.len() < 2 {
            Err(LoadError::BadLine)
        } else {
            config_songs_spec(lines.skip(1), parts[1])
        }
    } else {
        config_songs_spec(lines.skip(1), cur)
    }
}

/// Read the songs directory out of the lines of a config file: the
/// value of the last `Songs` line, or empty when there is none.
pub fn config_songs(lines: &Vec<Vec<u8>>) -> (r: Result<Vec<u8>, LoadError>)
    ensures
        r is Ok <==> config_songs_spec(views_of(lines@), Seq::empty()) is Ok,
        r matches Ok(v) ==> (config_songs_spec(views_of(lines@), Seq::empty()) matches Ok(w) && v@
            == w),
        r matches Err(e) ==> (config_songs_spec(views_of(lines@), Seq::empty()) matches Err(e2)
            && e == e2),
{
    let ghost L = views_of(lines@);
    let mut cur: Vec<u8> = Vec::new();
    let mut i: usize = 0;
    proof {
        assert(L.skip(0) =~= L);
        assert(cur@ =~= Seq::<u8>::empty());
    }
    while i < lines.len()
        invariant
            0 <= i <= lines@.len(),
            L == views_of(lines@),
            L.len() == lines@.len(),
            config_songs_spec(L, Seq::empty()) == config_songs_spec(L.skip(i as int), cur@),
        decreases lines@.len() - i,
    {
        let line = &lines[i];
        proof {
            assert(L[i as int] == lines@[i as int]@);
            assert(L.skip(i as int)[0] == L[i as int]);
            assert(L.skip(i as int).skip(1) =~= L.skip(i as int + 1));
        }
        if starts_with(line, &songs_prefix_vec()) {
            let parts = split_bytes(line, 58);
            proof {
                assert(views_of(parts@).len() == parts@.len());
                if parts@.len() >= 2 {
                    assert(views_of(parts@)[1] == parts@[1]@);
                }
            }
            if parts.len() < 2 {
                proof {
                    assert(config_songs_spec(L.skip(i as int), cur@) == Err::<Seq<u8>, LoadError>(
                        LoadError::BadLine,
                    ));
                }
                return Err(LoadError::BadLine);
            }
            cur = tail_from(&parts[1], 0);
            proof {
                assert(parts@[1]@.skip(0) =~= parts@[1]@);
            }
        }
        i += 1;
    }
    proof {
        assert(L.skip(lines@.len() as int) =~= Seq::<Seq<u8>>::empty());
    }
    Ok(cur)
}

/// The object line's flag starts a new combo.
pub open spec fn new_combo_line(line: Seq<u8>) -> bool {
    flag_new_combo(parsed_int(split_spec(line, 44)[3]).unwrap())
}

/// The target an object line denotes, with the combo index it would
/// get as the very first target.
pub open spec fn obj_fields(line: Seq<u8>) -> HitObject {
    obj_of(line, 1)->Ok_0.0
}

/// The combo index of the `k`-th of a run of object lines, when the
/// first would take `c0` unless its own flag restarts the count: a
/// flagged line takes 1, every other line one more than its
/// predecessor.
pub open spec fn combo_after(lines: Seq<Seq<u8>>, c0: int, k: int) -> int
    decreases k,
{
    if k <= 0 {
        if new_combo_line(lines[0]) {
            1
        } else {
            c0
        }
    } else {
        if new_combo_line(lines[k]) {
            1
        } else {
            combo_after(lines, c0, k - 1) + 1
        }
    }
}

proof fn lemma_obj_line_plain(line: Seq<u8>)
    requires
        obj_of(line, 1) is Ok,
    ensures
        !has_prefix(line, audio_prefix()),
        !has_prefix(line, circle_prefix()),
        !has_prefix(line, overall_prefix()),
        !has_prefix(line, approach_prefix()),
        !has_prefix(line, bracket_prefix()),
{
    let parts = split_spec(line, 44);
    crate::parse::lemma_first_sep_props(line, 44);
    let fs = first_sep(line, 44);
    if 0 <= fs < line.len() {
        assert(parts[0] == line.take(fs));
    } else {
        assert(parts[0] == line);
    }
    let f0 = parts[0];
    assert(parsed_int(f0) is Some);
    assert(f0.len() > 0);
    assert(f0[0] == line[0]);
    assert(48 <= line[0] <= 57 || line[0] == 43 || line[0] == 45) by {
        if f0[0] != 45 && f0[0] != 43 {
            assert(all_digits(if f0[0] == 43 {
                f0.skip(1)
            } else {
                f0
            }));
            assert(is_digit(f0[0]));
        }
    }
    assert(audio_prefix()[0] == 65);
    assert(circle_prefix()[0] == 67);
    assert(overall_prefix()[0] == 79);
    assert(approach_prefix()[0] == 65);
    assert(bracket_prefix()[0] == 91);
}

proof fn lemma_obj_any_combo(line: Seq<u8>, c: int)
    requires
        obj_of(line, 1) is Ok,
        1 <= c < 0x7fff_ffff,
    ensures
        obj_of(line, c) matches Ok(oc) && oc.0 == (HitObject {
            combo: (if new_combo_line(line) {
                1int
            } else {
                c
            }) as i32,
            ..obj_fields(line)
        }) && oc.1 == (if new_combo_line(line) {
            1int
        } else {
            c
        }) + 1,
{
}

proof fn lemma_load_objs(lines: Seq<Seq<u8>>, st: LoadState)
    requires
        st.parse_objs,
        1 <= st.combo,
        st.combo + lines.len() <= 0x7fff_ffff,
        forall|k: int| 0 <= k < lines.len() ==> obj_of(#[trigger] lines[k], 1) is Ok,
    ensures
        load_lines(lines, st) matches Ok(st2) && st2.parse_objs && st2.track == st.track
            && st2.cs == st.cs && st2.od == st.od && st2.ar == st.ar && st2.objs.len()
            == st.objs.len() + lines.len() && (forall|k: int|
            0 <= k < st.objs.len() ==> st2.objs[k] == st.objs[k]) && (forall|k: int|
            0 <= k < lines.len() ==> st2.objs[st.objs.len() + k] == (HitObject {
                combo: combo_after(lines, st.combo, k) as i32,
                ..obj_fields(#[trigger] lines[k])
            })) && st2.combo == (if lines.len() == 0 {
            st.combo
        } else {
            combo_after(lines, st.combo, lines.len() - 1) + 1
        }),
    decreases lines.len(),
{
    if lines.len() > 0 {
        let line = lines[0];
        lemma_obj_line_plain(line);
        lemma_obj_any_combo(line, st.combo);
        let c1 = if new_combo_line(line) {
            1int
        } else {
            st.combo
        };
        let o = (HitObject { combo: c1 as i32, ..obj_fields(line) });
        let st1 = (LoadState { combo: c1 + 1, objs: st.objs.push(o), ..st });
        assert(step_obj(st, line) == Ok::<LoadState, LoadError>(st1));
        assert(load_step(st, line) == Ok::<LoadState, LoadError>(st1));
        assert(c1 == combo_after(lines, st.combo, 0));
        assert forall|k: int| 0 <= k < lines.skip(1).len() implies obj_of(
            #[trigger] lines.skip(1)[k],
            1,
        ) is Ok by {
            assert(lines.skip(1)[k] == lines[k + 1]);
        }
        lemma_load_objs(lines.skip(1), st1);
        let st2 = load_lines(lines.skip(1), st1)->Ok_0;
        assert(load_lines(lines, st) == Ok::<LoadState, LoadError>(st2));
        assert forall|k: int| 0 <= k < lines.len() implies st2.objs[st.objs.len() + k]
            == (HitObject {
            combo: combo_after(lines, st.combo, k) as i32,
            ..obj_fields(#[trigger] lines[k])
        }) by {
            if k == 0 {
                assert(st2.objs[st.objs.len() as int] == st1.objs[st.objs.len() as int]);
                assert(st1.objs[st.objs.len() as int] == o);
            } else {
                assert(st2.objs[st1.objs.len() + (k - 1)] == (HitObject {
                    combo: combo_after(lines.skip(1), st1.combo, k - 1) as i32,
                    ..obj_fields(lines.skip(1)[k - 1])
                }));
                assert(lines.skip(1)[k - 1] == lines[k]);
                lemma_combo_shift(lines, st.combo, k - 1);
            }
        }
        if lines.len() > 1 {
            lemma_combo_shift(lines, st.combo, lines.len() - 2);
        }
    }
}

proof fn lemma_combo_shift(lines: Seq<Seq<u8>>, c0: int, k: int)
    requires
        lines.len() >= 2,
        0 <= k < lines.len() - 1,
    ensures
        combo_after(lines, c0, k + 1) == combo_after(
            lines.skip(1),
            combo_after(lines, c0, 0) + 1,
            k,
        ),
    decreases k,
{
    assert(lines.skip(1)[k] == lines[k + 1]);
    if k > 0 {
        lemma_combo_shift(lines, c0, k - 1);
        assert(lines.skip(1)[k - 1] == lines[k]);
    } else {
        assert(lines.skip(1)[0] == lines[1]);
    }
}

/// A metadata line before the object section: each prefix stage it
/// matches succeeds, and it is not the object-section header itself.
/// Any line without one of the key prefixes qualifies, as does every
/// other bracketed header.
pub open spec fn meta_line_ok(line: Seq<u8>) -> bool {
    &&& (has_prefix(line, audio_prefix()) ==> split_spec(line, 32).len() >= 2)
    &&& (has_prefix(line, circle_prefix()) ==> scalar_value(line) is Ok)
    &&& (has_prefix(line, overall_prefix()) ==> scalar_value(line) is Ok)
    &&& (has_prefix(line, approach_prefix()) ==> scalar_value(line) is Ok)
    &&& line != hitobjects_prefix()
}

proof fn lemma_load_lines_append(a: Seq<Seq<u8>>, b: Seq<Seq<u8>>, st: LoadState)
    ensures
        load_lines(a + b, st) == (match load_lines(a, st) {
            Err(e) => Err(e),
            Ok(s) => load_lines(b, s),
        }),
    decreases a.len(),
{
    if a.len() == 0 {
        assert(a + b =~= b);
    } else {
        assert((a + b)[0] == a[0]);
        assert((a + b).skip(1) =~= a.skip(1) + b);
        match load_step(st, a[0]) {
            Err(e) => {}
            Ok(s2) => {
                lemma_load_lines_append(a.skip(1), b, s2);
            }
        }
    }
}

proof fn lemma_load_meta(lines: Seq<Seq<u8>>, st: LoadState)
    requires
        !st.parse_objs,
        forall|k: int| 0 <= k < lines.len() ==> meta_line_ok(#[trigger] lines[k]),
    ensures
        load_lines(lines, st) matches Ok(st2) && !st2.parse_objs && st2.objs == st.objs
            && st2.combo == st.combo,
    decreases lines.len(),
{
    if lines.len() > 0 {
        let line = lines[0];
        let s1 = step_audio(st, line)->Ok_0;
        assert(step_audio(st, line) == Ok::<LoadState, LoadError>(s1));
        let s2 = step_cs(s1, line)->Ok_0;
        assert(step_cs(s1, line) == Ok::<LoadState, LoadError>(s2));
        let s3 = step_od(s2, line)->Ok_0;
        assert(step_od(s2, line) == Ok::<LoadState, LoadError>(s3));
        let s4 = step_ar(s3, line)->Ok_0;
        assert(step_ar(s3, line) == Ok::<LoadState, LoadError>(s4));
        let s5 = if has_prefix(line, bracket_prefix()) {
            LoadState { parse_objs: false, ..s4 }
        } else {
            s4
        };
        assert(load_step(st, line) == Ok::<LoadState, LoadError>(s5));
        assert forall|k: int| 0 <= k < lines.skip(1).len() implies meta_line_ok(
            #[trigger] lines.skip(1)[k],
        ) by {
            assert(lines.skip(1)[k] == lines[k + 1]);
        }
        lemma_load_meta(lines.skip(1), s5);
    }
}

/// Round trip: a chart made of any metadata lines, then the exact
/// `[HitObjects]` header, then well-formed object lines in time order,
/// loads successfully and yields exactly one target per object line,
/// in the same order and with that line's coordinates and time, and
/// the combo indices restart at 1 on each line whose flag starts a new
/// combo and count up by one in between.
pub proof fn lemma_load_round_trip(meta: Seq<Seq<u8>>, objlines: Seq<Seq<u8>>)
    requires
        objlines.len() < 0x7fff_fffd,
        forall|k: int| 0 <= k < meta.len() ==> meta_line_ok(#[trigger] meta[k]),
        forall|k: int| 0 <= k < objlines.len() ==> obj_of(#[trigger] objlines[k], 1) is Ok,
        forall|j: int, k: int|
            0 <= j <= k < objlines.len() ==> obj_fields(objlines[j]).time <= obj_fields(
                objlines[k],
            ).time,
    ensures
        loaded(meta + seq![hitobjects_prefix()] + objlines) matches Ok(st) && st.objs.len()
            == objlines.len() && (forall|k: int|
            0 <= k < objlines.len() ==> st.objs[k] == (HitObject {
                combo: combo_after(objlines, 1, k) as i32,
                ..obj_fields(#[trigger] objlines[k])
            })),
{
    let header = hitobjects_prefix();
    let tail = seq![header] + objlines;
    lemma_load_lines_append(meta, tail, init_state());
    lemma_load_meta(meta, init_state());
    let stM = load_lines(meta, init_state())->Ok_0;
    assert(load_lines(meta, init_state()) == Ok::<LoadState, LoadError>(stM));
    assert(header[0] == 91);
    assert(!has_prefix(header, audio_prefix()));
    assert(!has_prefix(header, circle_prefix()));
    assert(!has_prefix(header, overall_prefix()));
    assert(!has_prefix(header, approach_prefix()));
    assert(has_prefix(header, bracket_prefix()));
    let stH = (LoadState { parse_objs: true, ..stM });
    assert(tail[0] == header);
    assert(load_step(stM, header) == Ok::<LoadState, LoadError>(stH));
    assert(tail.skip(1) =~= objlines);
    lemma_load_objs(objlines, stH);
    let st = load_lines(objlines, stH)->Ok_0;
    assert(load_lines(tail, stM) == Ok::<LoadState, LoadError>(st));
    assert(load_lines(meta + tail, init_state()) == Ok::<LoadState, LoadError>(st));
    assert(meta + seq![header] + objlines =~= meta + tail);
    assert forall|k: int| 0 <= k < objlines.len() implies st.objs[k] == (HitObject {
        combo: combo_after(objlines, 1, k) as i32,
        ..obj_fields(#[trigger] objlines[k])
    }) by {
        assert(st.objs[stH.objs.len() + k] == (HitObject {
            combo: combo_after(objlines, stH.combo, k) as i32,
            ..obj_fields(objlines[k])
        }));
    }
    assert(sorted_by_time(st.objs)) by {
        assert forall|a: int, b: int| 0 <= a <= b < st.objs.len() implies st.objs[a].time
            <= st.objs[b].time by {
            assert(st.objs[a] == (HitObject {
                combo: combo_after(objlines, 1, a) as i32,
                ..obj_fields(objlines[a])
            }));
            assert(st.objs[b] == (HitObject {
                combo: combo_after(objlines, 1, b) as i32,
                ..obj_fields(objlines[b])
            }));
            assert(obj_fields(objlines[a]).time <= obj_fields(objlines[b]).time);
        }
    }
}

} // verus!
