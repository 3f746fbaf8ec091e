//! The judgement engine: scoring windows, the timeout sweep, the hit
//! sweep, and the derived difficulty constants.

use tosu::beat_map::{BeatMap, HitObject, Score, dist_sq};
use tosu::control::{GameAction, game_key_action, menu_scroll_down, menu_scroll_up};
use tosu::load::load_map;

fn lines(strs: &[&str]) -> Vec<Vec<u8>> {
    strs.iter().map(|s| s.as_bytes().to_vec()).collect()
}

fn obj(time: u64) -> HitObject {
    HitObject { time, x: 0, y: 0, combo: 1, score: Score::Unjudged }
}

#[test]
fn perfect_hit_at_exact_time() {
    // OD 7: Perfect window is 80 - 42 = 38, so delta 0 is a Perfect.
    let o = obj(1000);
    assert_eq!(o.score(70, 1000), Score::Perfect);
    assert_eq!(o.score(70, 1038), Score::Perfect);
    assert_eq!(o.score(70, 962), Score::Perfect);
}

#[test]
fn okay_hit_at_delta_100() {
    // OD 7: thresholds are Perfect <= 38, Great <= 84, Okay <= 130.
    let o = obj(1000);
    assert_eq!(o.score(70, 1100), Score::Okay);
    assert_eq!(o.score(70, 900), Score::Okay);
    assert_eq!(o.score(70, 1039), Score::Great);
    assert_eq!(o.score(70, 1084), Score::Great);
    assert_eq!(o.score(70, 1130), Score::Okay);
    assert_eq!(o.score(70, 1131), Score::Unjudged);
}

#[test]
fn windows_stay_nested_at_the_hardest_difficulty() {
    // OD 10: Perfect <= 20, Great <= 60, Okay <= 100
    let o = obj(1000);
    assert_eq!(o.score(100, 1020), Score::Perfect);
    assert_eq!(o.score(100, 1021), Score::Great);
    assert_eq!(o.score(100, 1060), Score::Great);
    assert_eq!(o.score(100, 1061), Score::Okay);
    assert_eq!(o.score(100, 1100), Score::Okay);
    assert_eq!(o.score(100, 1101), Score::Unjudged);
}

#[test]
fn judged_target_keeps_its_outcome() {
    let mut o = obj(1000);
    o.score = Score::Great;
    assert_eq!(o.score(70, 1000), Score::Great);
    assert_eq!(o.score(70, 1000), Score::Great);
    o.score = Score::Miss;
    assert_eq!(o.score(70, 1000), Score::Miss);
}

#[test]
fn timeout_sets_miss_exactly_once() {
    let mut m = load_map(&lines(&[
        "OverallDifficulty:7",
        "[HitObjects]",
        "10,20,1000,0",
    ]))
    .unwrap();
    // deadline is 1000 + 200 - 70 = 1130
    m.score_miss(1130);
    assert_eq!(m.objs[0].score, Score::Unjudged);
    m.score_miss(1131);
    assert_eq!(m.objs[0].score, Score::Miss);
    m.score_miss(999_999);
    assert_eq!(m.objs[0].score, Score::Miss);
}

#[test]
fn timeout_never_downgrades_a_terminal_outcome() {
    let mut m = load_map(&lines(&[
        "OverallDifficulty:7",
        "[HitObjects]",
        "100,50,1000,0",
    ]))
    .unwrap();
    // unit scale: pointer cells map one to one onto playfield units
    m.score_hit(1000, (100, 50));
    assert_eq!(m.objs[0].score, Score::Perfect);
    m.score_miss(999_999);
    assert_eq!(m.objs[0].score, Score::Perfect);
}

#[test]
fn hit_judges_only_the_earliest_target_in_reach() {
    let mut m = load_map(&lines(&[
        "OverallDifficulty:7",
        "[HitObjects]",
        "100,50,1000,0",
        "100,50,1040,0",
        "100,50,3000,0",
    ]))
    .unwrap();
    m.score_hit(1040, (100, 50));
    // even though the second target is exactly on time, the first
    // unjudged one in chart order takes the hit: delta 40 is a Great
    assert_eq!(m.objs[0].score, Score::Great);
    assert_eq!(m.objs[1].score, Score::Unjudged);
    assert_eq!(m.objs[2].score, Score::Unjudged);
}

#[test]
fn hit_out_of_every_window_leaves_target_unjudged() {
    let mut m = load_map(&lines(&[
        "OverallDifficulty:7",
        "[HitObjects]",
        "100,50,5000,0",
    ]))
    .unwrap();
    m.score_hit(1000, (100, 50));
    assert_eq!(m.objs[0].score, Score::Unjudged);
}

#[test]
fn hit_skips_judged_targets_and_out_of_reach_targets() {
    let mut m = load_map(&lines(&[
        "OverallDifficulty:7",
        "[HitObjects]",
        "100,50,1000,0",
        "400,300,1000,0",
        "100,50,1020,0",
    ]))
    .unwrap();
    m.score_hit(1000, (100, 50));
    m.score_hit(1020, (100, 50));
    assert_eq!(m.objs[0].score, Score::Perfect);
    assert_eq!(m.objs[1].score, Score::Unjudged); // far away, never in reach
    assert_eq!(m.objs[2].score, Score::Perfect);
}

#[test]
fn hit_nowhere_near_changes_nothing() {
    let mut m = load_map(&lines(&[
        "OverallDifficulty:7",
        "[HitObjects]",
        "100,50,1000,0",
    ]))
    .unwrap();
    m.score_hit(1000, (400, 300));
    assert_eq!(m.objs[0].score, Score::Unjudged);
}

#[test]
fn preempt_values_across_the_range() {
    let mut m = load_map(&lines(&[])).unwrap();
    m.set_ar(90);
    assert_eq!(m.preempt, 600);
    m.set_ar(50);
    assert_eq!(m.preempt, 1200);
    m.set_ar(40);
    assert_eq!(m.preempt, 1320);
    m.set_ar(0);
    assert_eq!(m.preempt, 1800);
    m.set_ar(100);
    assert_eq!(m.preempt, 450);
    // strictly decreasing on a few sample pairs
    let mut last = 2000;
    for ar in [0u16, 10, 30, 49, 50, 51, 70, 100] {
        m.set_ar(ar);
        assert!(m.preempt < last);
        last = m.preempt;
    }
}

#[test]
fn radius_values() {
    let mut m = load_map(&lines(&[])).unwrap();
    m.set_cs(45);
    assert_eq!(m.cs_milli, 34240); // 54.4 - 4.48*4.5 = 34.24
    m.set_cs(0);
    assert_eq!(m.cs_milli, 54400);
    m.set_cs(100);
    assert_eq!(m.cs_milli, 9600);
}

#[test]
fn squared_distance_is_exact() {
    assert_eq!(dist_sq((0, 0), (3, 4)), 25);
    assert_eq!(dist_sq((-3, 4), (3, -4)), 100);
    assert_eq!(dist_sq((7, 7), (7, 7)), 0);
}

#[test]
fn key_actions() {
    assert_eq!(game_key_action('a'), GameAction::HitAction);
    assert_eq!(game_key_action('d'), GameAction::HitAction);
    assert_eq!(game_key_action('q'), GameAction::QuitAction);
    assert_eq!(game_key_action('Q'), GameAction::QuitAction);
    assert_eq!(game_key_action('x'), GameAction::Ignore);
}

#[test]
fn menu_scrolling_stays_in_bounds() {
    assert_eq!(menu_scroll_down(0, 3), 1);
    assert_eq!(menu_scroll_down(2, 3), 2);
    assert_eq!(menu_scroll_down(0, 0), 0);
    assert_eq!(menu_scroll_up(2), 1);
    assert_eq!(menu_scroll_up(0), 0);
}
