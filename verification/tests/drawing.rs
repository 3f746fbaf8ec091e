//! The visibility window and per-target visual states.

use tosu::beat_map::Score;
use tosu::draw::ObjDraw;
use tosu::load::load_map;

fn lines(strs: &[&str]) -> Vec<Vec<u8>> {
    strs.iter().map(|s| s.as_bytes().to_vec()).collect()
}

#[test]
fn approach_window_opens_exactly_one_preempt_early() {
    // AR 9 gives a preempt of 1200 - 750*(4/5) = 600
    let mut m = load_map(&lines(&[
        "ApproachRate:9",
        "[HitObjects]",
        "256,192,1000,0",
    ]))
    .unwrap();
    assert_eq!(m.preempt, 600);
    let early = m.draw_game(399, 512, 384);
    assert_eq!(early[0], ObjDraw::Hidden);
    let visible = m.draw_game(400, 512, 384);
    match visible[0] {
        ObjDraw::Active { x, y, approach, radius_milli, combo } => {
            assert_eq!(x, 256);
            assert_eq!(y, 384 - 192);
            assert_eq!(radius_milli, m.cs_milli);
            assert_eq!(combo, 1);
            // the ring shrinks from six times the hit radius down to it
            assert_eq!(approach, Some(m.cs_milli * 6));
        }
        other => panic!("expected an active target, got {:?}", other),
    }
}

#[test]
fn approach_ring_reaches_the_hit_circle_at_the_scheduled_instant() {
    let mut m = load_map(&lines(&[
        "ApproachRate:9",
        "[HitObjects]",
        "256,192,1000,0",
    ]))
    .unwrap();
    let at_time = m.draw_game(1000, 512, 384);
    match at_time[0] {
        ObjDraw::Active { approach, radius_milli, .. } => {
            assert_eq!(approach, Some(radius_milli));
        }
        other => panic!("expected an active target, got {:?}", other),
    }
    // past the scheduled instant there is no ring, only the circle
    let late = m.draw_game(1001, 512, 384);
    match late[0] {
        ObjDraw::Active { approach, .. } => assert_eq!(approach, None),
        other => panic!("expected an active target, got {:?}", other),
    }
}

#[test]
fn judged_targets_show_labels_and_perfect_shows_nothing() {
    let mut m = load_map(&lines(&[
        "ApproachRate:9",
        "OverallDifficulty:7",
        "[HitObjects]",
        "256,192,1000,0",
        "100,50,1500,0",
    ]))
    .unwrap();
    // a frame at full surface size gives a one-to-one pointer scale
    m.draw_game(1000, 512, 384);
    m.score_hit(1000, (256, 192));
    assert_eq!(m.objs[0].score, Score::Perfect);
    let frame = m.draw_game(1010, 512, 384);
    assert_eq!(frame[0], ObjDraw::Hidden); // a perfect hit disappears
    // the second target misses its window
    let mut m2 = m;
    m2.score_miss(1500 + 200 - 70 + 1);
    let frame2 = m2.draw_game(1631, 512, 384);
    assert_eq!(
        frame2[1],
        ObjDraw::Judged { x: 100, y: 384 - 50, score: Score::Miss }
    );
}

#[test]
fn long_past_targets_disappear() {
    let mut m = load_map(&lines(&[
        "ApproachRate:9",
        "OverallDifficulty:7",
        "[HitObjects]",
        "256,192,1000,0",
    ]))
    .unwrap();
    m.score_miss(2000);
    // visible as a label while within deadline + preempt = 1130 + 600
    let label = m.draw_game(1730, 512, 384);
    assert_eq!(
        label[0],
        ObjDraw::Judged { x: 256, y: 192, score: Score::Miss }
    );
    let gone = m.draw_game(1731, 512, 384);
    assert_eq!(gone[0], ObjDraw::Hidden);
}

#[test]
fn frame_records_the_surface_scale() {
    let mut m = load_map(&lines(&["[HitObjects]", "10,20,100,0"])).unwrap();
    m.draw_game(0, 256, 96);
    assert_eq!(m.hit_box, (512_000 / 256, 384_000 / 96));
}
