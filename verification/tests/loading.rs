//! The chart loader and the config reader.

use tosu::beat_map::Score;
use tosu::load::{LoadError, config_songs, load_map};

fn lines(strs: &[&str]) -> Vec<Vec<u8>> {
    strs.iter().map(|s| s.as_bytes().to_vec()).collect()
}

#[test]
fn round_trip_objects_in_order_with_combo_restarts() {
    let m = load_map(&lines(&[
        "[HitObjects]",
        "10,20,100,4",
        "30,40,200,0",
        "50,60,300,4",
        "70,80,400,0",
        "90,95,500,0",
    ]))
    .unwrap();
    assert_eq!(m.objs.len(), 5);
    let expect = [
        (10, 20, 100, 1),
        (30, 40, 200, 2),
        (50, 60, 300, 1),
        (70, 80, 400, 2),
        (90, 95, 500, 3),
    ];
    for (o, (x, y, t, c)) in m.objs.iter().zip(expect) {
        assert_eq!(o.x, x);
        assert_eq!(o.y, y);
        assert_eq!(o.time, t);
        assert_eq!(o.combo, c);
        assert_eq!(o.score, Score::Unjudged);
    }
}

#[test]
fn defaults_without_header_lines() {
    let m = load_map(&lines(&[])).unwrap();
    assert_eq!(m.od, 70); // OD 7.0
    assert_eq!(m.preempt, 600); // AR 9.0
    assert_eq!(m.cs_milli, 34240); // CS 4.5
    assert_eq!(m.track, Vec::<u8>::new());
    assert_eq!(m.objs.len(), 0);
    assert_eq!(m.hit_box, (1000, 1000));
}

#[test]
fn header_fields_are_read() {
    let m = load_map(&lines(&[
        "AudioFilename: audio.mp3",
        "CircleSize:4",
        "OverallDifficulty:5.5",
        "ApproachRate:5",
    ]))
    .unwrap();
    assert_eq!(m.track, b"audio.mp3".to_vec());
    assert_eq!(m.cs_milli, 54400 - 448 * 40);
    assert_eq!(m.od, 55);
    assert_eq!(m.preempt, 1200);
}

#[test]
fn fraction_digits_beyond_tenths_are_truncated() {
    let a = load_map(&lines(&["CircleSize:4.5"])).unwrap();
    let b = load_map(&lines(&["CircleSize:4.57"])).unwrap();
    assert_eq!(a.cs_milli, b.cs_milli);
}

#[test]
fn fraction_grammar_edges() {
    // a dot needs a digit on at least one side; a second dot is an error
    assert_eq!(load_map(&lines(&["CircleSize:.5"])).unwrap().cs_milli, 54400 - 448 * 5);
    assert_eq!(load_map(&lines(&["CircleSize:5."])).unwrap().cs_milli, 54400 - 448 * 50);
    assert_eq!(load_map(&lines(&["CircleSize:+4.5"])).unwrap().cs_milli, 34240);
    assert_eq!(load_map(&lines(&["CircleSize:."])).unwrap_err(), LoadError::BadLine);
    assert_eq!(load_map(&lines(&["CircleSize:4.5.6"])).unwrap_err(), LoadError::BadLine);
    assert_eq!(load_map(&lines(&["CircleSize:-1"])).unwrap_err(), LoadError::BadLine);
}

#[test]
fn only_the_exact_header_enables_object_parsing() {
    // a bracketed header that merely begins with the object header's
    // text is some other section: it must not enable object parsing
    let m = load_map(&lines(&["[HitObjects]x", "10,20,100,0"])).unwrap();
    assert_eq!(m.objs.len(), 0);
    let m2 = load_map(&lines(&["[HitObjects] ", "10,20,100,0"])).unwrap();
    assert_eq!(m2.objs.len(), 0);
    // and such a header closes an open section
    let m3 = load_map(&lines(&[
        "[HitObjects]",
        "10,20,100,0",
        "[HitObjects]x",
        "30,40,200,0",
    ]))
    .unwrap();
    assert_eq!(m3.objs.len(), 1);
}

#[test]
fn object_lines_outside_the_section_are_ignored() {
    let m = load_map(&lines(&[
        "1,2,300,0",
        "[HitObjects]",
        "10,20,100,0",
        "[TimingPoints]",
        "30,40,200,0",
    ]))
    .unwrap();
    assert_eq!(m.objs.len(), 1);
    assert_eq!(m.objs[0].time, 100);
}

#[test]
fn extra_fields_and_negative_coordinates_are_accepted() {
    let m = load_map(&lines(&[
        "[HitObjects]",
        "-10,256,100,0,0,0:0:0:0:",
    ]))
    .unwrap();
    assert_eq!(m.objs[0].x, -10);
    assert_eq!(m.objs[0].y, 256);
}

#[test]
fn unparseable_scalar_is_a_bad_line() {
    assert_eq!(load_map(&lines(&["CircleSize:abc"])).unwrap_err(), LoadError::BadLine);
    assert_eq!(load_map(&lines(&["CircleSize"])).unwrap_err(), LoadError::BadLine);
    assert_eq!(load_map(&lines(&["OverallDifficulty:"])).unwrap_err(), LoadError::BadLine);
}

#[test]
fn short_or_malformed_object_line_is_a_bad_line() {
    assert_eq!(
        load_map(&lines(&["[HitObjects]", "1,2"])).unwrap_err(),
        LoadError::BadLine
    );
    assert_eq!(
        load_map(&lines(&["[HitObjects]", "1,2,x,0"])).unwrap_err(),
        LoadError::BadLine
    );
    assert_eq!(
        load_map(&lines(&["[HitObjects]", "1,2,100,900"])).unwrap_err(),
        LoadError::BadLine // flag byte out of the i8 range
    );
    assert_eq!(
        load_map(&lines(&["AudioFilename"])).unwrap_err(),
        LoadError::BadLine // no second word
    );
}

#[test]
fn out_of_range_scalar_is_rejected() {
    assert_eq!(
        load_map(&lines(&["OverallDifficulty:20"])).unwrap_err(),
        LoadError::OutOfRange
    );
    assert_eq!(
        load_map(&lines(&["ApproachRate:10.1"])).unwrap_err(),
        LoadError::OutOfRange
    );
}

#[test]
fn out_of_order_objects_are_rejected() {
    assert_eq!(
        load_map(&lines(&["[HitObjects]", "1,2,200,0", "3,4,100,0"])).unwrap_err(),
        LoadError::Unsorted
    );
}

#[test]
fn negative_flag_byte_can_start_a_new_combo() {
    // -4 is 0xfc as a byte: its bit with value 4 is set
    let m = load_map(&lines(&[
        "[HitObjects]",
        "1,2,100,0",
        "3,4,200,-4",
    ]))
    .unwrap();
    assert_eq!(m.objs[0].combo, 1);
    assert_eq!(m.objs[1].combo, 1);
}

#[test]
fn config_songs_takes_the_last_entry() {
    assert_eq!(
        config_songs(&lines(&["Songs:/a", "other", "Songs:/b/c"])).unwrap(),
        b"/b/c".to_vec()
    );
    assert_eq!(config_songs(&lines(&["nothing here"])).unwrap(), Vec::<u8>::new());
    assert_eq!(config_songs(&lines(&["Songs"])).unwrap_err(), LoadError::BadLine);
}
