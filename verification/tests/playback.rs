//! Segment sampling and player advancement, on concrete channels.

use skeletal::interpolation::{Line, Vec4};
use skeletal::player::{Channel, Player};

fn v(x: i32) -> Vec4 {
    Vec4::new(x, 0, 0, 0)
}

fn channel(lens_and_vals: &[(u64, i32, i32)]) -> Channel {
    let mut lines: Vec<Line> = Vec::new();
    for &(len, s, e) in lens_and_vals {
        lines.push(Line::new(len, v(s), v(e)));
    }
    Channel::new(lines).expect("well-formed channel")
}

#[test]
fn sample_at_zero_gives_start() {
    let line = Line::new(1000, v(0), v(1000));
    assert_eq!(line.sample(0), Ok(v(0)));
}

#[test]
fn sample_at_length_gives_end() {
    let line = Line::new(1000, v(0), v(1000));
    assert_eq!(line.sample(1000), Ok(v(1000)));
}

#[test]
fn sample_past_length_reports_overshoot() {
    let line = Line::new(1000, v(0), v(1000));
    assert_eq!(line.sample(1001), Err(1));
    assert_eq!(line.sample(1500), Err(500));
}

#[test]
fn sample_interpolates_midpoint() {
    let line = Line::new(1000, v(0), v(1000));
    assert_eq!(line.sample(500), Ok(v(500)));
    assert_eq!(line.sample(250), Ok(v(250)));
}

#[test]
fn sample_interpolates_decreasing_lane() {
    let line = Line::new(4, v(100), v(0));
    assert_eq!(line.sample(1), Ok(v(75)));
    assert_eq!(line.sample(3), Ok(v(25)));
}

#[test]
fn line_len_reports_window() {
    let line = Line::new(7, v(0), v(1));
    assert_eq!(line.len(), 7);
}

#[test]
fn channel_new_computes_duration() {
    let c = channel(&[(2, 0, 10), (3, 10, 20)]);
    assert_eq!(c.duration, 5);
    assert_eq!(c.lines.len(), 2);
}

#[test]
fn channel_new_rejects_empty() {
    assert!(Channel::new(Vec::new()).is_none());
}

#[test]
fn channel_new_rejects_overlong_total() {
    let mut lines = Vec::new();
    lines.push(Line::new(0xffff_ffff, v(0), v(1)));
    lines.push(Line::new(1, v(1), v(2)));
    assert!(Channel::new(lines).is_none());
}

#[test]
fn idle_player_produces_nothing() {
    let mut p = Player::new();
    assert_eq!(p.play(100), None);
    assert!(p.channel.is_none());
}

#[test]
fn nonlooping_player_plays_whole_duration_then_idles() {
    // Segments of 2 and 3 ticks: any partition of the 5-tick duration keeps
    // producing values; the first tick past it goes idle.
    let c = channel(&[(2, 0, 10), (3, 10, 40)]);
    let mut p = Player::new();
    p.set_channel(&c, false);
    p.reset();
    assert_eq!(p.play(2), Some(v(10)));
    assert_eq!(p.play(2), Some(v(30)));
    assert_eq!(p.play(1), Some(v(40)));
    assert!(p.channel.is_some());
    assert_eq!(p.play(1), None);
    assert!(p.channel.is_none());
    assert_eq!(p.idx, 0);
    assert_eq!(p.time, 0);
}

#[test]
fn nonlooping_player_same_total_other_partition() {
    let c = channel(&[(2, 0, 10), (3, 10, 40)]);
    let mut p = Player::new();
    p.set_channel(&c, false);
    p.reset();
    assert_eq!(p.play(1), Some(v(5)));
    assert_eq!(p.play(3), Some(v(30)));
    assert_eq!(p.play(1), Some(v(40)));
    assert_eq!(p.play(7), None);
}

#[test]
fn segment_boundary_carries_overshoot() {
    let c = channel(&[(2, 0, 10), (3, 10, 40)]);
    let mut p = Player::new();
    p.set_channel(&c, false);
    p.reset();
    // 3 ticks: one past the first segment, so 1 tick into the second.
    assert_eq!(p.play(3), Some(v(20)));
    assert_eq!(p.idx, 1);
    assert_eq!(p.time, 1);
}

#[test]
fn looping_player_advance_by_duration_is_identity() {
    let c = channel(&[(2, 0, 10), (3, 10, 40)]);
    let mut p = Player::new();
    p.set_channel(&c, true);
    p.reset();
    let first = p.play(1);
    let idx = p.idx;
    let time = p.time;
    // One full channel duration later the cursor is exactly where it was.
    let again = p.play(5);
    assert_eq!(p.idx, idx);
    assert_eq!(p.time, time);
    assert_eq!(first, again);
}

#[test]
fn looping_player_wraps_residual_phase() {
    let c = channel(&[(2, 0, 10), (3, 10, 40)]);
    let mut p = Player::new();
    p.set_channel(&c, true);
    p.reset();
    // 8 ticks from phase 0: 8 mod 5 = 3, one tick into the second segment.
    assert_eq!(p.play(8), Some(v(20)));
    assert_eq!(p.idx, 1);
    assert_eq!(p.time, 1);
}

#[test]
fn looping_player_wraps_many_periods() {
    let c = channel(&[(2, 0, 10), (3, 10, 40)]);
    let mut p = Player::new();
    p.set_channel(&c, true);
    p.reset();
    // 17 mod 5 = 2: the first segment's end.
    assert_eq!(p.play(17), Some(v(10)));
}

#[test]
fn kill_drops_channel_immediately() {
    let c = channel(&[(2, 0, 10)]);
    let mut p = Player::new();
    p.set_channel(&c, false);
    p.reset();
    assert_eq!(p.play(1), Some(v(5)));
    p.kill();
    assert!(p.channel.is_none());
    assert_eq!(p.play(1), None);
}
