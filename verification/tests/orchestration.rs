//! Bank arbitration, the per-tick schedule, and authoring, end to end.

use skeletal::bank::AnimationBank;
use skeletal::interpolation::{Line, Vec4};
use skeletal::player::{Rig, Scale, Transform, MAX_TIME};
use skeletal::plugin::SkeletonPlugin;
use skeletal::skeleton::{index_records, Animations, Bone, Channel};

fn v(x: i32) -> Vec4 {
    Vec4::new(x, 0, 0, 0)
}

fn zero_transform() -> Transform {
    Transform::new(v(0), v(0), v(0))
}

fn two_segment_walk() -> Channel {
    // 1.0 s then 1.0 s in millisecond ticks, x from 0 to 1.0 to 2.0 in
    // thousandths.
    let mut lines: Vec<Line> = Vec::new();
    lines.push(Line::new(1000, v(0), v(1000)));
    lines.push(Line::new(1000, v(1000), v(2000)));
    Channel::Translation(lines)
}

#[test]
fn walk_end_to_end() {
    let mut bank = AnimationBank::new();
    let mut rig = Rig::new();
    assert!(rig.add_bone(1, zero_transform()));
    let name = String::from("walk");
    bank.add_animation(&name, 1, two_segment_walk());
    bank.start_animation(String::from("walk"), false);
    let plugin = SkeletonPlugin::new();

    // Five half-second ticks; the clock starts the first tick at 500 ms.
    plugin.tick(&mut bank, &mut rig, 500, 500);
    assert_eq!(bank.active_animation(), Some("walk"));
    assert_eq!(rig.bones[0].transform.translation, v(500));

    plugin.tick(&mut bank, &mut rig, 1000, 500);
    assert_eq!(rig.bones[0].transform.translation, v(1000));

    plugin.tick(&mut bank, &mut rig, 1500, 500);
    assert_eq!(rig.bones[0].transform.translation, v(1500));

    // Deadline is 500 + 2000 = 2500: still active at 2000.
    plugin.tick(&mut bank, &mut rig, 2000, 500);
    assert_eq!(bank.active_animation(), Some("walk"));
    assert_eq!(rig.bones[0].transform.translation, v(2000));

    // At 2500 the stop-check clears it and publishes the completion; the
    // player also runs out and the transform keeps its last value.
    plugin.tick(&mut bank, &mut rig, 2500, 500);
    assert_eq!(bank.active_animation(), None);
    assert_eq!(bank.check_complete(), Some("walk"));
    assert!(rig.bones[0].translation.channel.is_none());
    assert_eq!(rig.bones[0].transform.translation, v(2000));

    // The next tick's cleanup drains the one-shot notification.
    plugin.tick(&mut bank, &mut rig, 3000, 500);
    assert_eq!(bank.check_complete(), None);
}

#[test]
fn interrupting_completes_superseded_animation_once() {
    let mut bank = AnimationBank::new();
    let mut rig = Rig::new();
    assert!(rig.add_bone(1, zero_transform()));
    let a = String::from("a");
    let b = String::from("b");
    bank.add_animation(&a, 1, two_segment_walk());
    bank.add_animation(&b, 1, two_segment_walk());
    let plugin = SkeletonPlugin::new();

    bank.start_animation(String::from("a"), false);
    plugin.tick(&mut bank, &mut rig, 100, 100);
    assert_eq!(bank.active_animation(), Some("a"));
    assert_eq!(bank.check_complete(), None);

    // Start b well before a's deadline (100 + 2000).
    bank.start_animation(String::from("b"), false);
    plugin.tick(&mut bank, &mut rig, 200, 100);
    assert_eq!(bank.active_animation(), Some("b"));
    assert_eq!(bank.check_complete(), Some("a"));

    // Exactly once: the next cleanup drains it.
    plugin.tick(&mut bank, &mut rig, 300, 100);
    assert_eq!(bank.check_complete(), None);
    assert_eq!(bank.active_animation(), Some("b"));
}

#[test]
fn interrupt_on_expiry_tick_still_records_completion() {
    // A new start and the old animation's natural expiry land on the same
    // tick: the start phase takes priority, so the superseded name is
    // published, not silently dropped.
    let mut bank = AnimationBank::new();
    let mut rig = Rig::new();
    assert!(rig.add_bone(1, zero_transform()));
    let a = String::from("a");
    let b = String::from("b");
    bank.add_animation(&a, 1, two_segment_walk());
    bank.add_animation(&b, 1, two_segment_walk());
    let plugin = SkeletonPlugin::new();

    bank.start_animation(String::from("a"), false);
    plugin.tick(&mut bank, &mut rig, 100, 100);
    // a's deadline is 100 + 2000 = 2100; start b exactly there.
    bank.start_animation(String::from("b"), false);
    plugin.tick(&mut bank, &mut rig, 2100, 100);
    assert_eq!(bank.active_animation(), Some("b"));
    assert_eq!(bank.check_complete(), Some("a"));
    plugin.tick(&mut bank, &mut rig, 2200, 100);
    assert_eq!(bank.check_complete(), None);
    assert_eq!(bank.active_animation(), Some("b"));
}

#[test]
fn nonlooping_deadline_fires_exactly_once() {
    let mut bank = AnimationBank::new();
    let mut rig = Rig::new();
    assert!(rig.add_bone(1, zero_transform()));
    let n = String::from("n");
    bank.add_animation(&n, 1, two_segment_walk());
    let plugin = SkeletonPlugin::new();
    bank.start_animation(String::from("n"), false);
    plugin.tick(&mut bank, &mut rig, 1000, 100);
    // Deadline 3000: still active strictly before it.
    plugin.tick(&mut bank, &mut rig, 2999, 100);
    assert_eq!(bank.active_animation(), Some("n"));
    assert_eq!(bank.check_complete(), None);
    plugin.tick(&mut bank, &mut rig, 3000, 100);
    assert_eq!(bank.active_animation(), None);
    assert_eq!(bank.check_complete(), Some("n"));
    plugin.tick(&mut bank, &mut rig, 3100, 100);
    assert_eq!(bank.check_complete(), None);
}

#[test]
fn looping_animation_never_expires() {
    let mut bank = AnimationBank::new();
    let mut rig = Rig::new();
    assert!(rig.add_bone(1, zero_transform()));
    let name = String::from("idle");
    bank.add_animation(&name, 1, two_segment_walk());
    let plugin = SkeletonPlugin::new();
    bank.start_animation(String::from("idle"), true);
    let mut now: u64 = 0;
    for _ in 0..10 {
        now += 700;
        plugin.tick(&mut bank, &mut rig, now, 700);
        assert_eq!(bank.active_animation(), Some("idle"));
    }
    // Phase 7000 mod 2000 = 1000: the first segment's end value.
    assert_eq!(rig.bones[0].transform.translation, v(1000));
}

#[test]
fn second_start_request_wins() {
    let mut bank = AnimationBank::new();
    let mut rig = Rig::new();
    assert!(rig.add_bone(1, zero_transform()));
    let x = String::from("x");
    let y = String::from("y");
    bank.add_animation(&x, 1, two_segment_walk());
    bank.add_animation(&y, 1, two_segment_walk());
    bank.start_animation(String::from("x"), false);
    bank.start_animation(String::from("y"), true);
    assert_eq!(bank.setting_animation, Some((true, String::from("y"))));
    let plugin = SkeletonPlugin::new();
    plugin.tick(&mut bank, &mut rig, 100, 100);
    assert_eq!(bank.active_animation(), Some("y"));
    assert_eq!(bank.check_complete(), None);
}

#[test]
fn unknown_name_is_dropped_silently() {
    let mut bank = AnimationBank::new();
    let mut rig = Rig::new();
    assert!(rig.add_bone(1, zero_transform()));
    bank.start_animation(String::from("nope"), false);
    let plugin = SkeletonPlugin::new();
    plugin.tick(&mut bank, &mut rig, 100, 100);
    assert_eq!(bank.active_animation(), None);
    assert_eq!(bank.check_complete(), None);
    assert!(bank.setting_animation.is_none());
}

#[test]
fn unresolved_bone_is_skipped_not_fatal() {
    let mut bank = AnimationBank::new();
    let mut rig = Rig::new();
    assert!(rig.add_bone(1, zero_transform()));
    let name = String::from("walk");
    // The animation drives bone 1 and the absent bone 99.
    bank.add_animation(&name, 1, two_segment_walk());
    bank.add_animation(&name, 99, two_segment_walk());
    bank.start_animation(String::from("walk"), false);
    let plugin = SkeletonPlugin::new();
    plugin.tick(&mut bank, &mut rig, 500, 500);
    assert_eq!(bank.active_animation(), Some("walk"));
    assert_eq!(rig.bones[0].transform.translation, v(500));
}

#[test]
fn starting_kills_players_of_absent_attributes() {
    let mut bank = AnimationBank::new();
    let mut rig = Rig::new();
    assert!(rig.add_bone(1, zero_transform()));
    let both = String::from("both");
    let tr_only = String::from("tr_only");
    let mut rot_lines: Vec<Line> = Vec::new();
    rot_lines.push(Line::new(1000, v(0), v(500)));
    bank.add_animation(&both, 1, two_segment_walk());
    bank.add_animation(&both, 1, Channel::Rotation(rot_lines));
    bank.add_animation(&tr_only, 1, two_segment_walk());
    let plugin = SkeletonPlugin::new();
    bank.start_animation(String::from("both"), true);
    plugin.tick(&mut bank, &mut rig, 100, 100);
    assert!(rig.bones[0].translation.channel.is_some());
    assert!(rig.bones[0].rotation.channel.is_some());
    // The next animation has no rotation channel: that player is killed.
    bank.start_animation(String::from("tr_only"), true);
    plugin.tick(&mut bank, &mut rig, 200, 100);
    assert!(rig.bones[0].translation.channel.is_some());
    assert!(rig.bones[0].rotation.channel.is_none());
}

#[test]
fn add_animation_first_channel_wins_per_attribute() {
    let mut bank = AnimationBank::new();
    let name = String::from("walk");
    bank.add_animation(&name, 1, two_segment_walk());
    assert_eq!(bank.animations[0].1.duration, 2000);
    // A second translation channel for the same bone is ignored.
    let mut longer: Vec<Line> = Vec::new();
    longer.push(Line::new(5000, v(0), v(1)));
    bank.add_animation(&name, 1, Channel::Translation(longer));
    assert_eq!(bank.animations[0].1.duration, 2000);
    // A rotation channel accumulates and the duration grows to the max.
    let mut rot: Vec<Line> = Vec::new();
    rot.push(Line::new(3000, v(0), v(1)));
    bank.add_animation(&name, 1, Channel::Rotation(rot));
    assert_eq!(bank.animations[0].1.duration, 3000);
    assert_eq!(bank.animations.len(), 1);
    assert_eq!(bank.animations[0].1.bones.len(), 1);
}

#[test]
fn add_animation_keeps_bones_sorted() {
    let mut bank = AnimationBank::new();
    let name = String::from("walk");
    bank.add_animation(&name, 7, two_segment_walk());
    bank.add_animation(&name, 3, two_segment_walk());
    bank.add_animation(&name, 5, two_segment_walk());
    let bones = &bank.animations[0].1.bones;
    assert_eq!(bones.len(), 3);
    assert_eq!(bones[0].entity, 3);
    assert_eq!(bones[1].entity, 5);
    assert_eq!(bones[2].entity, 7);
}

#[test]
fn rig_rejects_duplicate_bone() {
    let mut rig = Rig::new();
    assert!(rig.add_bone(4, zero_transform()));
    assert!(!rig.add_bone(4, zero_transform()));
    assert_eq!(rig.bones.len(), 1);
}

#[test]
fn scale_arithmetic() {
    let a = Scale::new(Vec4::new(1, 2, 3, 4));
    let b = Scale::new(Vec4::new(10, 20, 30, 40));
    let sum = a.add(b);
    assert_eq!(sum.axes, Vec4::new(11, 22, 33, 44));
    let doubled = sum.mul(2);
    assert_eq!(doubled.axes, Vec4::new(22, 44, 66, 88));
}

#[test]
fn max_time_bounds_channel_duration() {
    assert_eq!(MAX_TIME, 0xffff_ffff);
}

#[test]
fn bone_instance_record_is_preorder() {
    let grandchild = Bone::new(3);
    let mut child_a = Bone::new(1);
    child_a.children.push(grandchild);
    let child_b = Bone::new(2);
    let mut root = Bone::new(0);
    root.children.push(child_a);
    root.children.push(child_b);
    let mut record: Vec<usize> = Vec::new();
    root.instance_record(&mut record);
    assert_eq!(record, vec![0, 1, 3, 2]);
}

#[test]
fn index_records_last_write_wins() {
    let records: Vec<(usize, u64)> = vec![(0, 10), (2, 12), (0, 13)];
    let table = index_records(&records);
    assert_eq!(table, vec![Some(13), None, Some(12)]);
}

#[test]
fn index_records_empty_is_empty() {
    let records: Vec<(usize, u64)> = Vec::new();
    assert_eq!(index_records(&records).len(), 0);
}

#[test]
fn animations_instance_builds_bank() {
    let root = Bone::new(0);
    let mut authored = Animations::new(root);
    let mut pairs: Vec<(usize, Channel)> = Vec::new();
    pairs.push((0, two_segment_walk()));
    authored.add_animation(String::from("walk"), pairs);
    let bone_ids: Vec<Option<u64>> = vec![Some(42)];
    let bank = authored.instance(&bone_ids).expect("all bones resolve");
    assert_eq!(bank.animations.len(), 1);
    assert_eq!(bank.animations[0].0, String::from("walk"));
    assert_eq!(bank.animations[0].1.bones[0].entity, 42);
}

#[test]
fn animations_instance_fails_on_unresolved_bone() {
    let root = Bone::new(0);
    let mut authored = Animations::new(root);
    let mut pairs: Vec<(usize, Channel)> = Vec::new();
    pairs.push((1, two_segment_walk()));
    authored.add_animation(String::from("walk"), pairs);
    let bone_ids: Vec<Option<u64>> = vec![Some(42)];
    assert!(authored.instance(&bone_ids).is_err());
}

#[test]
fn animations_add_animation_replaces_same_name() {
    let root = Bone::new(0);
    let mut authored = Animations::new(root);
    let mut pairs: Vec<(usize, Channel)> = Vec::new();
    pairs.push((0, two_segment_walk()));
    authored.add_animation(String::from("walk"), pairs);
    let replacement: Vec<(usize, Channel)> = Vec::new();
    authored.add_animation(String::from("walk"), replacement);
    assert_eq!(authored.animations.len(), 1);
    assert_eq!(authored.animations[0].1.len(), 0);
}
