use slhack::animation::{seek_cursor, sample_track, Animation, AnimationSet, AnimationState, Blend};
use slhack::geometry::{Point3, UnitQuaternion, Vector3};
use slhack::scene::{Object, ObjectKind};

const HERE: Point3 = Point3 { x: 0, y: 0, z: 0 };
const THERE: Point3 = Point3 { x: 10, y: 20, z: -30 };
const BASE_ROT: UnitQuaternion = UnitQuaternion { i: 0, j: 0, k: 0, w: 1000 };
const BASE_SCALE: Vector3 = Vector3 { x: 1000, y: 1000, z: 1000 };

fn object_with(name: &str, mut animation: Animation) -> Object {
    animation.compute_start_end();
    let mut animations = AnimationSet::new();
    animations.insert(name.to_string(), animation);
    Object {
        name: "thing".to_string(),
        pos: Point3::new(7, 8, 9),
        rot: BASE_ROT,
        scale: BASE_SCALE,
        kind: ObjectKind::Empty,
        animations,
        properties: serde_json::Value::Null,
    }
}

fn two_frames() -> Object {
    object_with("move", Animation::new(vec![(0, HERE), (1000, THERE)], vec![], vec![]))
}

#[test]
fn half_way_between_two_keyframes_is_the_midpoint() {
    let object = two_frames();
    let mut state = AnimationState::new("move", false);
    object.advance_state(&mut state, 500);
    let (pos, rot, scale) = object.get_animation_position(&state);
    assert_eq!(pos, Point3::new(5, 10, -15));
    assert_eq!(rot, Blend { from: BASE_ROT, to: BASE_ROT, num: 0, den: 1 });
    assert_eq!(scale, BASE_SCALE);
    assert_eq!(state.pos_frame_idx, 0);
    assert_eq!(state.animation_progress(), 500);
    assert_eq!(state.get_num_loops(), 0);
}

#[test]
fn empty_tracks_fall_back_to_the_base_pose() {
    let object = object_with("still", Animation::new(vec![], vec![], vec![]));
    let mut state = AnimationState::new("still", true);
    object.advance_state(&mut state, 0);
    let (pos, rot, scale) = object.get_animation_position(&state);
    assert_eq!(pos, Point3::new(7, 8, 9));
    assert_eq!(rot.from, BASE_ROT);
    assert_eq!(scale, BASE_SCALE);
}

#[test]
fn single_keyframe_holds_whatever_the_time() {
    let rot = UnitQuaternion::new(1, 2, 3, 4);
    let object = object_with(
        "hold",
        Animation::new(
            vec![(300, THERE)],
            vec![(300, rot)],
            vec![(0, Vector3::new(2, 2, 2)), (1000, Vector3::new(4, 4, 4))],
        ),
    );
    let mut state = AnimationState::new("hold", false);
    for dt in [0u64, 1, 299, 1, 250, 700, 3333] {
        object.advance_state(&mut state, dt);
        let (pos, r, _) = object.get_animation_position(&state);
        assert_eq!(pos, THERE);
        assert_eq!(r, Blend { from: rot, to: rot, num: 0, den: 1 });
    }
    // A cursor that was moved off the track changes nothing.
    state.pos_frame_idx = 17;
    let (pos, _, _) = object.get_animation_position(&state);
    assert_eq!(pos, THERE);
}

#[test]
fn rotation_comes_back_as_two_keyframes_and_a_share() {
    let a = UnitQuaternion::new(0, 0, 0, 1000);
    let b = UnitQuaternion::new(0, 707, 0, 707);
    let object = object_with("turn", Animation::new(vec![], vec![(0, a), (400, b)], vec![]));
    let mut state = AnimationState::new("turn", true);
    object.advance_state(&mut state, 100);
    let (_, rot, _) = object.get_animation_position(&state);
    assert_eq!(rot, Blend { from: a, to: b, num: 100, den: 400 });
}

#[test]
fn looping_progress_stays_within_the_span() {
    let object = two_frames();
    let mut state = AnimationState::new("move", false);
    let mut clock: u64 = 0;
    for dt in [1u64, 999, 1, 2500, 0, 7, 123456, 1000, 999] {
        clock += dt;
        object.advance_state(&mut state, dt);
        let p = state.animation_progress();
        assert!(p <= 1000);
        if clock % 1000 != 0 {
            assert!(p < 1000);
            assert_eq!(p, clock % 1000);
        }
        assert!(!state.is_done());
    }
}

#[test]
fn landing_on_the_end_rests_there_until_time_moves_on() {
    let object = two_frames();
    let mut state = AnimationState::new("move", false);
    object.advance_state(&mut state, 1000);
    assert_eq!(state.animation_progress(), 1000);
    assert_eq!(state.get_num_loops(), 0);
    assert_eq!(state.pos_frame_idx, 1);
    assert_eq!(object.get_animation_position(&state).0, THERE);
    object.advance_state(&mut state, 1);
    assert_eq!(state.animation_progress(), 1);
    assert_eq!(state.get_num_loops(), 1);
    assert_eq!(state.pos_frame_idx, 0);
    object.advance_state(&mut state, 2999);
    assert_eq!(state.animation_progress(), 1000);
    assert_eq!(state.get_num_loops(), 3);
}

#[test]
fn loops_add_up_over_the_advances() {
    let object = two_frames();
    let mut state = AnimationState::new("move", false);
    let mut clock: u64 = 0;
    for dt in [500u64, 600, 2300, 10, 0, 990, 4001] {
        let before = clock;
        let counted = state.get_num_loops();
        clock += dt;
        object.advance_state(&mut state, dt);
        assert!(state.get_num_loops() >= counted);
        if clock % 1000 != 0 && before % 1000 != 0 {
            assert_eq!(state.get_num_loops(), counted + clock / 1000 - before / 1000);
        }
        assert_eq!(state.get_num_loops(), clock / 1000);
    }
    assert_eq!(clock, 8401);
    assert_eq!(state.animation_progress(), 401);
    assert_eq!(state.get_num_loops(), 8);
}

#[test]
fn the_loop_counter_keeps_what_it_counted() {
    let object = two_frames();
    let mut state = AnimationState::new("move", false);
    object.advance_state(&mut state, 2500);
    assert_eq!(state.get_num_loops(), 2);
    object.advance_state(&mut state, 100);
    assert_eq!(state.get_num_loops(), 2);
    assert_eq!(state.animation_progress(), 600);
    object.advance_state(&mut state, 400);
    assert_eq!(state.get_num_loops(), 2);
    assert_eq!(state.animation_progress(), 1000);
    object.advance_state(&mut state, 1);
    assert_eq!(state.get_num_loops(), 3);
}

#[test]
fn advancing_by_nothing_settles_a_state_that_lies_beyond_the_end() {
    let object = two_frames();
    for once in [false, true] {
        let mut state = AnimationState::new("move", once);
        state.animation_progress = 4700;
        state.pos_frame_idx = 1;
        state.num_loops = 5;
        object.advance_state(&mut state, 0);
        let first = state.duplicate();
        object.advance_state(&mut state, 0);
        assert_eq!(state.animation_progress(), first.animation_progress());
        assert_eq!(state.get_num_loops(), first.get_num_loops());
        assert_eq!(state.is_done(), first.is_done());
        assert_eq!(state.pos_frame_idx, first.pos_frame_idx);
        assert_eq!(state.rot_frame_idx, first.rot_frame_idx);
        assert_eq!(state.scale_frame_idx, first.scale_frame_idx);
        assert_eq!(state.animation_name(), first.animation_name());
        assert_eq!(state.new_animation_name(), first.new_animation_name());
        if once {
            assert_eq!((first.animation_progress(), first.get_num_loops(), first.is_done()), (1000, 6, true));
        } else {
            assert_eq!((first.animation_progress(), first.get_num_loops(), first.is_done()), (700, 9, false));
        }
    }
}

#[test]
fn advancing_by_nothing_twice_is_advancing_by_nothing_once() {
    let object = two_frames();
    let mut state = AnimationState::new("move", false);
    object.advance_state(&mut state, 2750);
    object.advance_state(&mut state, 0);
    let once = (
        state.animation_progress(),
        state.pos_frame_idx,
        state.rot_frame_idx,
        state.scale_frame_idx,
        state.get_num_loops(),
        state.is_done(),
    );
    object.advance_state(&mut state, 0);
    let twice = (
        state.animation_progress(),
        state.pos_frame_idx,
        state.rot_frame_idx,
        state.scale_frame_idx,
        state.get_num_loops(),
        state.is_done(),
    );
    assert_eq!(once, twice);
    assert_eq!(once, (750, 0, 0, 0, 2, false));
}

#[test]
fn playing_once_stops_at_the_end() {
    let object = two_frames();
    let mut state = AnimationState::new("move", true);
    object.advance_state(&mut state, 999);
    assert!(!state.is_done());
    assert_eq!(state.get_num_loops(), 0);
    object.advance_state(&mut state, 500);
    assert!(state.is_done());
    assert_eq!(state.get_num_loops(), 1);
    assert_eq!(state.animation_progress(), 1000);
    assert_eq!(object.get_animation_position(&state).0, THERE);
    object.advance_state(&mut state, 500);
    assert!(state.is_done());
    assert_eq!(state.get_num_loops(), 1);
    assert_eq!(state.animation_progress(), 1000);
    assert_eq!(object.get_animation_position(&state).0, THERE);
}

#[test]
fn reset_replays_from_the_start_at_the_next_advance() {
    let object = two_frames();
    let mut state = AnimationState::new("move", true);
    object.advance_state(&mut state, 5000);
    assert!(state.is_done());
    state.reset();
    assert!(state.is_done());
    assert_eq!(state.animation_progress(), 1000);
    object.advance_state(&mut state, 250);
    assert!(!state.is_done());
    assert_eq!(state.animation_progress(), 250);
    assert_eq!(state.pos_frame_idx, 0);
}

#[test]
fn a_new_animation_takes_over_at_the_next_advance() {
    let mut object = two_frames();
    let mut other = Animation::new(vec![(0, THERE), (100, HERE), (200, THERE)], vec![], vec![]);
    other.compute_start_end();
    object.animations.insert("back".to_string(), other);
    let mut state = AnimationState::new("move", false);
    object.advance_state(&mut state, 700);
    state.set_new_animation("back");
    assert_eq!(state.animation_name(), "move");
    assert_eq!(state.new_animation_name(), "back");
    assert_eq!(state.animation_progress(), 700);
    object.advance_state(&mut state, 150);
    assert_eq!(state.animation_name(), "back");
    assert_eq!(state.animation_progress(), 150);
    assert_eq!(state.pos_frame_idx, 1);
    assert_eq!(object.get_animation_position(&state).0, Point3::new(5, 10, -15));
}

#[test]
fn an_animation_of_no_length_loops_once_per_advance() {
    let object = object_with("point", Animation::new(vec![(0, THERE)], vec![], vec![]));
    let mut state = AnimationState::new("point", false);
    object.advance_state(&mut state, 0);
    assert_eq!(state.get_num_loops(), 0);
    object.advance_state(&mut state, 40);
    assert_eq!(state.get_num_loops(), 1);
    assert_eq!(state.animation_progress(), 0);
    assert_eq!(object.get_animation_position(&state).0, THERE);
    object.advance_state(&mut state, 0);
    assert_eq!(state.get_num_loops(), 1);
    object.advance_state(&mut state, 7);
    assert_eq!(state.get_num_loops(), 2);
}

#[test]
fn span_is_taken_from_the_tracks_that_have_keyframes() {
    let mut a = Animation::new(
        vec![(300, HERE), (900, THERE)],
        vec![],
        vec![(100, BASE_SCALE), (200, BASE_SCALE), (700, BASE_SCALE)],
    );
    assert_eq!((a.start, a.end), (0, 0));
    a.compute_start_end();
    assert_eq!((a.start, a.end), (100, 900));
    let mut empty = Animation::new(vec![], vec![], vec![]);
    empty.start = 5;
    empty.end = 6;
    empty.compute_start_end();
    assert_eq!((empty.start, empty.end), (5, 6));
}

#[test]
fn cursor_rests_on_the_last_keyframe_that_has_passed() {
    let track: Vec<(u64, i32)> = vec![(0, 0), (10, 1), (10, 2), (30, 3)];
    assert_eq!(seek_cursor(&track, 0, 0), 0);
    assert_eq!(seek_cursor(&track, 0, 9), 0);
    assert_eq!(seek_cursor(&track, 0, 10), 2);
    assert_eq!(seek_cursor(&track, 0, 29), 2);
    assert_eq!(seek_cursor(&track, 0, 30), 3);
    assert_eq!(seek_cursor(&track, 0, 1000), 3);
    assert_eq!(seek_cursor(&track, 3, 0), 3);
    assert_eq!(seek_cursor(&track, 99, 0), 3);
    let none: Vec<(u64, i32)> = vec![];
    assert_eq!(seek_cursor(&none, 4, 100), 4);
}

#[test]
fn samples_do_not_reach_beyond_their_keyframes() {
    let track: Vec<(u64, i32)> = vec![(10, 100), (20, 200)];
    assert_eq!(sample_track(&track, 0, 5, -1), Blend { from: 100, to: 100, num: 0, den: 1 });
    assert_eq!(sample_track(&track, 0, 10, -1), Blend { from: 100, to: 100, num: 0, den: 1 });
    assert_eq!(sample_track(&track, 0, 13, -1), Blend { from: 100, to: 200, num: 3, den: 10 });
    assert_eq!(sample_track(&track, 0, 25, -1), Blend { from: 200, to: 200, num: 0, den: 1 });
    assert_eq!(sample_track(&track, 1, 13, -1), Blend { from: 200, to: 200, num: 0, den: 1 });
    assert_eq!(sample_track(&Vec::new(), 0, 13, -1), Blend { from: -1, to: -1, num: 0, den: 1 });
}

#[test]
fn animation_set_finds_by_name_and_replaces() {
    let mut set = AnimationSet::new();
    assert!(!set.contains_key("walk"));
    assert!(set.get("walk").is_none());
    set.set_pos_track("walk", vec![(0, HERE), (50, THERE)]);
    set.set_scale_track("walk", vec![(10, BASE_SCALE), (80, BASE_SCALE)]);
    set.set_rot_track("turn", vec![(5, BASE_ROT)]);
    set.compute_start_end();
    let walk = set.get("walk").expect("walk");
    assert_eq!(walk.pos_track.len(), 2);
    assert_eq!(walk.scale_track.len(), 2);
    assert!(walk.rot_track.is_empty());
    assert_eq!((walk.start, walk.end), (0, 80));
    let turn = set.get("turn").expect("turn");
    assert_eq!((turn.start, turn.end), (5, 5));
    set.insert("walk".to_string(), Animation::new(vec![], vec![], vec![]));
    assert!(set.get("walk").expect("walk").pos_track.is_empty());
    assert!(set.contains_key("turn"));
    let copy = set.duplicate();
    assert_eq!(copy.get("turn").expect("turn").rot_track, vec![(5, BASE_ROT)]);
}
