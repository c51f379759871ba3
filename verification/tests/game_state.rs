use std::time::Instant;
use voxel_world::game_state::GameState;

#[test]
fn new_state_counts_nothing() {
    let state = GameState::new();
    assert!(!state.is_fps_display_enabled());
    assert!(!state.is_fullscreen());
    assert_eq!(state.get_fps(), 0);
    assert_eq!(state.frame_count, 0);
}

#[test]
fn frames_are_counted_one_by_one() {
    let mut state = GameState::new();
    for expected in 1..=5 {
        state.update_frame_count();
        assert_eq!(state.frame_count, expected);
    }
    assert_eq!(state.get_fps(), 0);
}

#[test]
fn toggles_flip_their_flag_only() {
    let mut state = GameState::new();
    state.toggle_fullscreen();
    assert!(state.is_fullscreen());
    assert!(!state.is_fps_display_enabled());
    state.toggle_fps_display();
    assert!(state.is_fps_display_enabled());
    assert!(state.is_fullscreen());
    state.toggle_fullscreen();
    state.toggle_fps_display();
    assert!(!state.is_fullscreen());
    assert!(!state.is_fps_display_enabled());
}

#[test]
fn no_report_while_the_display_is_off() {
    let mut state = GameState::new();
    state.update_frame_count();
    assert_eq!(state.update_fps_display(), None);
    assert_eq!(state.close_period(Instant::now(), 5), None);
    assert_eq!(state.frame_count, 1);
    assert_eq!(state.get_fps(), 0);
}

#[test]
fn period_closes_after_a_second() {
    let mut state = GameState::new();
    state.toggle_fps_display();
    for _ in 0..60 {
        state.update_frame_count();
    }
    let started = state.last_fps_print;
    assert_eq!(state.close_period(Instant::now(), 0), None);
    assert_eq!(state.frame_count, 60);
    assert_eq!(state.last_fps_print, started);
    let now = Instant::now();
    assert_eq!(state.close_period(now, 1), Some(60));
    assert_eq!(state.get_fps(), 60);
    assert_eq!(state.frame_count, 0);
    assert_eq!(state.last_fps_print, now);
    state.update_frame_count();
    assert_eq!(state.close_period(Instant::now(), 7), Some(1));
    assert_eq!(state.get_fps(), 1);
}

#[test]
fn no_report_right_after_the_start() {
    let mut state = GameState::new();
    state.toggle_fps_display();
    state.update_frame_count();
    assert_eq!(state.update_fps_display(), None);
    assert_eq!(state.frame_count, 1);
}

#[test]
fn report_comes_once_the_clock_has_moved_on() {
    let mut state = GameState::new();
    state.toggle_fps_display();
    state.update_frame_count();
    state.update_frame_count();
    let earlier = Instant::now().checked_sub(std::time::Duration::from_secs(3));
    if let Some(earlier) = earlier {
        state.last_fps_print = earlier;
        assert_eq!(state.update_fps_display(), Some(2));
        assert_eq!(state.get_fps(), 2);
        assert_eq!(state.frame_count, 0);
        assert_eq!(state.update_fps_display(), None);
    }
}
