//! Session state outside the world: the frame counter behind the FPS display
//! and the display toggles.

use vstd::prelude::*;
use std::time::{Duration, Instant};

verus! {

/// A point on the monotonic clock of `std::time`.
#[verifier::external_type_specification]
#[verifier::external_body]
pub struct ExInstant(Instant);

/// `Instant::now`: the current point on the monotonic clock. It differs from
/// call to call, so nothing is claimed of it.
#[verifier::external_body]
fn clock_now() -> (now: Instant) {
    Instant::now()
}

/// `Instant::duration_since`: the time from `earlier` to `later`, or zero if
/// `earlier` is the later one. The two points are opaque, so nothing is
/// claimed of the result.
#[verifier::external_body]
fn time_between(later: &Instant, earlier: &Instant) -> (elapsed: Duration) {
    later.duration_since(*earlier)
}

/// `Duration::as_secs`: the whole seconds of a duration. The duration is
/// opaque, so nothing is claimed of the result.
#[verifier::external_body]
fn whole_seconds(elapsed: &Duration) -> (seconds: u64) {
    elapsed.as_secs()
}

/// Frame statistics and display toggles of a running session.
pub struct GameState {
    /// Whether the frames per second are reported.
    pub show_fps: bool,
    /// When the frames per second were last reported.
    pub last_fps_print: Instant,
    /// Frames counted since the last report.
    pub frame_count: u32,
    /// The count of the last report.
    pub last_fps: u32,
    /// Whether the window covers the screen.
    pub fullscreen: bool,
}

impl GameState {
    /// The state of a session that starts now: nothing counted, both toggles off.
    pub fn new() -> (state: GameState)
        ensures
            !state.show_fps,
            !state.fullscreen,
            state.frame_count == 0,
            state.last_fps == 0,
    {
        GameState {
            show_fps: false,
            last_fps_print: clock_now(),
            frame_count: 0,
            last_fps: 0,
            fullscreen: false,
        }
    }

    /// Counts one more frame.
    pub fn update_frame_count(&mut self)
        requires
            old(self).frame_count < u32::MAX,
        ensures
            final(self).frame_count == old(self).frame_count + 1,
            final(self).show_fps == old(self).show_fps,
            final(self).last_fps_print == old(self).last_fps_print,
            final(self).last_fps == old(self).last_fps,
            final(self).fullscreen == old(self).fullscreen,
    {
        self.frame_count += 1;
    }

    /// Closes a counting period if one is over, given that `now` is
    /// `elapsed_seconds` whole seconds after the last report.
    ///
    /// While the display is on and at least one second has passed, the frames
    /// counted become the reported value, counting starts again at zero from
    /// `now`, and the value is returned. In every other case nothing changes
    /// and nothing is returned.
    pub fn close_period(&mut self, now: Instant, elapsed_seconds: u64) -> (report: Option<u32>)
        ensures
            final(self).show_fps == old(self).show_fps,
            final(self).fullscreen == old(self).fullscreen,
            report == if old(self).show_fps && elapsed_seconds >= 1 {
                Some(old(self).frame_count)
            } else {
                None
            },
            report is Some ==> final(self).last_fps == old(self).frame_count && final(self).frame_count == 0 && final(self).last_fps_print == now,
            report is None ==> *final(self) == *old(self),
    {
        if !self.show_fps {
            return None;
        }
        if elapsed_seconds >= 1 {
            self.last_fps = self.frame_count;
            self.frame_count = 0;
            self.last_fps_print = now;
            Some(self.last_fps)
        } else {
            None
        }
    }

    /// Reports the frames per second once a second while the display is on.
    ///
    /// Reads the clock and closes the counting period as `close_period` does.
    /// Whether a second has passed is up to the clock; a report, when there
    /// is one, is the number of frames counted since the last.
    pub fn update_fps_display(&mut self) -> (report: Option<u32>)
        ensures
            final(self).show_fps == old(self).show_fps,
            final(self).fullscreen == old(self).fullscreen,
            !old(self).show_fps ==> report is None,
            report matches Some(fps) ==> fps == old(self).frame_count && final(self).last_fps == fps
                && final(self).frame_count == 0,
            report is None ==> *final(self) == *old(self),
    {
        if !self.show_fps {
            return None;
        }
        let now = clock_now();
        let elapsed = time_between(&now, &self.last_fps_print);
        let seconds = whole_seconds(&elapsed);
        self.close_period(now, seconds)
    }

    /// Switches the FPS display on or off.
    pub fn toggle_fps_display(&mut self)
        ensures
            final(self).show_fps == !old(self).show_fps,
            final(self).last_fps_print == old(self).last_fps_print,
            final(self).frame_count == old(self).frame_count,
            final(self).last_fps == old(self).last_fps,
            final(self).fullscreen == old(self).fullscreen,
    {
        self.show_fps = !self.show_fps;
    }

    /// Switches between windowed and fullscreen.
    pub fn toggle_fullscreen(&mut self)
        ensures
            final(self).fullscreen == !old(self).fullscreen,
            final(self).show_fps == old(self).show_fps,
            final(self).last_fps_print == old(self).last_fps_print,
            final(self).frame_count == old(self).frame_count,
            final(self).last_fps == old(self).last_fps,
    {
        self.fullscreen = !self.fullscreen;
    }

    /// The frames per second of the last report.
    pub fn get_fps(&self) -> (fps: u32)
        ensures
            fps == self.last_fps,
    {
        self.last_fps
    }

    /// Whether the frames per second are reported.
    pub fn is_fps_display_enabled(&self) -> (enabled: bool)
        ensures
            enabled == self.show_fps,
    {
        self.show_fps
    }

    /// Whether the window covers the screen.
    pub fn is_fullscreen(&self) -> (fullscreen: bool)
        ensures
            fullscreen == self.fullscreen,
    {
        self.fullscreen
    }
}

} // verus!
