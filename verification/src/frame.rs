//! The decisions of the frame loop.
use vstd::prelude::*;

use crate::rain::RainState;

verus! {

/// Frames per second.
pub const TARGET_FPS: u64 = 60;

/// The budget of a frame in microseconds.
pub const FRAME_US: u64 = 1_000_000 / TARGET_FPS;

/// The statistics are read again every so many frames.
pub const STATS_REFRESH_FRAMES: u32 = 30;

/// A key, as far as the loop tells keys apart.
#[derive(Clone, Copy, Debug, PartialEq, Eq, Structural)]
pub enum Key {
    Char(char),
    Esc,
    Other,
}

/// The key ends the program: `q`, escape, or `c` with control and no other
/// modifier.
pub fn quits(key: Key, only_control: bool) -> (quit: bool)
    ensures
        quit <==> key == Key::Char('q') || key == Key::Esc || (key == Key::Char('c')
            && only_control),
{
    match key {
        Key::Char(c) => c == 'q' || (c == 'c' && only_control),
        Key::Esc => true,
        Key::Other => false,
    }
}

/// The statistics are read in this frame.
pub open spec fn is_reading(frame_n: u32) -> bool {
    frame_n % STATS_REFRESH_FRAMES == 0
}

/// Whether the statistics are to be read in this frame.
pub fn stats_due(frame_n: u32) -> (due: bool)
    ensures
        due == is_reading(frame_n),
        due <==> frame_n % 30 == 0,
{
    frame_n % STATS_REFRESH_FRAMES == 0
}

/// The number of the next frame. After the last one the count starts again.
pub fn next_frame(frame_n: u32) -> (next: u32)
    ensures
        next == if frame_n == u32::MAX { 0 } else { frame_n + 1 },
{
    frame_n.wrapping_add(1)
}

/// What is left of the budget of a frame, if anything is.
pub open spec fn remaining_budget(elapsed_us: u64) -> Option<u64> {
    if elapsed_us < FRAME_US {
        Some((FRAME_US - elapsed_us) as u64)
    } else {
        None
    }
}

/// How long to pause after a frame that has taken `elapsed_us` so far.
pub fn pause_us(elapsed_us: u64) -> (pause: Option<u64>)
    ensures
        pause == remaining_budget(elapsed_us),
        elapsed_us < 16_666 ==> pause == Some((16_666 - elapsed_us) as u64),
        elapsed_us >= 16_666 ==> pause is None,
{
    if elapsed_us < FRAME_US {
        Some(FRAME_US - elapsed_us)
    } else {
        None
    }
}

/// Fits the rain to the screen, if the screen has another size. True if it had.
pub fn fit(rain: &mut RainState, width: u16, height: u16) -> (resized: bool)
    requires
        width > old(rain).columns@.len() ==> height > 0,
    ensures
        resized <==> width != old(rain).width || height != old(rain).height,
        resized ==> final(rain).is_resized_from(*old(rain), width, height),
        !resized ==> *final(rain) == *old(rain),
        old(rain).is_sound() ==> final(rain).is_sound(),
{
    if width != rain.width || height != rain.height {
        rain.resize(width, height);
        true
    } else {
        false
    }
}

/// A frame that keeps within its budget fills it with its pause exactly; one that
/// does not gets no pause.
pub proof fn law_frames_fill_their_budget(elapsed_us: u64)
    ensures
        elapsed_us < FRAME_US ==> (remaining_budget(elapsed_us) matches Some(pause) && elapsed_us
            + pause == FRAME_US),
        elapsed_us >= FRAME_US ==> remaining_budget(elapsed_us) is None,
{
}

/// From one reading of the statistics to the next there are thirty frames, as long
/// as the count of frames does not start again in between.
pub proof fn law_readings_are_thirty_frames_apart(frame_n: u32, later: u32)
    requires
        is_reading(frame_n),
        frame_n < later,
    ensures
        is_reading(0),
        STATS_REFRESH_FRAMES == 30,
        later - frame_n < STATS_REFRESH_FRAMES ==> !is_reading(later),
        later - frame_n == STATS_REFRESH_FRAMES ==> is_reading(later),
{
}

} // verus!
