//! When the window draws: whether it can, when it asks for a redraw, and how
//! long the event loop waits. Times are microseconds on a monotonic clock
//! that the caller reads.

use vstd::prelude::*;

verus! {

/// The window can be drawn: it is neither suspended nor occluded, it exists
/// with a positive size, and it has a surface.
pub fn can_draw(suspended: bool, occluded: bool, has_window: bool, width: u32, height: u32, has_surface: bool) -> (r:
    bool)
    ensures
        r == (!suspended && !occluded && has_window && width > 0 && height > 0 && has_surface),
{
    if suspended || occluded || !has_window {
        return false;
    }
    width > 0 && height > 0 && has_surface
}

/// A redraw is requested when there is a window that can be drawn and no
/// redraw is pending already.
pub fn should_request_redraw(has_window: bool, redraw_pending: bool, can_draw: bool) -> (r: bool)
    ensures
        r == (has_window && !redraw_pending && can_draw),
{
    has_window && !redraw_pending && can_draw
}

/// How the event loop waits.
#[derive(Clone, Copy, Debug, PartialEq, Eq, Structural)]
pub enum ControlFlowPlan {
    /// Until the next event.
    Wait,
    /// Until the next event or this time.
    WaitUntil(u64),
}

/// What the event loop does when it runs out of events: how it waits,
/// whether it asks for a redraw (if one may be requested), and the time of
/// the next frame of a continuously redrawn scene.
#[derive(Clone, Copy, Debug, PartialEq, Eq, Structural)]
pub struct WaitPlan {
    pub control: ControlFlowPlan,
    pub request_redraw: bool,
    pub next_redraw_at: Option<u64>,
}

/// `a + b`, or `u64::MAX` when it does not fit.
pub open spec fn sat_add_u64(a: int, b: int) -> int {
    if a + b > u64::MAX { u64::MAX as int } else { a + b }
}

/// Plans the wait of the event loop. Without a window it just waits. An
/// immediate redraw is requested at once. A window that cannot be drawn
/// waits and forgets its next frame time. A continuously redrawn scene
/// waits until its next frame (one frame time from now if none was set)
/// and asks for a redraw once that time has come. Otherwise it waits.
pub fn plan_wait(
    has_window: bool,
    immediate_redraw: bool,
    can_draw: bool,
    wants_continuous_redraw: bool,
    next_redraw_at: Option<u64>,
    now_us: u64,
    frame_time_us: u64,
) -> (plan: WaitPlan)
    ensures
        plan == (if !has_window {
            WaitPlan { control: ControlFlowPlan::Wait, request_redraw: false, next_redraw_at }
        } else if immediate_redraw {
            WaitPlan { control: ControlFlowPlan::Wait, request_redraw: true, next_redraw_at }
        } else if !can_draw {
            WaitPlan { control: ControlFlowPlan::Wait, request_redraw: false, next_redraw_at: None }
        } else if wants_continuous_redraw {
            let deadline = match next_redraw_at {
                Some(t) => t,
                None => sat_add_u64(now_us as int, frame_time_us as int) as u64,
            };
            WaitPlan {
                control: ControlFlowPlan::WaitUntil(deadline),
                request_redraw: now_us >= deadline,
                next_redraw_at,
            }
        } else {
            WaitPlan { control: ControlFlowPlan::Wait, request_redraw: false, next_redraw_at: None }
        }),
{
    if !has_window {
        return WaitPlan { control: ControlFlowPlan::Wait, request_redraw: false, next_redraw_at };
    }
    if immediate_redraw {
        return WaitPlan { control: ControlFlowPlan::Wait, request_redraw: true, next_redraw_at };
    }
    if !can_draw {
        return WaitPlan { control: ControlFlowPlan::Wait, request_redraw: false, next_redraw_at: None };
    }
    if wants_continuous_redraw {
        let deadline = match next_redraw_at {
            Some(t) => t,
            None => now_us.saturating_add(frame_time_us),
        };
        WaitPlan { control: ControlFlowPlan::WaitUntil(deadline), request_redraw: now_us >= deadline, next_redraw_at }
    } else {
        WaitPlan { control: ControlFlowPlan::Wait, request_redraw: false, next_redraw_at: None }
    }
}

/// The time since the last frame (zero for the first frame, or when the
/// clock reads earlier).
pub fn frame_delta_us(last_frame_at: Option<u64>, now_us: u64) -> (r: u64)
    ensures
        r == (match last_frame_at {
            Some(t) => if now_us >= t { (now_us - t) as u64 } else { 0 },
            None => 0,
        }),
{
    match last_frame_at {
        Some(t) => if now_us >= t {
            now_us - t
        } else {
            0
        },
        None => 0,
    }
}

/// The time of the next frame after drawing one: a frame time from now for
/// a continuously redrawn scene, none otherwise.
pub fn next_redraw_after_frame(wants_continuous_redraw: bool, now_us: u64, frame_time_us: u64) -> (r: Option<u64>)
    ensures
        r == (if wants_continuous_redraw {
            Some(sat_add_u64(now_us as int, frame_time_us as int) as u64)
        } else {
            None
        }),
{
    if wants_continuous_redraw {
        Some(now_us.saturating_add(frame_time_us))
    } else {
        None
    }
}

} // verus!
