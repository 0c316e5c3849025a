use renderer::schedule::{
    ControlFlowPlan, WaitPlan, can_draw, frame_delta_us, next_redraw_after_frame, plan_wait, should_request_redraw,
};

#[test]
fn drawing_needs_a_visible_window_with_a_surface() {
    assert!(can_draw(false, false, true, 10, 10, true));
    assert!(!can_draw(true, false, true, 10, 10, true));
    assert!(!can_draw(false, true, true, 10, 10, true));
    assert!(!can_draw(false, false, false, 10, 10, true));
    assert!(!can_draw(false, false, true, 0, 10, true));
    assert!(!can_draw(false, false, true, 10, 10, false));
    assert!(should_request_redraw(true, false, true));
    assert!(!should_request_redraw(true, true, true));
}

#[test]
fn the_event_loop_waits_for_the_next_frame() {
    assert_eq!(
        plan_wait(false, true, true, true, Some(5), 0, 16),
        WaitPlan { control: ControlFlowPlan::Wait, request_redraw: false, next_redraw_at: Some(5) }
    );
    assert_eq!(plan_wait(true, true, true, true, None, 0, 16).request_redraw, true);
    assert_eq!(
        plan_wait(true, false, false, true, Some(5), 0, 16),
        WaitPlan { control: ControlFlowPlan::Wait, request_redraw: false, next_redraw_at: None }
    );
    assert_eq!(
        plan_wait(true, false, true, true, None, 100, 16),
        WaitPlan { control: ControlFlowPlan::WaitUntil(116), request_redraw: false, next_redraw_at: None }
    );
    assert_eq!(
        plan_wait(true, false, true, true, Some(90), 100, 16),
        WaitPlan { control: ControlFlowPlan::WaitUntil(90), request_redraw: true, next_redraw_at: Some(90) }
    );
    assert_eq!(
        plan_wait(true, false, true, false, Some(90), 100, 16),
        WaitPlan { control: ControlFlowPlan::Wait, request_redraw: false, next_redraw_at: None }
    );
}

#[test]
fn frame_times() {
    assert_eq!(frame_delta_us(None, 50), 0);
    assert_eq!(frame_delta_us(Some(20), 50), 30);
    assert_eq!(frame_delta_us(Some(60), 50), 0);
    assert_eq!(next_redraw_after_frame(true, 100, 16), Some(116));
    assert_eq!(next_redraw_after_frame(false, 100, 16), None);
    assert_eq!(next_redraw_after_frame(true, u64::MAX, 16), Some(u64::MAX));
}
