use renderer::interaction::{
    ElementInteractionState, ElementPath, LastClick, MouseEventKind, PointerState, element_path_chain,
    hover_transition_events, next_element_interaction_state, same_interaction, same_path, shared_path_prefix_len,
};

fn path(root: usize, children: &[usize]) -> ElementPath {
    ElementPath { root, children: children.to_vec() }
}

fn describe(events: &[renderer::interaction::PathEvent]) -> Vec<(usize, Vec<usize>, MouseEventKind)> {
    events.iter().map(|event| (event.path.root, event.path.children.clone(), event.kind)).collect()
}

#[test]
fn chains_run_from_the_root_down() {
    let chain = element_path_chain(&path(2, &[0, 3]));
    let described = chain.iter().map(|p| (p.root, p.children.clone())).collect::<Vec<_>>();
    assert_eq!(described, vec![(2, vec![]), (2, vec![0]), (2, vec![0, 3])]);
    assert!(same_path(&ElementPath::root(1).with_child(4), &path(1, &[4])));
    assert!(!same_path(&path(1, &[4]), &path(1, &[4, 0])));
}

#[test]
fn shared_prefixes() {
    let left = element_path_chain(&path(0, &[1, 2]));
    let right = element_path_chain(&path(0, &[1, 5]));
    assert_eq!(shared_path_prefix_len(&left, &right), 2);
    let other_root = element_path_chain(&path(1, &[1]));
    assert_eq!(shared_path_prefix_len(&left, &other_root), 0);
}

#[test]
fn hover_moves_leave_inner_elements_first_and_enter_outer_ones_first() {
    let from = path(0, &[1, 2]);
    let to = path(0, &[1, 5, 6]);
    let events = hover_transition_events(Some(&from), Some(&to));
    assert_eq!(
        describe(&events),
        vec![
            (0, vec![1, 2], MouseEventKind::MouseOut),
            (0, vec![1, 2], MouseEventKind::MouseLeave),
            (0, vec![1, 5, 6], MouseEventKind::MouseOver),
            (0, vec![1, 5], MouseEventKind::MouseEnter),
            (0, vec![1, 5, 6], MouseEventKind::MouseEnter),
        ]
    );
}

#[test]
fn hover_from_nothing_enters_the_whole_chain() {
    let to = path(3, &[0]);
    let events = hover_transition_events(None, Some(&to));
    assert_eq!(
        describe(&events),
        vec![
            (3, vec![0], MouseEventKind::MouseOver),
            (3, vec![], MouseEventKind::MouseEnter),
            (3, vec![0], MouseEventKind::MouseEnter),
        ]
    );
    let leave = hover_transition_events(Some(&to), None);
    assert_eq!(
        describe(&leave),
        vec![
            (3, vec![0], MouseEventKind::MouseOut),
            (3, vec![0], MouseEventKind::MouseLeave),
            (3, vec![], MouseEventKind::MouseLeave),
        ]
    );
    assert!(hover_transition_events(Some(&to), Some(&path(3, &[0]))).is_empty());
    assert!(hover_transition_events(None, None).is_empty());
}

#[test]
fn the_active_element_follows_presses() {
    let previous = ElementInteractionState { hovered: None, active: Some(path(0, &[9])) };
    let pressed = next_element_interaction_state(&previous, Some(path(0, &[1])), true, true);
    assert!(same_path(pressed.active.as_ref().unwrap(), &path(0, &[1])));
    let held = next_element_interaction_state(&previous, Some(path(0, &[1])), true, false);
    assert!(same_path(held.active.as_ref().unwrap(), &path(0, &[9])));
    let released = next_element_interaction_state(&previous, Some(path(0, &[1])), false, false);
    assert!(released.active.is_none());
    assert!(same_path(released.hovered.as_ref().unwrap(), &path(0, &[1])));
    assert!(same_interaction(&held, &held.clone()));
    assert!(!same_interaction(&held, &released));
}

#[test]
fn a_super_drag_ignores_the_left_button_until_release() {
    let mut state = PointerState::new();
    state.left_down = true;
    let frame = state.begin_frame(true);
    assert!(!frame.interactive_left_down);
    assert!(!frame.click_started);
    assert!(state.suppress_left_pointer_until_release);
    state.end_frame(frame.interactive_left_down);
    // The Super key is let go while the button is still held.
    let frame = state.begin_frame(false);
    assert!(!frame.interactive_left_down);
    state.end_frame(frame.interactive_left_down);
    state.left_down = false;
    let frame = state.begin_frame(false);
    assert!(!state.suppress_left_pointer_until_release);
    assert!(!frame.interactive_left_down);
}

#[test]
fn a_press_and_release_on_the_same_element_clicks_and_twice_double_clicks() {
    let target = path(0, &[2]);
    let mut state = PointerState::new();

    state.left_down = true;
    let frame = state.begin_frame(false);
    assert!(frame.click_started);
    let events = renderer::interaction::pointer_button_events(&mut state, frame, true, Some(&target), true, false, 1_000);
    assert_eq!(events, vec![MouseEventKind::MouseDown]);
    state.end_frame(frame.interactive_left_down);

    state.left_down = false;
    let frame = state.begin_frame(false);
    let events = renderer::interaction::pointer_button_events(&mut state, frame, false, Some(&target), true, false, 2_000);
    assert_eq!(events, vec![MouseEventKind::MouseUp, MouseEventKind::Click]);
    assert!(state.left_press_target.is_none());
    state.end_frame(frame.interactive_left_down);

    state.left_down = true;
    let frame = state.begin_frame(false);
    let events = renderer::interaction::pointer_button_events(&mut state, frame, true, Some(&target), true, true, 300_000);
    assert_eq!(events, vec![MouseEventKind::MouseMove, MouseEventKind::MouseDown]);
    state.end_frame(frame.interactive_left_down);

    state.left_down = false;
    let frame = state.begin_frame(false);
    let events = renderer::interaction::pointer_button_events(&mut state, frame, false, Some(&target), true, false, 400_000);
    assert_eq!(events, vec![MouseEventKind::MouseUp, MouseEventKind::Click, MouseEventKind::DblClick]);
    let last: &LastClick = state.last_click.as_ref().unwrap();
    assert_eq!(last.at_us, 400_000);
}

#[test]
fn a_release_elsewhere_or_too_late_does_not_click_twice() {
    let target = path(0, &[2]);
    let elsewhere = path(0, &[3]);
    let mut state = PointerState::new();
    state.last_click = Some(LastClick { at_us: 0, target: target.clone() });
    state.previous_left_down = true;
    state.left_press_target = Some(target.clone());
    let frame = state.begin_frame(false);
    let events = renderer::interaction::pointer_button_events(&mut state, frame, false, Some(&elsewhere), true, false, 10);
    assert_eq!(events, vec![MouseEventKind::MouseUp]);

    state.previous_left_down = true;
    state.left_press_target = Some(target.clone());
    let frame = state.begin_frame(false);
    let events = renderer::interaction::pointer_button_events(&mut state, frame, false, Some(&target), true, false, 600_000);
    assert_eq!(events, vec![MouseEventKind::MouseUp, MouseEventKind::Click]);
}

#[test]
fn right_button_presses_open_the_context_menu() {
    let mut state = PointerState::new();
    state.right_down = true;
    let frame = state.begin_frame(false);
    assert!(frame.right_press_started);
    let events = renderer::interaction::pointer_button_events(&mut state, frame, false, None, true, false, 0);
    assert_eq!(events, vec![MouseEventKind::MouseDown, MouseEventKind::ContextMenu]);
    state.end_frame(frame.interactive_left_down);
    state.right_down = false;
    let frame = state.begin_frame(false);
    let events = renderer::interaction::pointer_button_events(&mut state, frame, false, None, true, false, 0);
    assert_eq!(events, vec![MouseEventKind::MouseUp]);
    // Without the pointer in the window nothing is dispatched.
    state.clear();
    state.right_down = true;
    let frame = state.begin_frame(false);
    let events = renderer::interaction::pointer_button_events(&mut state, frame, false, None, false, false, 0);
    assert!(events.is_empty());
}

#[test]
fn shared_ancestors_get_no_leave_or_enter() {
    let pairs = [
        (path(0, &[1, 2, 3]), path(0, &[1, 4])),
        (path(0, &[1]), path(0, &[1, 2, 3])),
        (path(0, &[1, 2]), path(0, &[1])),
        (path(0, &[7]), path(1, &[7])),
    ];
    for (from, to) in pairs.iter() {
        let from_chain = element_path_chain(from);
        let to_chain = element_path_chain(to);
        let holds = |chain: &[ElementPath], p: &ElementPath| chain.iter().any(|q| same_path(q, p));
        for event in hover_transition_events(Some(from), Some(to)) {
            match event.kind {
                MouseEventKind::MouseLeave => {
                    assert!(holds(&from_chain, &event.path) && !holds(&to_chain, &event.path));
                }
                MouseEventKind::MouseEnter => {
                    assert!(holds(&to_chain, &event.path) && !holds(&from_chain, &event.path));
                }
                _ => {}
            }
        }
    }
}
