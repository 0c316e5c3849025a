use renderer::input::{
    ButtonState, KeyIdentity, KeyLocation, KeyboardEvent, KeyboardModifiers, PointerButton, TextInputEvent,
    char_is_control, should_emit_text_commit,
};

#[test]
fn typed_text_is_committed_unless_empty_or_control() {
    assert!(should_emit_text_commit("a"));
    assert!(should_emit_text_commit("héllo"));
    assert!(!should_emit_text_commit(""));
    assert!(!should_emit_text_commit("\r"));
    assert!(!should_emit_text_commit("a\u{8}"));
    assert!(!should_emit_text_commit("\u{7f}"));
    assert!(char_is_control('\u{9f}'));
    assert!(!char_is_control('\u{a0}'));
    assert!(!char_is_control(' '));
}

#[test]
fn input_types_compare_by_value() {
    let event = KeyboardEvent {
        logical_key: KeyIdentity::Character("a".to_string()),
        physical_key: Some("KeyA".to_string()),
        location: KeyLocation::default(),
        state: ButtonState::Pressed,
        repeat: false,
        modifiers: KeyboardModifiers { shift: true, ..KeyboardModifiers::default() },
    };
    assert_eq!(event.clone(), event);
    assert_eq!(event.location, KeyLocation::Standard);
    assert_ne!(PointerButton::Other(4), PointerButton::Other(5));
    assert_eq!(
        TextInputEvent::Preedit { text: "ka".to_string(), cursor: Some((0, 2)) },
        TextInputEvent::Preedit { text: "ka".to_string(), cursor: Some((0, 2)) }
    );
    assert_ne!(KeyIdentity::Dead(Some('`')), KeyIdentity::Dead(None));
}
