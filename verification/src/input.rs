//! Input events in the engine's own terms: modifier keys, buttons, keys and
//! text input, independent of the windowing library.

use vstd::prelude::*;

verus! {

/// The modifier keys held.
#[derive(Clone, Copy, Debug, Default, PartialEq, Eq)]
pub struct KeyboardModifiers {
    pub shift: bool,
    pub control: bool,
    pub alt: bool,
    pub super_key: bool,
}

/// Whether a button or key went down or up.
#[derive(Clone, Copy, Debug, PartialEq, Eq)]
pub enum ButtonState {
    Pressed,
    Released,
}

/// A pointer button; `Other` carries the platform's button number.
#[derive(Clone, Copy, Debug, PartialEq, Eq)]
pub enum PointerButton {
    Primary,
    Secondary,
    Middle,
    Back,
    Forward,
    Other(u16),
}

/// Where on the keyboard a key sits.
#[derive(Clone, Copy, Debug, Default, PartialEq, Eq)]
pub enum KeyLocation {
    #[default]
    Standard,
    Left,
    Right,
    Numpad,
}

/// What a key means: a named key, the text it types, a dead key (with the
/// character it would combine, if known), or a key the platform could not
/// identify.
#[derive(Clone, Debug, PartialEq, Eq)]
pub enum KeyIdentity {
    Named(String),
    Character(String),
    Dead(Option<char>),
    Unidentified(String),
}

/// A key going down or up.
#[derive(Clone, Debug, PartialEq, Eq)]
pub struct KeyboardEvent {
    pub logical_key: KeyIdentity,
    pub physical_key: Option<String>,
    pub location: KeyLocation,
    pub state: ButtonState,
    pub repeat: bool,
    pub modifiers: KeyboardModifiers,
}

/// Text from the input method: committed text, or text still being
/// composed with the selected range of it.
#[derive(Clone, Debug, PartialEq, Eq)]
pub enum TextInputEvent {
    Commit(String),
    Preedit { text: String, cursor: Option<(usize, usize)> },
}

/// A control character (Unicode category Cc): U+0000 to U+001F and U+007F
/// to U+009F.
pub open spec fn is_control_char(c: char) -> bool {
    (c as u32) <= 0x1f || (0x7f <= (c as u32) && (c as u32) <= 0x9f)
}

/// Whether a character is a control character.
pub fn char_is_control(c: char) -> (r: bool)
    ensures
        r == is_control_char(c),
{
    let code = c as u32;
    code <= 0x1f || (0x7f <= code && code <= 0x9f)
}

/// Typed text is passed on as a commit unless it is empty or holds a
/// control character (such as the ones that Enter or Backspace type).
pub fn should_emit_text_commit(text: &str) -> (r: bool)
    ensures
        r == (text@.len() > 0 && forall|i: int| 0 <= i < text@.len() ==> !is_control_char(#[trigger] text@[i])),
{
    broadcast use vstd::string::axiom_spec_iter;

    let mut any = false;
    let mut clean = true;
    for c in it: text.chars()
        invariant
            it.seq() == text@,
            any == (it.index() > 0),
            clean == (forall|i: int| 0 <= i < it.index() ==> !is_control_char(#[trigger] text@[i])),
    {
        any = true;
        if char_is_control(c) {
            clean = false;
        }
    }
    any && clean
}

} // verus!
