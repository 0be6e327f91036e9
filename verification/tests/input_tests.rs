use soft_raster::engine::input::{ElementState, Input, KeyEvent, KeyInfo, PhysicalKey};

fn press(code: u32) -> KeyEvent {
    KeyEvent { physical_key: PhysicalKey::Code(code), state: ElementState::Pressed, repeat: false }
}

fn release(code: u32) -> KeyEvent {
    KeyEvent { physical_key: PhysicalKey::Code(code), state: ElementState::Released, repeat: false }
}

#[test]
fn key_info_new_is_idle() {
    let k = KeyInfo::new();
    assert!(!k.pressed_this_frame && !k.released_this_frame && !k.held);
}

#[test]
fn unknown_key_reads_idle() {
    let input = Input::new();
    assert!(!input.get_key(7));
    assert!(!input.get_key_down(7));
    assert!(!input.get_key_up(7));
    assert!(!input.get_mouse_button(0));
    assert!(!input.get_mouse_button_down(0));
    assert!(!input.get_mouse_up(0));
}

#[test]
fn press_marks_held_and_down() {
    let mut input = Input::new();
    input.handle_key_event(press(17));
    assert!(input.get_key(17));
    assert!(input.get_key_down(17));
    assert!(!input.get_key_up(17));
}

#[test]
fn release_marks_up_and_not_held() {
    let mut input = Input::new();
    input.handle_key_event(press(17));
    input.end_update();
    input.handle_key_event(release(17));
    assert!(!input.get_key(17));
    assert!(!input.get_key_down(17));
    assert!(input.get_key_up(17));
}

#[test]
fn end_update_clears_frame_flags_keeps_held() {
    let mut input = Input::new();
    input.handle_key_event(press(1));
    input.handle_key_event(press(2));
    input.handle_key_event(release(2));
    input.end_update();
    assert!(input.get_key(1));
    assert!(!input.get_key_down(1));
    assert!(!input.get_key_up(1));
    assert!(!input.get_key(2));
    assert!(!input.get_key_down(2));
    assert!(!input.get_key_up(2));
    input.end_update();
    assert!(input.get_key(1));
}

#[test]
fn tap_within_one_frame() {
    let mut input = Input::new();
    input.handle_key_event(press(9));
    input.handle_key_event(release(9));
    assert!(!input.get_key(9));
    assert!(input.get_key_down(9));
    assert!(input.get_key_up(9));
}

#[test]
fn repeated_events_are_ignored() {
    let mut input = Input::new();
    input.handle_key_event(KeyEvent { physical_key: PhysicalKey::Code(3), state: ElementState::Pressed, repeat: true });
    assert!(!input.get_key(3));
    assert!(!input.get_key_down(3));
    input.handle_key_event(press(3));
    input.end_update();
    input.handle_key_event(KeyEvent { physical_key: PhysicalKey::Code(3), state: ElementState::Released, repeat: true });
    assert!(input.get_key(3));
    assert!(!input.get_key_up(3));
}

#[test]
fn unidentified_keys_are_ignored() {
    let mut input = Input::new();
    input.handle_key_event(KeyEvent { physical_key: PhysicalKey::Unidentified, state: ElementState::Pressed, repeat: false });
    assert!(!input.get_key(0));
}

#[test]
fn events_on_one_key_leave_others() {
    let mut input = Input::new();
    input.handle_key_event(press(4));
    input.handle_key_event(press(5));
    input.handle_key_event(release(5));
    assert!(input.get_key(4));
    assert!(input.get_key_down(4));
    assert!(!input.get_key_up(4));
}

#[test]
fn keys_and_buttons_are_separate() {
    let mut input = Input::new();
    input.handle_key_event(press(0));
    assert!(!input.get_mouse_button(0));
    input.handle_mouse_event(ElementState::Pressed, 1);
    assert!(!input.get_key(1));
    assert!(input.get_mouse_button(1));
}

#[test]
fn mouse_buttons_follow_frames() {
    let mut input = Input::new();
    input.handle_mouse_event(ElementState::Pressed, 0);
    assert!(input.get_mouse_button(0));
    assert!(input.get_mouse_button_down(0));
    assert!(!input.get_mouse_up(0));
    input.end_update();
    assert!(input.get_mouse_button(0));
    assert!(!input.get_mouse_button_down(0));
    input.handle_mouse_event(ElementState::Released, 0);
    assert!(!input.get_mouse_button(0));
    assert!(input.get_mouse_up(0));
    input.end_update();
    assert!(!input.get_mouse_up(0));
}

#[test]
fn key_state_follows_the_event_history() {
    // steps: Some(event) or None for the end of a frame
    let steps: Vec<Option<KeyEvent>> = vec![
        Some(press(4)),
        None,
        Some(press(9)),
        Some(KeyEvent { physical_key: PhysicalKey::Code(4), state: ElementState::Released, repeat: true }),
        None,
        Some(release(9)),
        Some(press(9)),
        Some(KeyEvent { physical_key: PhysicalKey::Unidentified, state: ElementState::Released, repeat: false }),
    ];
    let mut input = Input::new();
    for s in &steps {
        match s {
            Some(e) => input.handle_key_event(*e),
            None => input.end_update(),
        }
    }
    // key 4: last counted event a press, two frames ago
    assert!(input.get_key(4));
    assert!(!input.get_key_down(4));
    assert!(!input.get_key_up(4));
    // key 9: released then pressed again in this frame
    assert!(input.get_key(9));
    assert!(input.get_key_down(9));
    assert!(input.get_key_up(9));
    // key 5: never seen
    assert!(!input.get_key(5));
    input.end_update();
    assert!(input.get_key(9));
    assert!(!input.get_key_down(9));
    assert!(!input.get_key_up(9));
}
