use euclider::input::{InputEvent, InputState, Key, MouseButton, Scroll};

#[test]
fn new_state_is_idle() {
    let state = InputState::new();
    assert!(state.pressed_keys().is_empty());
    assert!(state.pressed_mouse_buttons().is_empty());
    assert_eq!(state.resolution(), 8);
    assert!(!state.debugging());
}

#[test]
fn press_then_release() {
    let mut state = InputState::new();
    assert!(!state.handle_event(InputEvent::KeyPressed(Key::W), false));
    assert!(state.is_pressed(Key::W));
    assert!(!state.handle_event(InputEvent::KeyPressed(Key::W), false));
    assert_eq!(state.pressed_keys().len(), 1);
    assert!(!state.handle_event(InputEvent::KeyReleased(Key::W), false));
    assert!(!state.is_pressed(Key::W));
    assert!(state.pressed_keys().is_empty());
}

#[test]
fn mouse_buttons_are_tracked() {
    let mut state = InputState::new();
    state.handle_event(InputEvent::MousePressed(MouseButton::Left), false);
    state.handle_event(InputEvent::MousePressed(MouseButton::Other(7)), false);
    assert_eq!(state.pressed_mouse_buttons().len(), 2);
    state.handle_event(InputEvent::MouseReleased(MouseButton::Left), false);
    assert_eq!(state.pressed_mouse_buttons(), &vec![MouseButton::Other(7)]);
}

#[test]
fn escape_release_exits() {
    let mut state = InputState::new();
    let events = vec![InputEvent::KeyPressed(Key::Escape)];
    assert_eq!(state.update(&events, false), Ok(()));
    let events = vec![InputEvent::KeyReleased(Key::Escape), InputEvent::KeyPressed(Key::A)];
    assert_eq!(state.update(&events, false), Err(InputEvent::KeyReleased(Key::Escape)));
    assert!(state.is_pressed(Key::A));
}

#[test]
fn close_request_exits() {
    let mut state = InputState::new();
    let events = vec![
        InputEvent::KeyReleased(Key::Escape),
        InputEvent::CloseRequested,
        InputEvent::KeyPressed(Key::D),
    ];
    assert_eq!(state.update(&events, false), Err(InputEvent::CloseRequested));
    assert!(state.handle_event(InputEvent::CloseRequested, false));
}

#[test]
fn scrolling_changes_resolution() {
    let mut state = InputState::new();
    let ups = vec![InputEvent::Scrolled(Scroll::Up); 10];
    assert_eq!(state.update(&ups, false), Ok(()));
    assert_eq!(state.resolution(), 1);
    let downs = vec![
        InputEvent::Scrolled(Scroll::Down),
        InputEvent::Scrolled(Scroll::Still),
        InputEvent::Scrolled(Scroll::Down),
    ];
    assert_eq!(state.update(&downs, false), Ok(()));
    assert_eq!(state.resolution(), 3);
}

#[test]
fn debugging_needs_permission() {
    let mut state = InputState::new();
    state.handle_event(InputEvent::KeyPressed(Key::LAlt), false);
    assert!(!state.debugging());
    state.handle_event(InputEvent::KeyPressed(Key::LAlt), true);
    assert!(state.debugging());
    state.handle_event(InputEvent::KeyReleased(Key::LAlt), true);
    assert!(!state.debugging());
}
