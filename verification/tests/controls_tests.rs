use euclider::controls::{
    movement, roll, rotates_in_plane, rotation_axes_4, rotation_direction_4, rotation_entry,
    Movement, RotationEntry,
};
use euclider::input::{InputEvent, InputState, Key};

fn holding(keys: &[Key]) -> InputState {
    let mut state = InputState::new();
    for k in keys {
        state.handle_event(InputEvent::KeyPressed(*k), false);
    }
    state
}

#[test]
fn movement_follows_held_keys() {
    assert_eq!(
        movement(&holding(&[Key::W, Key::A, Key::LControl, Key::E])),
        Movement { forward: 1, left: 1, up: -1, ana: -1 }
    );
    assert_eq!(
        movement(&holding(&[Key::W, Key::S, Key::D, Key::LShift, Key::Q])),
        Movement { forward: 0, left: -1, up: 1, ana: 1 }
    );
    assert_eq!(movement(&holding(&[])), Movement { forward: 0, left: 0, up: 0, ana: 0 });
}

#[test]
fn roll_and_rotation_direction() {
    assert_eq!(roll(&holding(&[Key::E])), 1);
    assert_eq!(roll(&holding(&[Key::Q])), -1);
    assert_eq!(roll(&holding(&[Key::Q, Key::E])), 0);
    assert_eq!(rotation_direction_4(&holding(&[Key::C])), 1);
    assert_eq!(rotation_direction_4(&holding(&[Key::M])), -1);
}

#[test]
fn rotation_plane_needs_two_axes() {
    let axes = rotation_axes_4(&holding(&[Key::I, Key::K]));
    assert_eq!(axes, [true, false, true, false]);
    assert!(rotates_in_plane(axes));
    assert!(!rotates_in_plane([true, false, false, false]));
    assert!(!rotates_in_plane([true, true, true, false]));
}

#[test]
fn rotation_matrix_entries() {
    let axes = [true, false, true, false];
    assert_eq!(rotation_entry(axes, 0, 0), RotationEntry::Cos);
    assert_eq!(rotation_entry(axes, 2, 2), RotationEntry::Cos);
    assert_eq!(rotation_entry(axes, 0, 2), RotationEntry::Sin);
    assert_eq!(rotation_entry(axes, 2, 0), RotationEntry::NegatedSin);
    assert_eq!(rotation_entry(axes, 1, 1), RotationEntry::Kept);
    assert_eq!(rotation_entry(axes, 0, 1), RotationEntry::Kept);
}
