use brass_engine::{Input, Key, MouseButton};

const A: Key = Key(30);
const D: Key = Key(32);

#[test]
fn key_press_is_single_frame() {
    let mut i = Input::new();
    i.on_key_down(A);
    assert!(i.is_key_down(A) && i.is_key_pressed(A));
    i.flush();
    assert!(i.is_key_down(A) && !i.is_key_pressed(A));
    i.on_key_down(A);
    assert!(!i.is_key_pressed(A));
    i.on_key_up(A);
    assert!(!i.is_key_down(A) && i.is_key_released(A));
    i.flush();
    assert!(!i.is_key_released(A));
    i.on_key_down(A);
    assert!(i.is_key_pressed(A));
}

#[test]
fn axis_combines_keys() {
    let mut i = Input::default();
    assert_eq!(i.axis(A, D), 0);
    i.on_key_down(A);
    assert_eq!(i.axis(A, D), -1);
    i.on_key_down(D);
    assert_eq!(i.axis(A, D), 0);
    i.on_key_up(A);
    assert_eq!(i.axis(A, D), 1);
}

#[test]
fn mouse_buttons() {
    let mut i = Input::new();
    i.on_mouse_down(MouseButton::Right);
    assert!(i.is_mouse_down(MouseButton::Right));
    assert!(i.is_mouse_pressed(MouseButton::Right));
    assert!(!i.is_mouse_down(MouseButton::Left));
    i.on_mouse_down(MouseButton::Right);
    i.flush();
    assert!(!i.is_mouse_pressed(MouseButton::Right));
    i.on_mouse_up(MouseButton::Right);
    assert!(i.is_mouse_released(MouseButton::Right));
    assert!(!i.is_mouse_down(MouseButton::Right));
    assert_eq!(MouseButton::Middle.code(), 2);
}
