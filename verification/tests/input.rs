use oakum::input::Input;

#[test]
fn a_pressed_key_is_held_until_it_is_released() {
    let mut input: Input<u32> = Input::new();
    assert!(!input.is_held(3));
    input.press(3);
    assert!(input.is_held(3));
    assert!(input.is_pressed(3));
    assert!(!input.is_released(3));
    input.update();
    assert!(input.is_held(3));
    assert!(!input.is_pressed(3));
    input.release(3);
    assert!(!input.is_held(3));
    assert!(input.is_released(3));
    input.update();
    assert!(!input.is_released(3));
    assert!(!input.is_held(3));
}

#[test]
fn keys_do_not_disturb_each_other() {
    let mut input: Input<char> = Input::default();
    input.press('w');
    input.press('a');
    input.release('w');
    assert!(input.is_held('a'));
    assert!(!input.is_held('w'));
    assert!(input.is_pressed('w'));
    assert!(input.is_released('w'));
    assert!(!input.is_released('a'));
    assert_eq!(input.held.len(), 1);
    assert_eq!(input.pressed.len(), 2);
    assert_eq!(input.released.len(), 1);
}
