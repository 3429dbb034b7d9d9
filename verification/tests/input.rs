use wolf_gang::input::action_pressed;

#[test]
fn an_action_needs_its_key_and_its_modifier() {
    let pressed = vec![true, false];
    let modifier = vec![Some(16), None];
    let codes = vec![90, 88];
    assert!(action_pressed(0, &pressed, &modifier, &vec![true, false], &codes));
    assert!(!action_pressed(0, &pressed, &modifier, &vec![false, false], &codes));
    assert!(!action_pressed(1, &pressed, &modifier, &vec![true, false], &codes));
}

#[test]
fn a_held_modifier_of_another_action_on_the_same_key_takes_it() {
    // "undo" on Z with no modifier, "redo" on Z with shift as its modifier.
    let pressed = vec![true, true];
    let modifier = vec![None, Some(16)];
    let codes = vec![90, 90];
    assert!(!action_pressed(0, &pressed, &modifier, &vec![false, true], &codes));
    assert!(action_pressed(1, &pressed, &modifier, &vec![false, true], &codes));
    assert!(action_pressed(0, &pressed, &modifier, &vec![false, false], &codes));
    let other_codes = vec![90, 89];
    assert!(action_pressed(0, &pressed, &modifier, &vec![false, true], &other_codes));
}
