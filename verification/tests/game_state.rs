use wolf_gang::game_state::GameState;

#[test]
fn game_state_switches_on_and_off() {
    let mut state = GameState::new("editor", false);
    assert_eq!(state.get_name(), "editor");
    assert!(!state.is_active());
    state.set_active(true);
    assert!(state.is_active());
    assert_eq!(state.get_name(), "editor");
}
