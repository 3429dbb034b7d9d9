use wolf_gang::editor::{tool_to_activate, ActorPaletteSelection, PaletteSelection, SelectedTool};
use wolf_gang::networking::ClientID;
use wolf_gang::selection_box::ToolBoxType;

#[test]
fn palette_selections_keep_their_id() {
    assert_eq!(PaletteSelection::new(4).val(), 4);
    assert_eq!(ActorPaletteSelection::new(9).val(), 9);
}

#[test]
fn only_the_own_connection_gets_an_active_tool() {
    let tool = SelectedTool(ToolBoxType::ActorToolBox);
    assert_eq!(tool_to_activate(Some(ClientID::new(2)), 2, tool), Some(ToolBoxType::ActorToolBox));
    assert_eq!(tool_to_activate(Some(ClientID::new(2)), 3, tool), None);
    assert_eq!(tool_to_activate(None, 2, tool), None);
}
