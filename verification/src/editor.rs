use vstd::prelude::*;
use crate::networking::ClientID;
use crate::selection_box::ToolBoxType;

verus! {

/// The tile chosen in the palette.
#[derive(Debug, Clone, Copy, PartialEq, Eq, Structural)]
pub struct PaletteSelection(u32);

impl PaletteSelection {
    pub closed spec fn spec_val(&self) -> u32 {
        self.0
    }

    pub fn new(id: u32) -> (r: PaletteSelection)
        ensures
            r.spec_val() == id,
    {
        PaletteSelection(id)
    }

    pub fn val(&self) -> (r: u32)
        ensures
            r == self.spec_val(),
    {
        self.0
    }
}

/// The actor chosen in the actor palette.
#[derive(Debug, Clone, Copy, PartialEq, Eq, Structural)]
pub struct ActorPaletteSelection(u32);

impl ActorPaletteSelection {
    pub closed spec fn spec_val(&self) -> u32 {
        self.0
    }

    pub fn new(id: u32) -> (r: ActorPaletteSelection)
        ensures
            r.spec_val() == id,
    {
        ActorPaletteSelection(id)
    }

    pub fn val(&self) -> (r: u32)
        ensures
            r == self.spec_val(),
    {
        self.0
    }
}

/// The tool the local player has chosen.
#[derive(Debug, Clone, Copy, PartialEq, Eq, Structural)]
pub struct SelectedTool(pub ToolBoxType);

/// When a connection comes in, the selection boxes of that connection get the camera, and one
/// of them is made active, only where the connection is this client's own: the box of the
/// tool this client has chosen.
pub fn tool_to_activate(own: Option<ClientID>, connection_id: u32, selected: SelectedTool) -> (r: Option<ToolBoxType>)
    ensures
        r == (match own {
            Some(id) => if id.spec_val() == connection_id {
                Some(selected.0)
            } else {
                None::<ToolBoxType>
            },
            None => None::<ToolBoxType>,
        }),
{
    match own {
        Some(id) => {
            if id.val() == connection_id {
                Some(selected.0)
            } else {
                None
            }
        },
        None => None,
    }
}

} // verus!
