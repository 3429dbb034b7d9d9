use vstd::prelude::*;

verus! {

/// A named part of the game (editor, networking, ...) that can be switched on and off.
pub struct GameState {
    name: &'static str,
    active: bool,
}

impl GameState {
    pub closed spec fn spec_name(&self) -> &'static str {
        self.name
    }

    pub closed spec fn spec_active(&self) -> bool {
        self.active
    }

    pub fn new(name: &'static str, active: bool) -> (r: GameState)
        ensures
            r.spec_name() == name,
            r.spec_active() == active,
    {
        GameState { name, active }
    }

    pub fn is_active(&self) -> (r: bool)
        ensures
            r == self.spec_active(),
    {
        self.active
    }

    pub fn set_active(&mut self, active: bool)
        ensures
            final(self).spec_active() == active,
            final(self).spec_name() == old(self).spec_name(),
    {
        self.active = active;
    }

    pub fn get_name(&self) -> (r: &'static str)
        ensures
            r == self.spec_name(),
    {
        self.name
    }
}

} // verus!
