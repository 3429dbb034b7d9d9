use vstd::prelude::*;

verus! {

/// Configuration for how a host wants to handle their game.
#[derive(Debug, Clone, Copy, PartialEq, Eq, Structural)]
pub struct Config {
    /// Maximum number of players allowed. Default is 2 (for 1v1)
    pub max_players: u8,
}

impl Default for Config {
    fn default() -> (r: Config)
        ensures
            r.max_players == 2,
    {
        Config { max_players: 2 }
    }
}

} // verus!
