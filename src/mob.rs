//! Creatures other than the player.
use vstd::prelude::*;
use crate::grid::Pos;

verus! {

/// How a creature decides what to do.
#[derive(Debug, Clone, Copy)]
pub enum AiType {
    Random,
    Curious,
    Snoot,
}

/// Approaches the player to a fixed distance and backs off when the player
/// comes closer.
#[derive(Debug, Clone, Copy, PartialEq, Eq, Structural)]
pub struct CuriousAI {
    last_player_pos: Pos,
}

impl CuriousAI {
    pub closed spec fn last_seen(&self) -> Pos {
        self.last_player_pos
    }

    /// Where the player was last seen.
    pub fn last_player_pos(&self) -> (r: Pos)
        ensures
            r == self.last_seen(),
    {
        self.last_player_pos
    }
}

impl Default for CuriousAI {
    fn default() -> (r: Self)
        ensures
            r.last_seen() == (Pos { x: 0, y: 0 }),
    {
        CuriousAI { last_player_pos: Pos { x: 0, y: 0 } }
    }
}

} // verus!
