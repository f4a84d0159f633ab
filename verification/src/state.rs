use vstd::prelude::*;

verus! {

/// The status of one game session, owned by the session loop and passed
/// by mutable reference into the board operations that report events.
#[derive(Clone, Copy, Debug)]
pub struct GameState {
    /// Whether the first reveal of the session has happened.
    pub picked_tile: bool,
    /// Whether a mine was revealed.
    pub game_ended: bool,
    pub game_won: bool,
    /// The (x, y) position of the fatal mine, for rendering.
    pub game_ending_tile: Option<(usize, usize)>,
}

impl GameState {
    pub open spec fn initial() -> GameState {
        GameState { picked_tile: false, game_ended: false, game_won: false, game_ending_tile: None }
    }

    /// A game can only end after the first pick, and an ended game always
    /// knows which tile ended it.
    pub open spec fn inv(self) -> bool {
        &&& self.game_ended ==> self.picked_tile
        &&& self.game_ended ==> self.game_ending_tile is Some
    }

    pub fn new() -> (s: GameState)
        ensures
            s == GameState::initial(),
            s.inv(),
    {
        GameState { picked_tile: false, game_ended: false, game_won: false, game_ending_tile: None }
    }

    pub fn restart(&mut self)
        ensures
            *final(self) == GameState::initial(),
            final(self).inv(),
    {
        *self = GameState::new();
    }
}

} // verus!
