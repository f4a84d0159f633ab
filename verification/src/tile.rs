use vstd::prelude::*;

verus! {

/// One grid cell: it can hold a mine, be revealed, or carry a flag.
#[derive(Clone, Copy, Debug, PartialEq, Eq, Structural)]
pub struct Tile {
    pub revealed: bool,
    pub has_mine: bool,
    pub has_flag: bool,
}

impl Tile {
    /// A revealed tile never carries a flag: revealing clears the flag, and
    /// the board refuses to toggle a flag on a revealed tile.
    pub open spec fn ok(self) -> bool {
        self.revealed ==> !self.has_flag
    }

    pub open spec fn blank() -> Tile {
        Tile { revealed: false, has_mine: false, has_flag: false }
    }

    /// The state of a tile after it has been revealed: the flag is cleared.
    pub open spec fn revealed_form(self) -> Tile {
        Tile { revealed: true, has_mine: self.has_mine, has_flag: false }
    }

    pub open spec fn flag_flipped(self) -> Tile {
        Tile { revealed: self.revealed, has_mine: self.has_mine, has_flag: !self.has_flag }
    }

    pub fn new() -> (t: Tile)
        ensures
            t == Tile::blank(),
    {
        Tile { revealed: false, has_mine: false, has_flag: false }
    }

    /// Reveal this tile. A mined tile is left untouched and the hit is
    /// reported to the caller; otherwise the flag is cleared and the tile
    /// becomes revealed.
    pub fn uncover(&mut self) -> (hit_mine: bool)
        ensures
            hit_mine == old(self).has_mine,
            old(self).has_mine ==> *final(self) == *old(self),
            !old(self).has_mine ==> *final(self) == old(self).revealed_form(),
    {
        if self.has_mine {
            true
        } else {
            self.has_flag = false;
            self.revealed = true;
            false
        }
    }

    /// Toggle the flag on this tile.
    pub fn flag(&mut self)
        ensures
            *final(self) == old(self).flag_flipped(),
    {
        self.has_flag = !self.has_flag;
    }
}

/// How a single tile may change during one reveal operation: it is either
/// untouched, or it was hidden, holds no mine, and is now revealed.
pub open spec fn reveal_step_ok(pre: Tile, post: Tile) -> bool {
    post == pre || (!pre.revealed && !pre.has_mine && post == pre.revealed_form())
}

} // verus!
