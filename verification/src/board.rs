use vstd::prelude::*;
use crate::counting::count_if;
use crate::counting::is_flagged;
use crate::counting::is_hidden;
use crate::counting::is_mined;
use crate::counting::is_revealed;
use crate::counting::is_unmined;
use crate::counting::is_unrevealed;
use crate::counting::lemma_count_complement;
use crate::counting::lemma_count_le_len;
use crate::counting::lemma_count_pos;
use crate::counting::lemma_count_take_step;
use crate::counting::lemma_count_update;
use crate::counting::lemma_count_whole;
use crate::counting::lemma_count_zero;
use crate::counting::lemma_tile_partition;
use crate::random::rng;
use crate::state::GameState;
use crate::tile::reveal_step_ok;
use crate::tile::Tile;

verus! {

/// A rectangular minefield: a row-major grid of `rows * cols` tiles.
#[derive(Clone, Debug)]
pub struct Board {
    pub rows: usize,
    pub cols: usize,
    pub mines_count: usize,
    pub tiles: Vec<Tile>,
}

/// The error a board operation returns when handed a coordinate outside
/// the grid.
#[derive(Clone, Copy, Debug, PartialEq, Eq, Structural)]
pub enum BoardError {
    InvalidPosition,
}

impl Board {
    pub open spec fn area(self) -> int {
        self.rows * self.cols
    }

    /// Well-formedness: the tile vector covers the grid, the requested mine
    /// count fits on the board, and every tile has a valid flag state.
    pub open spec fn wf(self) -> bool {
        &&& self.tiles@.len() == self.area()
        &&& self.area() <= usize::MAX
        &&& self.mines_count <= self.area()
        &&& forall|i: int| 0 <= i < self.tiles@.len() ==> (#[trigger] self.tiles@[i]).ok()
    }

    pub open spec fn in_bounds(self, x: int, y: int) -> bool {
        0 <= x < self.cols && 0 <= y < self.rows
    }

    /// The row-major index of (x, y).
    pub open spec fn sidx(self, x: int, y: int) -> int {
        y * self.cols + x
    }

    /// (x, y) lies on the grid and its index lies in the tile vector. The
    /// second half follows from well-formedness, but carrying it here keeps
    /// reasoning about two boards of equal size linear.
    pub open spec fn tile_ix_ok(self, x: int, y: int) -> bool {
        self.in_bounds(x, y) && 0 <= self.sidx(x, y) < self.tiles@.len()
    }

    pub open spec fn tile_at(self, x: int, y: int) -> Tile {
        self.tiles@[self.sidx(x, y)]
    }

    pub open spec fn mine_at(self, x: int, y: int) -> nat {
        if self.tile_ix_ok(x, y) && self.tile_at(x, y).has_mine {
            1
        } else {
            0
        }
    }

    pub open spec fn revealed_at(self, x: int, y: int) -> bool {
        self.tile_ix_ok(x, y) && self.tile_at(x, y).revealed
    }

    /// How many of the up-to-8 neighbors of (x, y) hold a mine.
    pub open spec fn adj_mines(self, x: int, y: int) -> nat {
        self.mine_at(x - 1, y - 1) + self.mine_at(x, y - 1) + self.mine_at(x + 1, y - 1)
            + self.mine_at(x - 1, y) + self.mine_at(x + 1, y) + self.mine_at(x - 1, y + 1)
            + self.mine_at(x, y + 1) + self.mine_at(x + 1, y + 1)
    }

    /// (x, y) is revealed whenever it lies on the grid.
    pub open spec fn revealed_if_in(self, x: int, y: int) -> bool {
        self.in_bounds(x, y) ==> self.revealed_at(x, y)
    }

    /// Every in-bounds neighbor of (x, y) is revealed.
    pub open spec fn nbrs_revealed(self, x: int, y: int) -> bool {
        &&& self.revealed_if_in(x - 1, y - 1)
        &&& self.revealed_if_in(x, y - 1)
        &&& self.revealed_if_in(x + 1, y - 1)
        &&& self.revealed_if_in(x - 1, y)
        &&& self.revealed_if_in(x + 1, y)
        &&& self.revealed_if_in(x - 1, y + 1)
        &&& self.revealed_if_in(x, y + 1)
        &&& self.revealed_if_in(x + 1, y + 1)
    }

    /// Flood completeness: a revealed tile with no adjacent mine has all of
    /// its neighbors revealed, so reveals stop exactly at numbered tiles.
    pub open spec fn closed(self) -> bool {
        forall|x: int, y: int|
            #[trigger] self.revealed_at(x, y) && self.adj_mines(x, y) == 0
                ==> self.nbrs_revealed(x, y)
    }

    /// (x, y) is revealed, or waits on the worklist, whenever it lies on the
    /// grid.
    pub open spec fn covered(self, x: int, y: int, st: Seq<(usize, usize)>) -> bool {
        self.in_bounds(x, y) ==> (self.revealed_at(x, y) || st.contains(
            (x as usize, y as usize),
        ))
    }

    /// Every in-bounds neighbor of (x, y) is revealed or on the worklist.
    pub open spec fn nbrs_covered(self, x: int, y: int, st: Seq<(usize, usize)>) -> bool {
        &&& self.covered(x - 1, y - 1, st)
        &&& self.covered(x, y - 1, st)
        &&& self.covered(x + 1, y - 1, st)
        &&& self.covered(x - 1, y, st)
        &&& self.covered(x + 1, y, st)
        &&& self.covered(x - 1, y + 1, st)
        &&& self.covered(x, y + 1, st)
        &&& self.covered(x + 1, y + 1, st)
    }

    /// (p, q) is a position a flood starting at (x, y) may reveal: the
    /// start itself, or a neighbor of a revealed tile with no adjacent
    /// mine. Tiles revealed by a flood satisfy this, so a flood never
    /// reveals past the numbered boundary of a zero-adjacency region.
    pub open spec fn flood_reached(self, x: int, y: int, p: int, q: int) -> bool {
        (p == x && q == y) || exists|a: int, b: int|
            #[trigger] self.revealed_at(a, b) && self.adj_mines(a, b) == 0 && is_neighbor(
                a,
                b,
                p,
                q,
            )
    }

    /// The singleton holding (a, b) when it lies on the grid, else empty.
    pub open spec fn cond_pos(self, a: int, b: int) -> Seq<(usize, usize)> {
        if self.in_bounds(a, b) {
            seq![(a as usize, b as usize)]
        } else {
            Seq::empty()
        }
    }

    /// The in-bounds neighbors of (x, y), row-major within the 3x3
    /// neighborhood.
    pub open spec fn neighbor_seq(self, x: int, y: int) -> Seq<(usize, usize)> {
        self.cond_pos(x - 1, y - 1) + self.cond_pos(x, y - 1) + self.cond_pos(x + 1, y - 1)
            + self.cond_pos(x - 1, y) + self.cond_pos(x + 1, y) + self.cond_pos(x - 1, y + 1)
            + self.cond_pos(x, y + 1) + self.cond_pos(x + 1, y + 1)
    }
}

/// (a, b) lies in the 3x3 neighborhood of (x, y), excluding (x, y) itself.
pub open spec fn is_neighbor(x: int, y: int, a: int, b: int) -> bool {
    &&& x - 1 <= a <= x + 1
    &&& y - 1 <= b <= y + 1
    &&& !(a == x && b == y)
}

/// Consistency between a board and its session status: before the first
/// pick of the session, nothing on the board is revealed.
pub open spec fn consistent(b: Board, s: GameState) -> bool {
    !s.picked_tile ==> count_if(b.tiles@, is_revealed()) == 0
}

/// Partition invariant: on any well-formed board, the remaining, flagged and
/// revealed tiles are pairwise disjoint classes that cover the whole grid, so
/// their counts always sum to `rows * cols`. These are the counts that
/// `remaining_tiles`, `flagged_tiles` and `revealed_tiles` return.
pub proof fn lemma_board_partition(b: Board)
    requires
        b.wf(),
    ensures
        count_if(b.tiles@, is_hidden()) + count_if(b.tiles@, is_flagged()) + count_if(
            b.tiles@,
            is_revealed(),
        ) == b.rows * b.cols,
{
    lemma_tile_partition(b.tiles@);
}

/// Toggling the flag of one tile twice restores the tile sequence exactly,
/// which is the change `Board::flag` makes on an unrevealed tile: two
/// consecutive flag calls on the same tile are a no-op.
pub proof fn lemma_flag_twice_restores(s: Seq<Tile>, i: int)
    requires
        0 <= i < s.len(),
    ensures
        s.update(i, s[i].flag_flipped()).update(
            i,
            s.update(i, s[i].flag_flipped())[i].flag_flipped(),
        ) == s,
{
    let s1 = s.update(i, s[i].flag_flipped());
    assert(s1[i] == s[i].flag_flipped());
    assert(s1.update(i, s1[i].flag_flipped()) =~= s);
}

/// A position inside the grid has a row-major index inside the tile range.
pub proof fn lemma_grid_index(rows: int, cols: int, x: int, y: int)
    requires
        0 <= x < cols,
        0 <= y < rows,
    ensures
        0 <= y * cols,
        0 <= y * cols + x < rows * cols,
{
    assert(0 <= y * cols && 0 <= y * cols + x < rows * cols) by (nonlinear_arith)
        requires
            0 <= x < cols,
            0 <= y < rows,
    ;
}

/// Row-major indexing is injective on grid positions.
pub proof fn lemma_grid_index_injective(cols: int, x1: int, y1: int, x2: int, y2: int)
    requires
        0 <= x1 < cols,
        0 <= x2 < cols,
        0 <= y1,
        0 <= y2,
        y1 * cols + x1 == y2 * cols + x2,
    ensures
        x1 == x2 && y1 == y2,
{
    assert(x1 == x2 && y1 == y2) by (nonlinear_arith)
        requires
            0 <= x1 < cols,
            0 <= x2 < cols,
            0 <= y1,
            0 <= y2,
            y1 * cols + x1 == y2 * cols + x2,
    ;
}

/// An index into the tile vector decomposes into unique grid coordinates.
pub proof fn lemma_grid_decompose(rows: int, cols: int, i: int)
    requires
        0 < cols,
        0 <= i < rows * cols,
    ensures
        0 <= i % cols < cols,
        0 <= i / cols < rows,
        (i / cols) * cols + (i % cols) == i,
{
    vstd::arithmetic::div_mod::lemma_fundamental_div_mod(i, cols);
    assert(0 <= i % cols < cols && 0 <= i / cols < rows && (i / cols) * cols + (i % cols) == i)
        by (nonlinear_arith)
        requires
            0 < cols,
            0 <= i < rows * cols,
            i == cols * (i / cols) + (i % cols),
    ;
}

impl Board {
    /// On a well-formed board every in-bounds position has a valid index.
    pub proof fn lemma_ix(self, x: int, y: int)
        requires
            self.wf(),
            self.in_bounds(x, y),
        ensures
            self.tile_ix_ok(x, y),
    {
        lemma_grid_index(self.rows as int, self.cols as int, x, y);
    }

    /// Two boards of the same size agree on `adj_mines` and `revealed_at`
    /// wherever their tiles agree on mines and revelation.
    pub proof fn lemma_closed_transfer(self, other: Board)
        requires
            self.rows == other.rows,
            self.cols == other.cols,
            self.tiles@.len() == other.tiles@.len(),
            forall|i: int|
                0 <= i < self.tiles@.len() ==> (#[trigger] other.tiles@[i]).has_mine
                    == self.tiles@[i].has_mine && other.tiles@[i].revealed
                    == self.tiles@[i].revealed,
            self.closed(),
        ensures
            other.closed(),
    {
        assert forall|x: int, y: int| #[trigger] other.mine_at(x, y) == self.mine_at(x, y) by {}
        assert forall|x: int, y: int|
            #[trigger] other.revealed_at(x, y) == self.revealed_at(x, y) by {}
        assert forall|x: int, y: int|
            #[trigger] other.revealed_at(x, y) && other.adj_mines(x, y) == 0 implies
            other.nbrs_revealed(x, y) by {
            assert(self.revealed_at(x, y));
            assert(self.adj_mines(x, y) == other.adj_mines(x, y));
            assert(self.nbrs_revealed(x, y));
        }
    }

    pub fn index_of(&self, x: usize, y: usize) -> (i: usize)
        requires
            self.wf(),
            self.in_bounds(x as int, y as int),
        ensures
            i == self.sidx(x as int, y as int),
            i < self.tiles@.len(),
    {
        proof {
            self.lemma_ix(x as int, y as int);
        }
        y * self.cols + x
    }

    /// Allocate a `rows * cols` board of blank tiles. A request for more
    /// mines than cells is rejected before construction by the caller; the
    /// grid must also fit in memory.
    pub fn new(rows: usize, cols: usize, mines: usize) -> (b: Board)
        requires
            mines <= rows * cols,
            rows * cols <= usize::MAX,
        ensures
            b.wf(),
            b.rows == rows,
            b.cols == cols,
            b.mines_count == mines,
            forall|i: int| 0 <= i < b.tiles@.len() ==> #[trigger] b.tiles@[i] == Tile::blank(),
            count_if(b.tiles@, is_mined()) == 0,
            count_if(b.tiles@, is_revealed()) == 0,
            count_if(b.tiles@, is_flagged()) == 0,
            b.closed(),
    {
        let total = rows * cols;
        let mut tiles: Vec<Tile> = Vec::new();
        let mut i: usize = 0;
        while i < total
            invariant
                i <= total,
                tiles@.len() == i,
                forall|j: int| 0 <= j < i as int ==> #[trigger] tiles@[j] == Tile::blank(),
            decreases total - i,
        {
            tiles.push(Tile::new());
            i = i + 1;
        }
        let b = Board { rows, cols, mines_count: mines, tiles };
        proof {
            lemma_count_zero(b.tiles@, is_mined());
            lemma_count_zero(b.tiles@, is_revealed());
            lemma_count_zero(b.tiles@, is_flagged());
        }
        b
    }

    /// Count of tiles that are neither revealed nor flagged.
    pub fn remaining_tiles(&self) -> (n: usize)
        ensures
            n == count_if(self.tiles@, is_hidden()),
    {
        let mut n: usize = 0;
        let mut i: usize = 0;
        let len = self.tiles.len();
        while i < len
            invariant
                i <= len,
                len == self.tiles@.len(),
                n == count_if(self.tiles@.take(i as int), is_hidden()),
            decreases len - i,
        {
            proof {
                lemma_count_take_step(self.tiles@, is_hidden(), i as int);
                lemma_count_le_len(self.tiles@.take(i as int), is_hidden());
            }
            let t = self.tiles[i];
            if !t.revealed && !t.has_flag {
                n = n + 1;
            }
            i = i + 1;
        }
        proof {
            lemma_count_whole(self.tiles@, is_hidden());
        }
        n
    }

    /// Count of tiles carrying a flag.
    pub fn flagged_tiles(&self) -> (n: usize)
        ensures
            n == count_if(self.tiles@, is_flagged()),
    {
        let mut n: usize = 0;
        let mut i: usize = 0;
        let len = self.tiles.len();
        while i < len
            invariant
                i <= len,
                len == self.tiles@.len(),
                n == count_if(self.tiles@.take(i as int), is_flagged()),
            decreases len - i,
        {
            proof {
                lemma_count_take_step(self.tiles@, is_flagged(), i as int);
                lemma_count_le_len(self.tiles@.take(i as int), is_flagged());
            }
            if self.tiles[i].has_flag {
                n = n + 1;
            }
            i = i + 1;
        }
        proof {
            lemma_count_whole(self.tiles@, is_flagged());
        }
        n
    }

    /// Count of revealed tiles.
    pub fn revealed_tiles(&self) -> (n: usize)
        ensures
            n == count_if(self.tiles@, is_revealed()),
    {
        let mut n: usize = 0;
        let mut i: usize = 0;
        let len = self.tiles.len();
        while i < len
            invariant
                i <= len,
                len == self.tiles@.len(),
                n == count_if(self.tiles@.take(i as int), is_revealed()),
            decreases len - i,
        {
            proof {
                lemma_count_take_step(self.tiles@, is_revealed(), i as int);
                lemma_count_le_len(self.tiles@.take(i as int), is_revealed());
            }
            if self.tiles[i].revealed {
                n = n + 1;
            }
            i = i + 1;
        }
        proof {
            lemma_count_whole(self.tiles@, is_revealed());
        }
        n
    }

    /// Toggle the flag at (x, y). An out-of-grid coordinate is rejected; a
    /// request on a revealed tile is ignored, so a flag can only sit on an
    /// unrevealed tile.
    pub fn flag(&mut self, x: usize, y: usize) -> (res: Result<(), BoardError>)
        requires
            old(self).wf(),
        ensures
            final(self).wf(),
            final(self).rows == old(self).rows,
            final(self).cols == old(self).cols,
            final(self).mines_count == old(self).mines_count,
            res is Err <==> !old(self).in_bounds(x as int, y as int),
            res is Err ==> *final(self) == *old(self),
            old(self).in_bounds(x as int, y as int) && old(self).tile_at(
                x as int,
                y as int,
            ).revealed ==> *final(self) == *old(self),
            old(self).in_bounds(x as int, y as int) && !old(self).tile_at(
                x as int,
                y as int,
            ).revealed ==> final(self).tiles@ == old(self).tiles@.update(
                old(self).sidx(x as int, y as int),
                old(self).tile_at(x as int, y as int).flag_flipped(),
            ),
            count_if(final(self).tiles@, is_mined()) == count_if(old(self).tiles@, is_mined()),
            count_if(final(self).tiles@, is_revealed()) == count_if(
                old(self).tiles@,
                is_revealed(),
            ),
            old(self).closed() ==> final(self).closed(),
    {
        if x >= self.cols || y >= self.rows {
            return Err(BoardError::InvalidPosition);
        }
        let i = self.index_of(x, y);
        if self.tiles[i].revealed {
            return Ok(());
        }
        let ghost pre = *self;
        let t = self.tiles[i];
        self.tiles[i] = Tile { revealed: t.revealed, has_mine: t.has_mine, has_flag: !t.has_flag };
        proof {
            lemma_count_update(pre.tiles@, is_mined(), i as int, self.tiles@[i as int]);
            lemma_count_update(pre.tiles@, is_revealed(), i as int, self.tiles@[i as int]);
            if pre.closed() {
                pre.lemma_closed_transfer(*self);
            }
        }
        Ok(())
    }

    /// Whether the tile at the in-bounds position (x, y) holds a mine.
    fn mine_present(&self, x: usize, y: usize) -> (r: bool)
        requires
            self.wf(),
            self.in_bounds(x as int, y as int),
        ensures
            r == self.tile_at(x as int, y as int).has_mine,
            self.mine_at(x as int, y as int) == (if r {
                1nat
            } else {
                0nat
            }),
    {
        proof {
            self.lemma_ix(x as int, y as int);
        }
        let i = self.index_of(x, y);
        self.tiles[i].has_mine
    }

    /// How many of the up-to-8 in-bounds neighbors of (x, y) hold a mine.
    pub fn adjacent_mines(&self, x: usize, y: usize) -> (n: u8)
        requires
            self.wf(),
            self.in_bounds(x as int, y as int),
        ensures
            n as nat == self.adj_mines(x as int, y as int),
            n <= 8,
    {
        let mut n: u8 = 0;
        if x > 0 && y > 0 && self.mine_present(x - 1, y - 1) {
            n = n + 1;
        }
        if y > 0 && self.mine_present(x, y - 1) {
            n = n + 1;
        }
        if x + 1 < self.cols && y > 0 && self.mine_present(x + 1, y - 1) {
            n = n + 1;
        }
        if x > 0 && self.mine_present(x - 1, y) {
            n = n + 1;
        }
        if x + 1 < self.cols && self.mine_present(x + 1, y) {
            n = n + 1;
        }
        if x > 0 && y + 1 < self.rows && self.mine_present(x - 1, y + 1) {
            n = n + 1;
        }
        if y + 1 < self.rows && self.mine_present(x, y + 1) {
            n = n + 1;
        }
        if x + 1 < self.cols && y + 1 < self.rows && self.mine_present(x + 1, y + 1) {
            n = n + 1;
        }
        n
    }

    /// Every in-bounds neighbor position appears in `neighbor_seq`, and
    /// everything in `neighbor_seq` is an in-bounds neighbor position.
    pub proof fn lemma_neighbor_seq_facts(self, x: int, y: int)
        ensures
            forall|k: int|
                0 <= k < self.neighbor_seq(x, y).len() ==> self.in_bounds(
                    #[trigger] self.neighbor_seq(x, y)[k].0 as int,
                    self.neighbor_seq(x, y)[k].1 as int,
                ) && is_neighbor(
                    x,
                    y,
                    self.neighbor_seq(x, y)[k].0 as int,
                    self.neighbor_seq(x, y)[k].1 as int,
                ),
            forall|a: int, b: int|
                self.in_bounds(a, b) && is_neighbor(x, y, a, b) ==> self.neighbor_seq(
                    x,
                    y,
                ).contains(((a as usize, b as usize))),
    {
        broadcast use vstd::seq_lib::group_seq_properties;

        let ns = self.neighbor_seq(x, y);
        assert forall|a: int, b: int|
            self.in_bounds(a, b) && is_neighbor(x, y, a, b) implies ns.contains(
            ((a as usize, b as usize)),
        ) by {
            let v = (a as usize, b as usize);
            assert(self.cond_pos(a, b)[0] == v);
            assert(self.cond_pos(a, b).contains(v));
        }
        assert forall|k: int| 0 <= k < ns.len() implies self.in_bounds(
            #[trigger] ns[k].0 as int,
            ns[k].1 as int,
        ) && is_neighbor(x, y, ns[k].0 as int, ns[k].1 as int) by {
            assert(ns.contains(ns[k]));
            let v = ns[k];
            if self.cond_pos(x - 1, y - 1).contains(v) {
                assert(v == self.cond_pos(x - 1, y - 1)[0]);
            } else if self.cond_pos(x, y - 1).contains(v) {
                assert(v == self.cond_pos(x, y - 1)[0]);
            } else if self.cond_pos(x + 1, y - 1).contains(v) {
                assert(v == self.cond_pos(x + 1, y - 1)[0]);
            } else if self.cond_pos(x - 1, y).contains(v) {
                assert(v == self.cond_pos(x - 1, y)[0]);
            } else if self.cond_pos(x + 1, y).contains(v) {
                assert(v == self.cond_pos(x + 1, y)[0]);
            } else if self.cond_pos(x - 1, y + 1).contains(v) {
                assert(v == self.cond_pos(x - 1, y + 1)[0]);
            } else if self.cond_pos(x, y + 1).contains(v) {
                assert(v == self.cond_pos(x, y + 1)[0]);
            } else {
                assert(self.cond_pos(x + 1, y + 1).contains(v));
                assert(v == self.cond_pos(x + 1, y + 1)[0]);
            }
        }
    }

    /// The coordinates of the valid neighbors of (x, y): the 3x3
    /// neighborhood minus the center, clipped to the grid, row-major.
    #[verifier::rlimit(60)]
    pub fn get_neighboring_tiles(&self, x: usize, y: usize) -> (r: Vec<(usize, usize)>)
        requires
            self.wf(),
            self.in_bounds(x as int, y as int),
        ensures
            r@ == self.neighbor_seq(x as int, y as int),
    {
        let mut r: Vec<(usize, usize)> = Vec::new();
        if x > 0 && y > 0 {
            r.push((x - 1, y - 1));
        }
        if y > 0 {
            r.push((x, y - 1));
        }
        if x + 1 < self.cols && y > 0 {
            r.push((x + 1, y - 1));
        }
        if x > 0 {
            r.push((x - 1, y));
        }
        if x + 1 < self.cols {
            r.push((x + 1, y));
        }
        if x > 0 && y + 1 < self.rows {
            r.push((x - 1, y + 1));
        }
        if y + 1 < self.rows {
            r.push((x, y + 1));
        }
        if x + 1 < self.cols && y + 1 < self.rows {
            r.push((x + 1, y + 1));
        }
        proof {
            assert(r@ =~= self.neighbor_seq(x as int, y as int));
        }
        r
    }

    /// Pick a position uniformly at random among the cells that hold no
    /// mine. At least one such cell must exist.
    pub fn get_new_pos(&self) -> (pos: (usize, usize))
        requires
            self.wf(),
            count_if(self.tiles@, is_mined()) < self.tiles@.len(),
        ensures
            self.in_bounds(pos.0 as int, pos.1 as int),
            !self.tile_at(pos.0 as int, pos.1 as int).has_mine,
    {
        let len = self.tiles.len();
        let mut i: usize = 0;
        let mut free: usize = 0;
        while i < len
            invariant
                i <= len,
                len == self.tiles@.len(),
                free == count_if(self.tiles@.take(i as int), is_unmined()),
            decreases len - i,
        {
            proof {
                lemma_count_take_step(self.tiles@, is_unmined(), i as int);
                lemma_count_le_len(self.tiles@.take(i as int), is_unmined());
            }
            if !self.tiles[i].has_mine {
                free = free + 1;
            }
            i = i + 1;
        }
        proof {
            lemma_count_whole(self.tiles@, is_unmined());
            lemma_count_complement(self.tiles@, is_mined(), is_unmined());
        }
        let k = rng(free);
        let mut i: usize = 0;
        let mut seen: usize = 0;
        while i < len
            invariant
                i <= len,
                len == self.tiles@.len(),
                self.wf(),
                seen == count_if(self.tiles@.take(i as int), is_unmined()),
                seen <= k,
                k < count_if(self.tiles@, is_unmined()),
            decreases len - i,
        {
            proof {
                lemma_count_take_step(self.tiles@, is_unmined(), i as int);
            }
            if !self.tiles[i].has_mine {
                if seen == k {
                    proof {
                        if self.cols == 0 {
                            assert(self.rows * self.cols == 0) by (nonlinear_arith)
                                requires
                                    self.cols == 0,
                            ;
                        }
                        lemma_grid_decompose(self.rows as int, self.cols as int, i as int);
                    }
                    let x = i % self.cols;
                    let y = i / self.cols;
                    assert(self.sidx(x as int, y as int) == i as int);
                    return (x, y);
                }
                seen = seen + 1;
            }
            i = i + 1;
        }
        proof {
            lemma_count_whole(self.tiles@, is_unmined());
            assert(false);
        }
        vstd::pervasive::unreached()
    }

    /// Place exactly `mines_count` mines on distinct cells of a fresh board,
    /// each drawn uniformly among the cells still free of a mine.
    pub fn generate_mines(&mut self)
        requires
            old(self).wf(),
            count_if(old(self).tiles@, is_mined()) == 0,
            count_if(old(self).tiles@, is_revealed()) == 0,
        ensures
            final(self).wf(),
            final(self).rows == old(self).rows,
            final(self).cols == old(self).cols,
            final(self).mines_count == old(self).mines_count,
            count_if(final(self).tiles@, is_mined()) == final(self).mines_count,
            count_if(final(self).tiles@, is_revealed()) == 0,
            forall|i: int|
                0 <= i < final(self).tiles@.len() ==> (#[trigger] final(self).tiles@[i]).revealed
                    == old(self).tiles@[i].revealed && final(self).tiles@[i].has_flag
                    == old(self).tiles@[i].has_flag,
            final(self).closed(),
    {
        let ghost init = *self;
        let mut placed: usize = 0;
        while placed < self.mines_count
            invariant
                self.wf(),
                self.rows == init.rows,
                self.cols == init.cols,
                self.mines_count == init.mines_count,
                self.tiles@.len() == init.tiles@.len(),
                placed <= self.mines_count,
                count_if(self.tiles@, is_mined()) == placed,
                count_if(self.tiles@, is_revealed()) == count_if(init.tiles@, is_revealed()),
                forall|i: int|
                    0 <= i < self.tiles@.len() ==> (#[trigger] self.tiles@[i]).revealed
                        == init.tiles@[i].revealed && self.tiles@[i].has_flag
                        == init.tiles@[i].has_flag,
            decreases self.mines_count - placed,
        {
            let ghost pre = *self;
            let pos = self.get_new_pos();
            let i = self.index_of(pos.0, pos.1);
            let t = self.tiles[i];
            self.tiles[i] = Tile { revealed: t.revealed, has_mine: true, has_flag: t.has_flag };
            proof {
                lemma_count_update(pre.tiles@, is_mined(), i as int, self.tiles@[i as int]);
                lemma_count_update(pre.tiles@, is_revealed(), i as int, self.tiles@[i as int]);
            }
            placed = placed + 1;
        }
        proof {
            lemma_count_zero(init.tiles@, is_revealed());
            lemma_count_zero(self.tiles@, is_revealed());
            assert forall|x: int, y: int|
                !(#[trigger] self.revealed_at(x, y) && self.adj_mines(x, y) == 0) by {
                if self.tile_ix_ok(x, y) {
                    assert(!self.tiles@[self.sidx(x, y)].revealed);
                }
            }
        }
    }

    /// Flag every tile that is neither revealed nor flagged. Only meaningful
    /// when those tiles are exactly the unflagged mines, which the caller
    /// guarantees by the precondition; a call without it would mark an
    /// internal consistency failure, not a user error.
    pub fn flag_all_remaining_tiles(&mut self)
        requires
            old(self).wf(),
            count_if(old(self).tiles@, is_hidden()) + count_if(old(self).tiles@, is_flagged())
                == old(self).mines_count,
        ensures
            final(self).wf(),
            final(self).rows == old(self).rows,
            final(self).cols == old(self).cols,
            final(self).mines_count == old(self).mines_count,
            forall|i: int|
                0 <= i < final(self).tiles@.len() ==> (#[trigger] final(self).tiles@[i]).revealed
                    == old(self).tiles@[i].revealed && final(self).tiles@[i].has_mine
                    == old(self).tiles@[i].has_mine && final(self).tiles@[i].has_flag == (
                old(self).tiles@[i].has_flag || !old(self).tiles@[i].revealed),
            count_if(final(self).tiles@, is_mined()) == count_if(old(self).tiles@, is_mined()),
            count_if(final(self).tiles@, is_revealed()) == count_if(
                old(self).tiles@,
                is_revealed(),
            ),
            count_if(final(self).tiles@, is_hidden()) == 0,
            count_if(final(self).tiles@, is_flagged()) == old(self).mines_count,
            old(self).closed() ==> final(self).closed(),
    {
        let ghost init = *self;
        let len = self.tiles.len();
        let mut i: usize = 0;
        while i < len
            invariant
                self.wf(),
                i <= len,
                len == self.tiles@.len(),
                self.rows == init.rows,
                self.cols == init.cols,
                self.mines_count == init.mines_count,
                self.tiles@.len() == init.tiles@.len(),
                forall|j: int|
                    i as int <= j < self.tiles@.len() ==> #[trigger] self.tiles@[j]
                        == init.tiles@[j],
                forall|j: int|
                    0 <= j < i as int ==> (#[trigger] self.tiles@[j]).revealed
                        == init.tiles@[j].revealed && self.tiles@[j].has_mine
                        == init.tiles@[j].has_mine && self.tiles@[j].has_flag == (
                    init.tiles@[j].has_flag || !init.tiles@[j].revealed),
                count_if(self.tiles@, is_mined()) == count_if(init.tiles@, is_mined()),
                count_if(self.tiles@, is_revealed()) == count_if(init.tiles@, is_revealed()),
                count_if(self.tiles@, is_flagged()) == count_if(init.tiles@, is_flagged())
                    + count_if(init.tiles@.take(i as int), is_hidden()),
            decreases len - i,
        {
            proof {
                lemma_count_take_step(init.tiles@, is_hidden(), i as int);
            }
            let t = self.tiles[i];
            if !t.revealed && !t.has_flag {
                let ghost pre = *self;
                self.tiles[i] = Tile { revealed: t.revealed, has_mine: t.has_mine, has_flag: true };
                proof {
                    lemma_count_update(pre.tiles@, is_mined(), i as int, self.tiles@[i as int]);
                    lemma_count_update(pre.tiles@, is_revealed(), i as int, self.tiles@[i as int]);
                    lemma_count_update(pre.tiles@, is_flagged(), i as int, self.tiles@[i as int]);
                }
            }
            i = i + 1;
        }
        proof {
            lemma_count_whole(init.tiles@, is_hidden());
            lemma_count_zero(self.tiles@, is_hidden());
            if init.closed() {
                init.lemma_closed_transfer(*self);
            }
        }
    }

    /// Popping an already-revealed position off the flood worklist keeps the
    /// coverage invariant: every obligation the popped entry was carrying is
    /// met by that position being revealed.
    proof fn lemma_flood_skip(
        b: Board,
        st0: Seq<(usize, usize)>,
        st1: Seq<(usize, usize)>,
        px: usize,
        py: usize,
        x: usize,
        y: usize,
    )
        requires
            st0.len() > 0,
            (px, py) == st0[st0.len() - 1],
            st1 == st0.subrange(0, st0.len() - 1),
            b.revealed_at(px as int, py as int),
            forall|a: int, c: int|
                #[trigger] b.revealed_at(a, c) && b.adj_mines(a, c) == 0 ==> b.nbrs_covered(
                    a,
                    c,
                    st0,
                ),
            b.revealed_at(x as int, y as int) || st0.contains((x, y)),
        ensures
            forall|a: int, c: int|
                #[trigger] b.revealed_at(a, c) && b.adj_mines(a, c) == 0 ==> b.nbrs_covered(
                    a,
                    c,
                    st1,
                ),
            b.revealed_at(x as int, y as int) || st1.contains((x, y)),
    {
        broadcast use vstd::seq_lib::group_seq_properties;

        assert forall|v: (usize, usize)| st0.contains(v) implies v == (px, py) || st1.contains(
            v,
        ) by {
            let j = choose|j: int| 0 <= j < st0.len() && st0[j] == v;
            if j < st0.len() - 1 {
                assert(st1[j] == v);
            }
        }
        assert forall|nx: int, ny: int| #[trigger] b.covered(nx, ny, st0) implies b.covered(
            nx,
            ny,
            st1,
        ) by {
            if b.in_bounds(nx, ny) && !b.revealed_at(nx, ny) {
                let v = (nx as usize, ny as usize);
                assert(st0.contains(v));
                if v == (px, py) {
                    assert(nx == px as int && ny == py as int);
                    assert(false);
                }
            }
        }
        assert forall|a: int, c: int|
            #[trigger] b.revealed_at(a, c) && b.adj_mines(a, c) == 0 implies b.nbrs_covered(
            a,
            c,
            st1,
        ) by {
            assert(b.nbrs_covered(a, c, st0));
        }
    }

    /// Revealing the popped position keeps the coverage invariant: when the
    /// position has no adjacent mine its whole neighborhood joins the
    /// worklist, and when it is numbered it carries no obligation.
    #[verifier::rlimit(100)]
    proof fn lemma_flood_reveal(
        pre: Board,
        post: Board,
        base: Board,
        st0: Seq<(usize, usize)>,
        st1: Seq<(usize, usize)>,
        px: usize,
        py: usize,
        x: usize,
        y: usize,
    )
        requires
            pre.wf(),
            post.wf(),
            post.rows == pre.rows,
            post.cols == pre.cols,
            post.tiles@.len() == pre.tiles@.len(),
            pre.in_bounds(px as int, py as int),
            !pre.tile_at(px as int, py as int).revealed,
            post.tiles@ == pre.tiles@.update(
                pre.sidx(px as int, py as int),
                pre.tile_at(px as int, py as int).revealed_form(),
            ),
            st0.len() > 0,
            (px, py) == st0[st0.len() - 1],
            st1 == (if post.adj_mines(px as int, py as int) == 0 {
                st0.subrange(0, st0.len() - 1) + post.neighbor_seq(px as int, py as int)
            } else {
                st0.subrange(0, st0.len() - 1)
            }),
            forall|a: int, c: int|
                #[trigger] pre.revealed_at(a, c) && pre.adj_mines(a, c) == 0 ==> pre.nbrs_covered(
                    a,
                    c,
                    st0,
                ),
            pre.revealed_at(x as int, y as int) || st0.contains((x, y)),
            forall|k: int|
                0 <= k < st0.len() ==> pre.in_bounds(#[trigger] st0[k].0 as int, st0[k].1 as int)
                    && !pre.tile_at(st0[k].0 as int, st0[k].1 as int).has_mine,
            forall|k: int|
                0 <= k < st0.len() ==> pre.flood_reached(
                    x as int,
                    y as int,
                    #[trigger] st0[k].0 as int,
                    st0[k].1 as int,
                ),
            forall|p: int, q: int|
                #[trigger] pre.revealed_at(p, q) && !base.revealed_at(p, q) ==> pre.flood_reached(
                    x as int,
                    y as int,
                    p,
                    q,
                ),
        ensures
            forall|a: int, c: int|
                #[trigger] post.revealed_at(a, c) && post.adj_mines(a, c) == 0
                    ==> post.nbrs_covered(a, c, st1),
            post.revealed_at(x as int, y as int) || st1.contains((x, y)),
            forall|k: int|
                0 <= k < st1.len() ==> post.in_bounds(#[trigger] st1[k].0 as int, st1[k].1 as int)
                    && !post.tile_at(st1[k].0 as int, st1[k].1 as int).has_mine,
            forall|k: int|
                0 <= k < st1.len() ==> post.flood_reached(
                    x as int,
                    y as int,
                    #[trigger] st1[k].0 as int,
                    st1[k].1 as int,
                ),
            forall|p: int, q: int|
                #[trigger] post.revealed_at(p, q) && !base.revealed_at(p, q)
                    ==> post.flood_reached(x as int, y as int, p, q),
    {
        broadcast use vstd::seq_lib::group_seq_properties;

        let pxi = px as int;
        let pyi = py as int;
        let ti = pre.sidx(pxi, pyi);
        pre.lemma_ix(pxi, pyi);
        let stp = st0.subrange(0, st0.len() - 1);
        assert forall|v: (usize, usize)| st0.contains(v) implies v == (px, py) || stp.contains(
            v,
        ) by {
            let j = choose|j: int| 0 <= j < st0.len() && st0[j] == v;
            if j < st0.len() - 1 {
                assert(stp[j] == v);
            }
        }
        assert forall|v: (usize, usize)| stp.contains(v) implies st1.contains(v) by {}
        assert forall|i: int|
            0 <= i < post.tiles@.len() implies (#[trigger] post.tiles@[i]).has_mine
            == pre.tiles@[i].has_mine by {}
        assert forall|p: int, q: int| #[trigger] post.mine_at(p, q) == pre.mine_at(p, q) by {}
        assert forall|a: int, c: int| #[trigger] post.adj_mines(a, c) == pre.adj_mines(a, c) by {}
        assert(post.revealed_at(pxi, pyi));
        assert forall|a: int, c: int|
            #[trigger] post.revealed_at(a, c) && !(a == pxi && c == pyi) implies pre.revealed_at(
            a,
            c,
        ) by {
            if post.sidx(a, c) == ti {
                lemma_grid_index_injective(post.cols as int, a, c, pxi, pyi);
            }
        }
        assert forall|a: int, c: int| #[trigger] pre.revealed_at(a, c) implies post.revealed_at(
            a,
            c,
        ) by {}
        assert forall|nx: int, ny: int| #[trigger] pre.covered(nx, ny, st0) implies post.covered(
            nx,
            ny,
            st1,
        ) by {
            if post.in_bounds(nx, ny) && !post.revealed_at(nx, ny) {
                let v = (nx as usize, ny as usize);
                assert(!pre.revealed_at(nx, ny));
                assert(st0.contains(v));
                if v == (px, py) {
                    assert(nx == pxi && ny == pyi);
                    assert(false);
                } else {
                    assert(stp.contains(v));
                    assert(st1.contains(v));
                }
            }
        }
        if post.adj_mines(pxi, pyi) == 0 {
            post.lemma_neighbor_seq_facts(pxi, pyi);
            let nseq = post.neighbor_seq(pxi, pyi);
            assert forall|a: int, c: int|
                post.in_bounds(a, c) && is_neighbor(pxi, pyi, a, c) implies st1.contains(
                ((a as usize, c as usize)),
            ) by {
                assert(nseq.contains((a as usize, c as usize)));
            }
            assert(post.nbrs_covered(pxi, pyi, st1));
        }
        assert forall|a: int, c: int|
            #[trigger] post.revealed_at(a, c) && post.adj_mines(a, c) == 0
                implies post.nbrs_covered(a, c, st1) by {
            if a == pxi && c == pyi {
                assert(post.nbrs_covered(pxi, pyi, st1));
            } else {
                assert(pre.revealed_at(a, c));
                assert(pre.adj_mines(a, c) == 0);
                assert(pre.nbrs_covered(a, c, st0));
            }
        }
        if !post.revealed_at(x as int, y as int) {
            assert(!pre.revealed_at(x as int, y as int));
            assert(st0.contains((x, y)));
            if (x, y) == (px, py) {
                assert(false);
            }
            assert(stp.contains((x, y)));
            assert(st1.contains((x, y)));
        }
        assert forall|k: int| 0 <= k < st1.len() implies post.in_bounds(
            #[trigger] st1[k].0 as int,
            st1[k].1 as int,
        ) && !post.tile_at(st1[k].0 as int, st1[k].1 as int).has_mine by {
            if post.adj_mines(pxi, pyi) == 0 {
                let nseq = post.neighbor_seq(pxi, pyi);
                if k < stp.len() {
                    assert(st1[k] == stp[k]);
                    assert(stp[k] == st0[k]);
                    pre.lemma_ix(st0[k].0 as int, st0[k].1 as int);
                    assert(!post.tile_at(st1[k].0 as int, st1[k].1 as int).has_mine);
                } else {
                    let kk = k - stp.len();
                    assert(st1[k] == nseq[kk]);
                    let a = nseq[kk].0 as int;
                    let c = nseq[kk].1 as int;
                    post.lemma_ix(a, c);
                    assert(post.mine_at(a, c) == 0);
                    assert(!post.tile_at(a, c).has_mine);
                }
            } else {
                assert(st1[k] == st0[k]);
                pre.lemma_ix(st0[k].0 as int, st0[k].1 as int);
                assert(!post.tile_at(st1[k].0 as int, st1[k].1 as int).has_mine);
            }
        }
        let xi = x as int;
        let yi = y as int;
        assert forall|p: int, q: int|
            pre.flood_reached(xi, yi, p, q) implies post.flood_reached(xi, yi, p, q) by {
            if !(p == xi && q == yi) {
                let (a, c) = choose|a: int, c: int|
                    pre.revealed_at(a, c) && pre.adj_mines(a, c) == 0 && is_neighbor(a, c, p, q);
                assert(post.revealed_at(a, c));
                assert(post.adj_mines(a, c) == 0);
            }
        }
        assert forall|k: int| 0 <= k < st1.len() implies post.flood_reached(
            xi,
            yi,
            #[trigger] st1[k].0 as int,
            st1[k].1 as int,
        ) by {
            if post.adj_mines(pxi, pyi) == 0 {
                let nseq = post.neighbor_seq(pxi, pyi);
                if k < stp.len() {
                    assert(st1[k] == st0[k]);
                    assert(pre.flood_reached(xi, yi, st0[k].0 as int, st0[k].1 as int));
                } else {
                    let kk = k - stp.len();
                    assert(st1[k] == nseq[kk]);
                    assert(is_neighbor(pxi, pyi, nseq[kk].0 as int, nseq[kk].1 as int));
                    assert(post.revealed_at(pxi, pyi) && post.adj_mines(pxi, pyi) == 0);
                }
            } else {
                assert(st1[k] == st0[k]);
                assert(pre.flood_reached(xi, yi, st0[k].0 as int, st0[k].1 as int));
            }
        }
        assert forall|p: int, q: int|
            #[trigger] post.revealed_at(p, q) && !base.revealed_at(p, q)
                implies post.flood_reached(xi, yi, p, q) by {
            if p == pxi && q == pyi {
                let lastk = st0.len() - 1;
                assert(st0[lastk].0 == px && st0[lastk].1 == py);
                assert(pre.flood_reached(xi, yi, st0[lastk].0 as int, st0[lastk].1 as int));
            } else {
                assert(pre.revealed_at(p, q));
                assert(pre.flood_reached(xi, yi, p, q));
            }
        }
    }

    /// Reveal the tile at (x, y): the central move of a round.
    ///
    /// An out-of-grid coordinate is rejected and nothing changes. The first
    /// reveal of a session is always safe: a mine found under the first pick
    /// is moved to a uniformly-random mine-free cell by swapping the two
    /// tiles' whole state, and the reveal then proceeds at (x, y). Revealing
    /// an already-revealed tile is a no-op. Revealing a mine after the first
    /// pick, or revealing once the game has ended, records (x, y) as the
    /// fatal tile and changes no tile. Otherwise the tile is revealed with
    /// its flag cleared, and when it has no adjacent mine the reveal floods
    /// through the mine-free zero-adjacency region around it, stopping
    /// exactly at numbered tiles, which `closed` states.
    #[verifier::rlimit(100)]
    pub fn uncover(&mut self, status: &mut GameState, x: usize, y: usize) -> (res: Result<
        (),
        BoardError,
    >)
        requires
            old(self).wf(),
            old(self).closed(),
            old(status).inv(),
            consistent(*old(self), *old(status)),
            !old(status).picked_tile && old(self).in_bounds(x as int, y as int) && old(
                self,
            ).tile_at(x as int, y as int).has_mine ==> count_if(old(self).tiles@, is_mined())
                < old(self).tiles@.len(),
        ensures
            final(self).wf(),
            final(self).closed(),
            final(status).inv(),
            consistent(*final(self), *final(status)),
            final(self).rows == old(self).rows,
            final(self).cols == old(self).cols,
            final(self).mines_count == old(self).mines_count,
            final(self).tiles@.len() == old(self).tiles@.len(),
            count_if(final(self).tiles@, is_mined()) == count_if(old(self).tiles@, is_mined()),
            final(status).game_won == old(status).game_won,
            res is Err <==> !old(self).in_bounds(x as int, y as int),
            res is Err ==> *final(self) == *old(self) && *final(status) == *old(status),
            res is Ok ==> final(status).picked_tile,
            forall|i: int|
                0 <= i < old(self).tiles@.len() ==> (#[trigger] old(self).tiles@[i]).revealed
                    ==> final(self).tiles@[i] == old(self).tiles@[i],
            old(self).in_bounds(x as int, y as int) && old(self).tile_at(
                x as int,
                y as int,
            ).revealed ==> *final(self) == *old(self) && *final(status) == *old(status),
            old(self).in_bounds(x as int, y as int) && !old(self).tile_at(
                x as int,
                y as int,
            ).revealed && (old(status).game_ended || (old(status).picked_tile && old(self).tile_at(
                x as int,
                y as int,
            ).has_mine)) ==> *final(self) == *old(self) && final(status).game_ended
                && final(status).game_ending_tile == Some((x, y)),
            old(self).in_bounds(x as int, y as int) && !old(self).tile_at(
                x as int,
                y as int,
            ).revealed && !old(status).game_ended && !(old(status).picked_tile && old(self).tile_at(
                x as int,
                y as int,
            ).has_mine) ==> !final(status).game_ended
                && final(status).game_ending_tile == old(status).game_ending_tile
                && final(self).revealed_at(x as int, y as int)
                && !final(self).tile_at(x as int, y as int).has_mine,
            old(self).in_bounds(x as int, y as int) && !old(self).tile_at(
                x as int,
                y as int,
            ).revealed && !old(status).game_ended && !(old(status).picked_tile && old(self).tile_at(
                x as int,
                y as int,
            ).has_mine) ==> forall|p: int, q: int|
                #[trigger] final(self).revealed_at(p, q) && !old(self).revealed_at(p, q)
                    ==> final(self).flood_reached(x as int, y as int, p, q),
            old(self).in_bounds(x as int, y as int) && !old(self).tile_at(
                x as int,
                y as int,
            ).revealed && !old(status).game_ended && old(status).picked_tile && !old(self).tile_at(
                x as int,
                y as int,
            ).has_mine ==> forall|i: int|
                0 <= i < old(self).tiles@.len() ==> reveal_step_ok(
                    old(self).tiles@[i],
                    #[trigger] final(self).tiles@[i],
                ),
    {
        if x >= self.cols || y >= self.rows {
            return Err(BoardError::InvalidPosition);
        }
        let i_click = self.index_of(x, y);
        if !status.picked_tile {
            proof {
                lemma_count_zero(old(self).tiles@, is_revealed());
            }
            if self.tiles[i_click].has_mine {
                let ghost pre = *self;
                let npos = self.get_new_pos();
                let i_new = self.index_of(npos.0, npos.1);
                let ta = self.tiles[i_new];
                let tb = self.tiles[i_click];
                self.tiles[i_click] = ta;
                self.tiles[i_new] = tb;
                proof {
                    assert(i_new != i_click);
                    let mid = pre.tiles@.update(i_click as int, ta);
                    lemma_count_update(pre.tiles@, is_mined(), i_click as int, ta);
                    lemma_count_update(mid, is_mined(), i_new as int, tb);
                    lemma_count_update(pre.tiles@, is_revealed(), i_click as int, ta);
                    lemma_count_update(mid, is_revealed(), i_new as int, tb);
                    assert(self.tiles@ =~= mid.update(i_new as int, tb));
                }
            }
            status.picked_tile = true;
        }
        proof {
            if !old(status).picked_tile {
                lemma_count_zero(self.tiles@, is_revealed());
            }
        }
        if self.tiles[i_click].revealed {
            proof {
                lemma_count_pos(self.tiles@, is_revealed(), i_click as int);
            }
            return Ok(());
        }
        if status.game_ended || self.tiles[i_click].has_mine {
            status.game_ended = true;
            status.game_ending_tile = Some((x, y));
            return Ok(());
        }
        let ghost snap = *self;
        proof {
            if !old(status).picked_tile {
                lemma_count_zero(snap.tiles@, is_revealed());
                assert forall|a: int, b: int| !(#[trigger] snap.revealed_at(a, b)) by {
                    if snap.tile_ix_ok(a, b) {
                        assert(!snap.tiles@[snap.sidx(a, b)].revealed);
                    }
                }
            }
            assert(snap.closed());
        }
        let mut stack: Vec<(usize, usize)> = Vec::new();
        stack.push((x, y));
        proof {
            assert(stack@[0] == (x, y));
        }
        while stack.len() > 0
            invariant
                self.wf(),
                self.rows == snap.rows,
                self.cols == snap.cols,
                self.mines_count == snap.mines_count,
                self.tiles@.len() == snap.tiles@.len(),
                snap.wf(),
                forall|i: int|
                    0 <= i < snap.tiles@.len() ==> reveal_step_ok(
                        snap.tiles@[i],
                        #[trigger] self.tiles@[i],
                    ),
                forall|i: int|
                    0 <= i < snap.tiles@.len() ==> (#[trigger] self.tiles@[i]).has_mine
                        == snap.tiles@[i].has_mine,
                count_if(self.tiles@, is_mined()) == count_if(snap.tiles@, is_mined()),
                forall|k: int|
                    0 <= k < stack@.len() ==> self.in_bounds(
                        #[trigger] stack@[k].0 as int,
                        stack@[k].1 as int,
                    ) && !self.tile_at(stack@[k].0 as int, stack@[k].1 as int).has_mine,
                forall|a: int, b: int|
                    #[trigger] self.revealed_at(a, b) && self.adj_mines(a, b) == 0
                        ==> self.nbrs_covered(a, b, stack@),
                self.revealed_at(x as int, y as int) || stack@.contains((x, y)),
                forall|k: int|
                    0 <= k < stack@.len() ==> self.flood_reached(
                        x as int,
                        y as int,
                        #[trigger] stack@[k].0 as int,
                        stack@[k].1 as int,
                    ),
                forall|p: int, q: int|
                    #[trigger] self.revealed_at(p, q) && !snap.revealed_at(p, q)
                        ==> self.flood_reached(x as int, y as int, p, q),
            decreases count_if(self.tiles@, is_unrevealed()), stack@.len(),
        {
            let ghost st0 = stack@;
            let ghost pre = *self;
            let popped = stack.pop().unwrap();
            let cx = popped.0;
            let cy = popped.1;
            proof {
                assert(st0[st0.len() - 1] == popped);
                assert(stack@ == st0.subrange(0, st0.len() - 1));
            }
            let ti = self.index_of(cx, cy);
            if !self.tiles[ti].revealed {
                let t = self.tiles[ti];
                self.tiles[ti] = Tile { revealed: true, has_mine: t.has_mine, has_flag: false };
                proof {
                    lemma_count_update(pre.tiles@, is_mined(), ti as int, self.tiles@[ti as int]);
                    lemma_count_update(
                        pre.tiles@,
                        is_unrevealed(),
                        ti as int,
                        self.tiles@[ti as int],
                    );
                }
                let n = self.adjacent_mines(cx, cy);
                if n == 0 {
                    let mut nbrs = self.get_neighboring_tiles(cx, cy);
                    stack.append(&mut nbrs);
                }
                proof {
                    assert(self.tiles@ == pre.tiles@.update(
                        pre.sidx(cx as int, cy as int),
                        pre.tile_at(cx as int, cy as int).revealed_form(),
                    ));
                    Board::lemma_flood_reveal(pre, *self, snap, st0, stack@, cx, cy, x, y);
                }
            } else {
                proof {
                    assert(self.revealed_at(cx as int, cy as int));
                    Board::lemma_flood_skip(*self, st0, stack@, cx, cy, x, y);
                    assert forall|k: int| 0 <= k < stack@.len() implies self.flood_reached(
                        x as int,
                        y as int,
                        #[trigger] stack@[k].0 as int,
                        stack@[k].1 as int,
                    ) by {
                        assert(stack@[k] == st0[k]);
                        assert(self.flood_reached(x as int, y as int, st0[k].0 as int, st0[k].1 as int));
                    }
                }
            }
        }
        proof {
            assert forall|v: (usize, usize)| !stack@.contains(v) by {
                if stack@.contains(v) {
                    let j = choose|j: int| 0 <= j < stack@.len() && stack@[j] == v;
                }
            }
            assert forall|a: int, b: int|
                #[trigger] self.revealed_at(a, b) && self.adj_mines(a, b) == 0
                    implies self.nbrs_revealed(a, b) by {
                assert(self.nbrs_covered(a, b, stack@));
            }
            if !old(status).picked_tile {
                lemma_count_zero(old(self).tiles@, is_revealed());
            }
            assert forall|p: int, q: int|
                #[trigger] self.revealed_at(p, q) && !old(self).revealed_at(p, q)
                    implies self.flood_reached(x as int, y as int, p, q) by {
                if old(status).picked_tile {
                    assert(snap == *old(self));
                } else {
                    assert(!snap.revealed_at(p, q));
                }
            }
        }
        Ok(())
    }
}

} // verus!
