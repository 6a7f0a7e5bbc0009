//! The board, its tiles, and the rules that mutate them.

use vstd::prelude::*;

use crate::counting::count_matching;
use crate::counting::lemma_count_le_card;
use crate::counting::lemma_count_take_full;
use crate::counting::lemma_count_take_step;

verus! {

/// Overall progress of one game.
#[derive(PartialEq, Eq, Structural, Copy, Clone, Debug)]
pub enum GameState {
    Playing,
    Won,
    Lost,
}

/// The three fixed presets a board can be built for.
#[derive(PartialEq, Eq, Structural, Copy, Clone, Debug)]
pub enum Difficulty {
    Easy,
    Medium,
    Hard,
}

/// Either the number of mines among a tile's neighbours, or a mine itself.
#[derive(PartialEq, Eq, Structural, Copy, Clone, Debug)]
pub enum TileMines {
    NoMine(u8),
    Mine,
}

/// The three-state lifecycle of a tile.
#[derive(PartialEq, Eq, Structural, Copy, Clone, Debug)]
pub enum TileState {
    Closed,
    Flagged,
    Open,
}

/// A zero-based board position; `x` grows rightward, `y` downward.
#[derive(PartialEq, Eq, Structural, Copy, Clone, Debug)]
pub struct Coord {
    pub x: u8,
    pub y: u8,
}

/// One cell of the board.
#[derive(PartialEq, Eq, Structural, Copy, Clone, Debug)]
pub struct Tile {
    pub coord: Coord,
    pub mines: TileMines,
    pub state: TileState,
}

/// `c` lies on a board of the given dimensions.
pub open spec fn coord_in_bounds(dims: Coord, c: Coord) -> bool {
    c.x < dims.x && c.y < dims.y
}

/// `b` is one of the up-to-eight in-bounds tiles of the 3x3 block around
/// `a`, excluding `a` itself.
pub open spec fn is_neighbour(dims: Coord, a: Coord, b: Coord) -> bool {
    &&& coord_in_bounds(dims, b)
    &&& b != a
    &&& -1 <= b.x - a.x <= 1
    &&& -1 <= b.y - a.y <= 1
}

/// The flat index of `c` in the tile vector: row-major, `y` outer.
pub open spec fn index_of(dims: Coord, c: Coord) -> int {
    c.y * dims.x + c.x
}

/// The tile is a flagged neighbour of `c`.
pub open spec fn flagged_nbr_pred(dims: Coord, c: Coord) -> spec_fn(Tile) -> bool {
    |t: Tile| is_neighbour(dims, c, t.coord) && t.state == TileState::Flagged
}

/// The tile is a closed neighbour of `c`.
pub open spec fn closed_nbr_pred(dims: Coord, c: Coord) -> spec_fn(Tile) -> bool {
    |t: Tile| is_neighbour(dims, c, t.coord) && t.state == TileState::Closed
}

/// The tile is open.
pub open spec fn open_pred() -> spec_fn(Tile) -> bool {
    |t: Tile| t.state == TileState::Open
}

/// The tile is not open yet.
pub open spec fn non_open_pred() -> spec_fn(Tile) -> bool {
    |t: Tile| t.state != TileState::Open
}

/// The tile is a mine.
pub open spec fn mine_pred() -> spec_fn(Tile) -> bool {
    |t: Tile| t.mines is Mine
}

/// The tile is a mine lying next to `c`.
pub open spec fn mine_nbr_pred(dims: Coord, c: Coord) -> spec_fn(Tile) -> bool {
    |t: Tile| is_neighbour(dims, c, t.coord) && t.mines is Mine
}

/// The tile belongs to the 3x3 block around `start`.
pub open spec fn block_pred(dims: Coord, start: Coord) -> spec_fn(Tile) -> bool {
    |t: Tile| t.coord == start || is_neighbour(dims, start, t.coord)
}

/// The tile can take a mine: not one already and clear of the block.
pub open spec fn placeable_pred(dims: Coord, start: Coord) -> spec_fn(Tile) -> bool {
    |t: Tile| !(t.mines is Mine) && !(t.coord == start || is_neighbour(dims, start, t.coord))
}

/// The tile is a mine, or lies in the 3x3 block around `start`.
pub open spec fn non_placeable_pred(dims: Coord, start: Coord) -> spec_fn(Tile) -> bool {
    |t: Tile| t.mines is Mine || t.coord == start || is_neighbour(dims, start, t.coord)
}

/// The numeric tag of a mine marking: the neighbour count of a safe tile,
/// and a value no count can take for a mine.
pub open spec fn tag_of(m: TileMines) -> int {
    match m {
        TileMines::NoMine(n) => n as int,
        TileMines::Mine => -1,
    }
}

/// Some tile is open although it is a mine: the game is lost.
pub open spec fn any_open_mine(s: Seq<Tile>) -> bool {
    exists|i: int|
        0 <= i < s.len() && (#[trigger] s[i]).state == TileState::Open && s[i].mines is Mine
}

/// Every tile that is not a mine has been opened: the game is won.
pub open spec fn all_safe_open(s: Seq<Tile>) -> bool {
    forall|i: int|
        0 <= i < s.len() ==> ((#[trigger] s[i]).mines is Mine || s[i].state == TileState::Open)
}

/// The eight positions that can hold a neighbour of `a`, written as the
/// wrapped byte coordinates a stored neighbour would carry. A superset of
/// the true neighbourhood, used only to bound its size.
pub open spec fn nbr_candidates(a: Coord) -> Set<Coord> {
    set![
        Coord { x: (a.x - 1) as u8, y: (a.y - 1) as u8 },
        Coord { x: a.x, y: (a.y - 1) as u8 },
        Coord { x: (a.x + 1) as u8, y: (a.y - 1) as u8 },
        Coord { x: (a.x - 1) as u8, y: a.y },
        Coord { x: (a.x + 1) as u8, y: a.y },
        Coord { x: (a.x - 1) as u8, y: (a.y + 1) as u8 },
        Coord { x: a.x, y: (a.y + 1) as u8 },
        Coord { x: (a.x + 1) as u8, y: (a.y + 1) as u8 },
    ]
}

/// Every neighbour of `a`, on any board, carries one of the eight
/// candidate coordinates, and there are at most eight of those.
pub proof fn lemma_nbr_candidates(a: Coord)
    ensures
        nbr_candidates(a).finite(),
        nbr_candidates(a).len() <= 8,
        forall|dims: Coord, b: Coord| #[trigger]
            is_neighbour(dims, a, b) ==> nbr_candidates(a).contains(b),
{
    assert forall|dims: Coord, b: Coord| #[trigger]
        is_neighbour(dims, a, b) implies nbr_candidates(a).contains(b) by {
        let dx = b.x - a.x;
        let dy = b.y - a.y;
        assert(-1 <= dx <= 1 && -1 <= dy <= 1);
        if dx == -1 {
            assert(b.x == (a.x - 1) as u8);
        } else if dx == 1 {
            assert(b.x == (a.x + 1) as u8);
        }
        if dy == -1 {
            assert(b.y == (a.y - 1) as u8);
        } else if dy == 1 {
            assert(b.y == (a.y + 1) as u8);
        }
    }
}

impl Tile {
    /// A fresh tile: closed, and counted as having no mine around it until
    /// mine placement says otherwise.
    pub fn new(coord: Coord) -> (t: Tile)
        ensures
            t == (Tile { coord, mines: TileMines::NoMine(0), state: TileState::Closed }),
    {
        Tile { coord, mines: TileMines::NoMine(0), state: TileState::Closed }
    }
}

/// Board dimensions of a preset.
pub open spec fn difficulty_dimensions(d: Difficulty) -> Coord {
    match d {
        Difficulty::Easy => Coord { x: 9, y: 9 },
        Difficulty::Medium => Coord { x: 16, y: 16 },
        Difficulty::Hard => Coord { x: 30, y: 16 },
    }
}

/// Number of mines of a preset.
pub open spec fn difficulty_mines(d: Difficulty) -> u8 {
    match d {
        Difficulty::Easy => 10,
        Difficulty::Medium => 40,
        Difficulty::Hard => 100,
    }
}

/// The whole game state: tiles in a dense row-major vector, plus the
/// counters and flags that the rules maintain.
pub struct Minesweeper {
    pub dimensions: Coord,
    pub mines: u8,
    pub state: GameState,
    pub difficulty: Difficulty,
    pub tiles: Vec<Tile>,
    pub first_go: bool,
    pub stopwatch: stopwatch::Stopwatch,
    pub mines_left: i32,
}

/// Tiles with pairwise distinct coordinates and a predicate confined to
/// the neighbourhood of `c` count at most eight.
pub proof fn lemma_nbr_count_le_8(s: Seq<Tile>, dims: Coord, c: Coord, p: spec_fn(Tile) -> bool)
    requires
        forall|i: int, j: int|
            0 <= i < j < s.len() ==> (#[trigger] s[i]).coord != (#[trigger] s[j]).coord,
        forall|t: Tile| #[trigger] p(t) ==> is_neighbour(dims, c, t.coord),
    ensures
        0 <= count_matching(s, p) <= 8,
{
    lemma_nbr_candidates(c);
    lemma_count_le_card(s, p, nbr_candidates(c));
    crate::counting::lemma_count_bounds(s, p);
}

/// Revealing tiles never decreases the number of open tiles: if every
/// tile either keeps its state or becomes open, as `open` guarantees, the
/// count of open tiles can only grow.
pub proof fn lemma_open_count_monotone(pre: Minesweeper, post: Minesweeper)
    requires
        pre.tiles@.len() == post.tiles@.len(),
        forall|j: int|
            0 <= j < pre.tiles@.len() ==> (#[trigger] post.tiles@[j]).state
                == pre.tiles@[j].state || post.tiles@[j].state == TileState::Open,
    ensures
        post.open_count() >= pre.open_count(),
{
    crate::counting::lemma_count_le_pointwise(pre.tiles@, post.tiles@, open_pred(), open_pred());
}

/// Whether `b` is an in-bounds neighbour of `a`. `a` itself must be in
/// bounds, which also keeps the comparisons from overflowing.
fn coords_adjacent(dims: Coord, a: Coord, b: Coord) -> (r: bool)
    requires
        coord_in_bounds(dims, a),
    ensures
        r == is_neighbour(dims, a, b),
{
    b.x < dims.x && b.y < dims.y && !(b.x == a.x && b.y == a.y) && b.x + 1 >= a.x && a.x + 1
        >= b.x && b.y + 1 >= a.y && a.y + 1 >= b.y
}

impl Minesweeper {
    pub open spec fn in_bounds(self, c: Coord) -> bool {
        coord_in_bounds(self.dimensions, c)
    }

    /// Number of flagged tiles among the neighbours of `c`.
    pub open spec fn flagged_nbr_count(self, c: Coord) -> int {
        count_matching(self.tiles@, flagged_nbr_pred(self.dimensions, c))
    }

    /// Number of closed tiles among the neighbours of `c`.
    pub open spec fn closed_nbr_count(self, c: Coord) -> int {
        count_matching(self.tiles@, closed_nbr_pred(self.dimensions, c))
    }

    /// Number of open tiles of the whole board.
    pub open spec fn open_count(self) -> int {
        count_matching(self.tiles@, open_pred())
    }

    /// Number of mines on the board.
    pub open spec fn mine_count(self) -> int {
        count_matching(self.tiles@, mine_pred())
    }

    /// Number of mines among the neighbours of `c`.
    pub open spec fn mine_nbr_count(self, c: Coord) -> int {
        count_matching(self.tiles@, mine_nbr_pred(self.dimensions, c))
    }

    /// Every safe tile's tag counts exactly the mines around it.
    pub open spec fn tags_consistent(self) -> bool {
        forall|i: int|
            0 <= i < self.tiles@.len() ==> ((#[trigger] self.tiles@[i]).mines matches
            TileMines::NoMine(n) ==> n as int == self.mine_nbr_count(self.tiles@[i].coord))
    }

    /// Distinct positions of a well-formed board hold distinct
    /// coordinates.
    pub proof fn lemma_wf_distinct_coords(self)
        requires
            self.wf(),
        ensures
            forall|i: int, j: int|
                0 <= i < j < self.tiles@.len() ==> (#[trigger] self.tiles@[i]).coord != (
                #[trigger] self.tiles@[j]).coord,
    {
    }

    /// The tile addressed by `c`.
    pub open spec fn tile_at(self, c: Coord) -> Tile {
        self.tiles@[index_of(self.dimensions, c)]
    }

    /// Well-formedness: positive dimensions, one tile per cell, and every
    /// tile stored at the index its own coordinate addresses.
    pub open spec fn wf(self) -> bool {
        &&& 0 < self.dimensions.x
        &&& 0 < self.dimensions.y
        &&& self.tiles@.len() == self.dimensions.x as int * self.dimensions.y as int
        &&& forall|i: int|
            0 <= i < self.tiles@.len() ==> {
                let t = #[trigger] self.tiles@[i];
                coord_in_bounds(self.dimensions, t.coord) && i == index_of(self.dimensions, t.coord)
            }
        &&& self.first_go ==> forall|i: int|
            0 <= i < self.tiles@.len() ==> (#[trigger] self.tiles@[i]).mines == TileMines::NoMine(
                0,
            )
        &&& self.mines as int + 9 <= self.tiles@.len()
    }

    /// An in-bounds coordinate addresses a real entry of the tile vector,
    /// and finds the tile that carries that very coordinate.
    pub proof fn lemma_tile_at(self, c: Coord)
        requires
            self.wf(),
            self.in_bounds(c),
        ensures
            0 <= index_of(self.dimensions, c) < self.tiles@.len(),
            self.tile_at(c).coord == c,
    {
        let w = self.dimensions.x as int;
        let h = self.dimensions.y as int;
        assert((c.y as int) * w + (c.x as int) < h * w) by (nonlinear_arith)
            requires
                c.x < w,
                c.y < h,
                0 < w,
        ;
        let t = self.tiles@[index_of(self.dimensions, c)];
        assert(t.coord.x == c.x && t.coord.y == c.y) by (nonlinear_arith)
            requires
                t.coord.y as int * w + t.coord.x as int == c.y as int * w + c.x as int,
                t.coord.x < w,
                c.x < w,
                0 < w,
                0 <= t.coord.x,
                0 <= c.x,
                0 <= t.coord.y,
                0 <= c.y,
        ;
    }

    pub fn new(difficulty: Difficulty) -> (game: Minesweeper)
        ensures
            game.wf(),
            game.dimensions == difficulty_dimensions(difficulty),
            game.mines == difficulty_mines(difficulty),
            game.state == GameState::Playing,
            game.difficulty == difficulty,
            game.first_go,
            game.mines_left == difficulty_mines(difficulty) as i32,
            forall|i: int|
                0 <= i < game.tiles@.len() ==> (#[trigger] game.tiles@[i]).state
                    == TileState::Closed && game.tiles@[i].mines == TileMines::NoMine(0),
    {
        let (dimensions, mines): (Coord, u8) = match difficulty {
            Difficulty::Easy => (Coord { x: 9, y: 9 }, 10),
            Difficulty::Medium => (Coord { x: 16, y: 16 }, 40),
            Difficulty::Hard => (Coord { x: 30, y: 16 }, 100),
        };

        let mut tiles: Vec<Tile> = Vec::new();
        let mut y: u8 = 0;
        while y < dimensions.y
            invariant
                y <= dimensions.y,
                0 < dimensions.x,
                tiles@.len() == y as int * dimensions.x as int,
                forall|i: int|
                    0 <= i < tiles@.len() ==> {
                        let t = #[trigger] tiles@[i];
                        &&& coord_in_bounds(dimensions, t.coord)
                        &&& i == index_of(dimensions, t.coord)
                        &&& t.state == TileState::Closed
                        &&& t.mines == TileMines::NoMine(0)
                    },
            decreases dimensions.y - y,
        {
            let mut x: u8 = 0;
            while x < dimensions.x
                invariant
                    x <= dimensions.x,
                    y < dimensions.y,
                    0 < dimensions.x,
                    tiles@.len() == y as int * dimensions.x as int + x as int,
                    forall|i: int|
                        0 <= i < tiles@.len() ==> {
                            let t = #[trigger] tiles@[i];
                            &&& coord_in_bounds(dimensions, t.coord)
                            &&& i == index_of(dimensions, t.coord)
                            &&& t.state == TileState::Closed
                            &&& t.mines == TileMines::NoMine(0)
                        },
                decreases dimensions.x - x,
            {
                tiles.push(Tile::new(Coord { x, y }));
                x = x + 1;
            }
            proof {
                assert((y + 1) as int * dimensions.x as int == y as int * dimensions.x as int
                    + dimensions.x as int) by (nonlinear_arith);
            }
            y = y + 1;
        }

        proof {
            assert(dimensions.y as int * dimensions.x as int == dimensions.x as int
                * dimensions.y as int) by (nonlinear_arith);
        }
        Minesweeper {
            dimensions,
            mines,
            state: GameState::Playing,
            difficulty,
            tiles,
            first_go: true,
            stopwatch: stopwatch::Stopwatch::new(),
            mines_left: mines as i32,
        }
    }

    /// A shared view of the tile at an in-bounds coordinate.
    pub fn get_tile(&self, coord: Coord) -> (t: &Tile)
        requires
            self.wf(),
            self.in_bounds(coord),
        ensures
            *t == self.tile_at(coord),
    {
        let n = self.tiles.len();
        proof {
            self.lemma_tile_at(coord);
            assert((coord.y as int) * (self.dimensions.x as int) + (coord.x as int) < n as int);
        }
        &self.tiles[coord.y as usize * self.dimensions.x as usize + coord.x as usize]
    }

    /// A mutable view of the tile at an in-bounds coordinate. Whatever the
    /// caller writes through it becomes the tile at that index; every
    /// other part of the board is untouched.
    pub fn get_tile_mut(&mut self, coord: Coord) -> (t: &mut Tile)
        requires
            old(self).wf(),
            old(self).in_bounds(coord),
        ensures
            *t == old(self).tile_at(coord),
            final(self).tiles@ == old(self).tiles@.update(
                index_of(old(self).dimensions, coord),
                *final(t),
            ),
            final(self).dimensions == old(self).dimensions,
            final(self).state == old(self).state,
            final(self).difficulty == old(self).difficulty,
            final(self).mines_left == old(self).mines_left,
            final(self).mines == old(self).mines,
            final(self).first_go == old(self).first_go,
            final(self).stopwatch == old(self).stopwatch,
    {
        let n = self.tiles.len();
        proof {
            self.lemma_tile_at(coord);
            assert((coord.y as int) * (self.dimensions.x as int) + (coord.x as int) < n as int);
        }
        &mut self.tiles[coord.y as usize * self.dimensions.x as usize + coord.x as usize]
    }

    /// The in-bounds coordinates of the 3x3 block around `coord`, without
    /// `coord` itself: every neighbour exactly once, row by row.
    pub fn iter_neighbours(&self, coord: Coord) -> (nbrs: Vec<Coord>)
        requires
            self.wf(),
            self.in_bounds(coord),
        ensures
            forall|i: int|
                0 <= i < nbrs@.len() ==> is_neighbour(self.dimensions, coord, #[trigger] nbrs@[i]),
            forall|b: Coord| is_neighbour(self.dimensions, coord, b) ==> nbrs@.contains(b),
            forall|i: int, j: int| 0 <= i < j < nbrs@.len() ==> nbrs@[i] != nbrs@[j],
            forall|i: int, j: int|
                0 <= i < j < nbrs@.len() ==> (#[trigger] nbrs@[i]).y < (#[trigger] nbrs@[j]).y
                    || (nbrs@[i].y == nbrs@[j].y && nbrs@[i].x < nbrs@[j].x),
    {
        let x0: u8 = if coord.x == 0 {
            0
        } else {
            coord.x - 1
        };
        let x1: u8 = if coord.x >= self.dimensions.x - 1 {
            self.dimensions.x - 1
        } else {
            coord.x + 1
        };
        let y0: u8 = if coord.y == 0 {
            0
        } else {
            coord.y - 1
        };
        let y1: u8 = if coord.y >= self.dimensions.y - 1 {
            self.dimensions.y - 1
        } else {
            coord.y + 1
        };
        let mut nbrs: Vec<Coord> = Vec::new();
        let mut y: u8 = y0;
        while y <= y1
            invariant
                self.wf(),
                self.in_bounds(coord),
                y0 <= y <= y1 + 1,
                x0 as int == if coord.x == 0 { 0int } else { coord.x - 1 },
                x1 as int == if coord.x + 1 < self.dimensions.x { coord.x + 1 } else { self.dimensions.x - 1 },
                y0 as int == if coord.y == 0 { 0int } else { coord.y - 1 },
                y1 as int == if coord.y + 1 < self.dimensions.y { coord.y + 1 } else { self.dimensions.y - 1 },
                forall|i: int|
                    0 <= i < nbrs@.len() ==> is_neighbour(self.dimensions, coord, #[trigger] nbrs@[i]),
                forall|b: Coord|
                    is_neighbour(self.dimensions, coord, b) && b.y < y ==> nbrs@.contains(b),
                forall|i: int| 0 <= i < nbrs@.len() ==> (#[trigger] nbrs@[i]).y < y,
                forall|i: int, j: int| 0 <= i < j < nbrs@.len() ==> nbrs@[i] != nbrs@[j],
                forall|i: int, j: int|
                    0 <= i < j < nbrs@.len() ==> (#[trigger] nbrs@[i]).y < (
                    #[trigger] nbrs@[j]).y || (nbrs@[i].y == nbrs@[j].y && nbrs@[i].x
                        < nbrs@[j].x),
            decreases y1 + 1 - y,
        {
            let mut x: u8 = x0;
            while x <= x1
                invariant
                    self.wf(),
                    self.in_bounds(coord),
                    y0 <= y <= y1,
                    x0 <= x <= x1 + 1,
                    x0 as int == if coord.x == 0 { 0int } else { coord.x - 1 },
                    x1 as int == if coord.x + 1 < self.dimensions.x { coord.x + 1 } else { self.dimensions.x - 1 },
                    y0 as int == if coord.y == 0 { 0int } else { coord.y - 1 },
                    y1 as int == if coord.y + 1 < self.dimensions.y { coord.y + 1 } else { self.dimensions.y - 1 },
                    forall|i: int|
                        0 <= i < nbrs@.len() ==> is_neighbour(
                            self.dimensions,
                            coord,
                            #[trigger] nbrs@[i],
                        ),
                    forall|b: Coord|
                        is_neighbour(self.dimensions, coord, b) && (b.y < y || (b.y == y && b.x
                            < x)) ==> nbrs@.contains(b),
                    forall|i: int|
                        0 <= i < nbrs@.len() ==> (#[trigger] nbrs@[i]).y < y || (nbrs@[i].y == y
                            && nbrs@[i].x < x),
                    forall|i: int, j: int| 0 <= i < j < nbrs@.len() ==> nbrs@[i] != nbrs@[j],
                    forall|i: int, j: int|
                        0 <= i < j < nbrs@.len() ==> (#[trigger] nbrs@[i]).y < (
                        #[trigger] nbrs@[j]).y || (nbrs@[i].y == nbrs@[j].y && nbrs@[i].x
                            < nbrs@[j].x),
                decreases x1 + 1 - x,
            {
                if !(x == coord.x && y == coord.y) {
                    let ghost prev = nbrs@;
                    nbrs.push(Coord { x, y });
                    proof {
                        let pushed = Coord { x, y };
                        assert(nbrs@[nbrs@.len() - 1] == pushed);
                        assert forall|b: Coord|
                            is_neighbour(self.dimensions, coord, b) && (b.y < y || (b.y == y
                                && b.x <= x)) implies nbrs@.contains(b) by {
                            if b.y == y && b.x == x {
                                assert(nbrs@[nbrs@.len() - 1] == b);
                            } else {
                                assert(prev.contains(b));
                                let k = choose|k: int| 0 <= k < prev.len() && prev[k] == b;
                                assert(nbrs@[k] == b);
                            }
                        }
                    }
                } else {
                    proof {
                        assert forall|b: Coord|
                            is_neighbour(self.dimensions, coord, b) && (b.y < y || (b.y == y
                                && b.x <= x)) implies nbrs@.contains(b) by {
                            if b.y == y && b.x == x {
                                assert(b == coord);
                            }
                        }
                    }
                }
                x = x + 1;
            }
            y = y + 1;
        }
        nbrs
    }

    /// Mine counts and tag consistency depend only on the mine markings
    /// and coordinates, which both boards share.
    pub proof fn lemma_tags_preserved(self, other: Minesweeper)
        requires
            other.dimensions == self.dimensions,
            other.tiles@.len() == self.tiles@.len(),
            forall|i: int|
                0 <= i < self.tiles@.len() ==> (#[trigger] other.tiles@[i]).mines
                    == self.tiles@[i].mines && other.tiles@[i].coord == self.tiles@[i].coord,
        ensures
            other.mine_count() == self.mine_count(),
            forall|c: Coord| #[trigger] other.mine_nbr_count(c) == self.mine_nbr_count(c),
            other.tags_consistent() <==> self.tags_consistent(),
    {
        crate::counting::lemma_count_eq_pointwise(self.tiles@, other.tiles@, mine_pred());
        assert forall|c: Coord| #[trigger]
            other.mine_nbr_count(c) == self.mine_nbr_count(c) by {
            crate::counting::lemma_count_eq_pointwise(
                self.tiles@,
                other.tiles@,
                mine_nbr_pred(self.dimensions, c),
            );
        }
        if self.tags_consistent() {
            assert forall|i: int|
                0 <= i < other.tiles@.len() implies ((#[trigger] other.tiles@[i]).mines matches
            TileMines::NoMine(n) ==> n as int == other.mine_nbr_count(other.tiles@[i].coord)) by {
                assert(other.tiles@[i].mines == self.tiles@[i].mines);
                assert(other.mine_nbr_count(other.tiles@[i].coord) == self.mine_nbr_count(
                    self.tiles@[i].coord,
                ));
            }
        }
        if other.tags_consistent() {
            assert forall|i: int|
                0 <= i < self.tiles@.len() implies ((#[trigger] self.tiles@[i]).mines matches
            TileMines::NoMine(n) ==> n as int == self.mine_nbr_count(self.tiles@[i].coord)) by {
                assert(self.tiles@[i].mines == other.tiles@[i].mines);
                assert(other.mine_nbr_count(other.tiles@[i].coord) == self.mine_nbr_count(
                    self.tiles@[i].coord,
                ));
            }
        }
    }

    /// With consistent tags and a mine-free 3x3 block around it, the
    /// first-opened tile carries a zero count.
    pub proof fn lemma_safe_block_tag_zero(self, start: Coord)
        requires
            self.wf(),
            self.in_bounds(start),
            self.tags_consistent(),
            forall|b: Coord|
                self.in_bounds(b) && (b == start || is_neighbour(self.dimensions, start, b))
                    ==> !((#[trigger] self.tile_at(b)).mines is Mine),
        ensures
            self.tile_at(start).mines == TileMines::NoMine(0),
    {
        self.lemma_tile_at(start);
        assert forall|i: int|
            0 <= i < self.tiles@.len() implies !(mine_nbr_pred(self.dimensions, start)(
            #[trigger] self.tiles@[i])) by {
            if is_neighbour(self.dimensions, start, self.tiles@[i].coord) {
                self.lemma_tile_at(self.tiles@[i].coord);
                assert(self.tile_at(self.tiles@[i].coord) == self.tiles@[i]);
            }
        }
        crate::counting::lemma_count_zero(self.tiles@, mine_nbr_pred(self.dimensions, start));
        assert(self.tiles@[index_of(self.dimensions, start)].mines matches TileMines::NoMine(n)
            ==> n as int == self.mine_nbr_count(start));
    }

    /// True of a coordinate where mine placement may put a mine: on the
    /// board, not a mine already, and clear of the 3x3 block around the
    /// first-opened tile.
    pub open spec fn placeable(self, start_coord: Coord, c: Coord) -> bool {
        &&& self.in_bounds(c)
        &&& !(self.tile_at(c).mines is Mine)
        &&& !(c == start_coord || is_neighbour(self.dimensions, start_coord, c))
    }

    /// Mark `c` as a mine and raise the neighbour count of every adjacent
    /// safe tile; with consistent tags no count can reach the cap of
    /// eight, so none is ever truncated.
    #[verifier::rlimit(100)]
    #[verifier::spinoff_prover]
    fn place_mine(&mut self, c: Coord)
        requires
            old(self).wf(),
            old(self).in_bounds(c),
            !old(self).first_go,
            old(self).tags_consistent(),
            !(old(self).tile_at(c).mines is Mine),
        ensures
            final(self).wf(),
            !final(self).first_go,
            final(self).dimensions == old(self).dimensions,
            final(self).state == old(self).state,
            final(self).difficulty == old(self).difficulty,
            final(self).mines == old(self).mines,
            final(self).mines_left == old(self).mines_left,
            final(self).stopwatch == old(self).stopwatch,
            final(self).tiles@.len() == old(self).tiles@.len(),
            forall|i: int|
                0 <= i < old(self).tiles@.len() ==> (#[trigger] final(self).tiles@[i]).coord
                    == old(self).tiles@[i].coord && final(self).tiles@[i].state == old(self).tiles@[i].state,
            forall|i: int|
                0 <= i < old(self).tiles@.len() ==> ((#[trigger] final(self).tiles@[i]).mines
                    is Mine <==> (old(self).tiles@[i].mines is Mine || i == index_of(
                    old(self).dimensions,
                    c,
                ))),
            final(self).tile_at(c).mines is Mine,
            final(self).tags_consistent(),
            final(self).mine_count() == old(self).mine_count() + 1,
    {
        let ghost o = *self;
        proof {
            self.lemma_tile_at(c);
            o.lemma_wf_distinct_coords();
        }
        let ghost idxc = index_of(o.dimensions, c);
        self.get_tile_mut(c).mines = TileMines::Mine;
        let ghost base = *self;
        proof {
            crate::counting::lemma_count_update(o.tiles@, mine_pred(), idxc, base.tiles@[idxc]);
        }
        let n = self.tiles.len();
        let mut i: usize = 0;
        while i < n
            invariant
                self.wf(),
                !self.first_go,
                o.wf(),
                o == *old(self),
                o.in_bounds(c),
                o.tags_consistent(),
                !(o.tile_at(c).mines is Mine),
                idxc == index_of(o.dimensions, c),
                0 <= idxc < o.tiles@.len(),
                base.wf(),
                base.in_bounds(c),
                base.tiles@ == o.tiles@.update(idxc, base.tiles@[idxc]),
                base.tiles@[idxc].mines == TileMines::Mine,
                base.tiles@[idxc].coord == c,
                base.tiles@[idxc].state == o.tiles@[idxc].state,
                n == self.tiles@.len(),
                i <= n,
                self.dimensions == base.dimensions,
                self.state == base.state,
                self.difficulty == base.difficulty,
                self.mines == base.mines,
                self.first_go == base.first_go,
                self.mines_left == base.mines_left,
                self.stopwatch == base.stopwatch,
                self.tiles@.len() == base.tiles@.len(),
                forall|j: int|
                    0 <= j < base.tiles@.len() ==> (#[trigger] self.tiles@[j]).coord
                        == base.tiles@[j].coord && self.tiles@[j].state == base.tiles@[j].state,
                forall|j: int|
                    0 <= j < base.tiles@.len() ==> ((#[trigger] self.tiles@[j]).mines is Mine
                        <==> base.tiles@[j].mines is Mine),
                forall|j: int|
                    0 <= j < base.tiles@.len() ==> tag_of((#[trigger] self.tiles@[j]).mines)
                        == tag_of(base.tiles@[j].mines) + (if j < i && is_neighbour(
                        o.dimensions,
                        c,
                        base.tiles@[j].coord,
                    ) && !(base.tiles@[j].mines is Mine) {
                        1int
                    } else {
                        0int
                    }),
            decreases n - i,
        {
            let t = self.tiles[i];
            if coords_adjacent(self.dimensions, c, t.coord) {
                if let TileMines::NoMine(k) = t.mines {
                    proof {
                        // the tile sits where it did originally, so its tag
                        // counts the mines around it, which number at most
                        // seven: `c` is an adjacent non-mine cell
                        assert(i as int != idxc);
                        assert(tag_of(o.tiles@[i as int].mines) == k as int);
                        assert(is_neighbour(o.dimensions, t.coord, c));
                        lemma_nbr_candidates(t.coord);
                        let cs = nbr_candidates(t.coord).remove(c);
                        assert forall|a: int, b: int|
                            0 <= a < b < o.tiles@.len() implies (#[trigger] o.tiles@[a]).coord
                            != (#[trigger] o.tiles@[b]).coord by {}
                        assert forall|a: int|
                            0 <= a < o.tiles@.len() && mine_nbr_pred(o.dimensions, t.coord)(
                            #[trigger] o.tiles@[a]) implies cs.contains(o.tiles@[a].coord) by {
                            assert(nbr_candidates(t.coord).contains(o.tiles@[a].coord));
                            if o.tiles@[a].coord == c {
                                assert(a == index_of(o.dimensions, o.tiles@[a].coord));
                                assert(o.tiles@[a].mines == o.tile_at(c).mines);
                            }
                        }
                        lemma_count_le_card(
                            o.tiles@,
                            mine_nbr_pred(o.dimensions, t.coord),
                            cs,
                        );
                        assert(nbr_candidates(t.coord).contains(c));
                        assert(cs.len() <= 7);
                        assert(k < 8);
                    }
                    if k < 8 {
                        proof {
                            self.lemma_tile_at(t.coord);
                        }
                        self.get_tile_mut(t.coord).mines = TileMines::NoMine(k + 1);
                    }
                }
            }
            i = i + 1;
        }
        proof {
            self.lemma_tile_at(c);
            crate::counting::lemma_count_eq_pointwise(base.tiles@, self.tiles@, mine_pred());
            assert(self.mine_count() == o.mine_count() + 1);
            assert forall|j: int|
                0 <= j < self.tiles@.len() implies ((#[trigger] self.tiles@[j]).mines matches
            TileMines::NoMine(n) ==> n as int == self.mine_nbr_count(self.tiles@[j].coord)) by {
                let b = self.tiles@[j].coord;
                crate::counting::lemma_count_eq_pointwise(
                    base.tiles@,
                    self.tiles@,
                    mine_nbr_pred(o.dimensions, b),
                );
                crate::counting::lemma_count_update(
                    o.tiles@,
                    mine_nbr_pred(o.dimensions, b),
                    idxc,
                    base.tiles@[idxc],
                );
                if self.tiles@[j].mines matches TileMines::NoMine(n) {
                    assert(j != idxc);
                    assert(o.tiles@[j].mines matches TileMines::NoMine(m)
                        ==> m as int == o.mine_nbr_count(b));
                    assert(is_neighbour(o.dimensions, c, b) <==> is_neighbour(
                        o.dimensions,
                        b,
                        c,
                    ));
                }
            }
        }
    }

    /// Place the board's mines, sparing the 3x3 block around the first
    /// opened tile. Coordinates are sampled at random; if sampling keeps
    /// failing, the first acceptable cell in row order is taken, and a
    /// board that can hold its mines always receives exactly that many.
    #[verifier::rlimit(100)]
    #[verifier::spinoff_prover]
    fn gen_map(&mut self, start_coord: Coord)
        requires
            old(self).wf(),
            old(self).in_bounds(start_coord),
            !old(self).first_go,
            forall|i: int|
                0 <= i < old(self).tiles@.len() ==> (#[trigger] old(self).tiles@[i]).mines
                    == TileMines::NoMine(0),
        ensures
            final(self).wf(),
            !final(self).first_go,
            final(self).dimensions == old(self).dimensions,
            final(self).state == old(self).state,
            final(self).difficulty == old(self).difficulty,
            final(self).mines == old(self).mines,
            final(self).mines_left == old(self).mines_left,
            final(self).stopwatch == old(self).stopwatch,
            final(self).tiles@.len() == old(self).tiles@.len(),
            forall|i: int|
                0 <= i < old(self).tiles@.len() ==> (#[trigger] final(self).tiles@[i]).coord
                    == old(self).tiles@[i].coord && final(self).tiles@[i].state == old(self).tiles@[i].state,
            forall|b: Coord|
                final(self).in_bounds(b) && (b == start_coord || is_neighbour(
                    final(self).dimensions,
                    start_coord,
                    b,
                )) ==> !((#[trigger] final(self).tile_at(b)).mines is Mine),
            final(self).mine_count() == old(self).mines as int,
            final(self).tags_consistent(),
    {
        let ghost orig = *self;
        proof {
            assert forall|b: Coord|
                self.in_bounds(b) && (b == start_coord || is_neighbour(
                    self.dimensions,
                    start_coord,
                    b,
                )) implies !((#[trigger] self.tile_at(b)).mines is Mine) by {
                self.lemma_tile_at(b);
            }
            assert forall|i: int|
                0 <= i < self.tiles@.len() implies !(mine_pred()(#[trigger] self.tiles@[i])) by {}
            crate::counting::lemma_count_zero(self.tiles@, mine_pred());
            assert forall|i: int|
                0 <= i < self.tiles@.len() implies ((#[trigger] self.tiles@[i]).mines matches
            TileMines::NoMine(n) ==> n as int == self.mine_nbr_count(self.tiles@[i].coord)) by {
                crate::counting::lemma_count_le_pointwise(
                    self.tiles@,
                    self.tiles@,
                    mine_nbr_pred(self.dimensions, self.tiles@[i].coord),
                    mine_pred(),
                );
                crate::counting::lemma_count_bounds(
                    self.tiles@,
                    mine_nbr_pred(self.dimensions, self.tiles@[i].coord),
                );
            }
        }
        let mines = self.mines;
        let mut placed: u8 = 0;
        while placed < mines
            invariant
                self.wf(),
                !self.first_go,
                orig.wf(),
                orig.in_bounds(start_coord),
                mines == orig.mines,
                placed <= mines,
                self.dimensions == orig.dimensions,
                self.state == orig.state,
                self.difficulty == orig.difficulty,
                self.mines == orig.mines,
                self.mines_left == orig.mines_left,
                self.stopwatch == orig.stopwatch,
                self.tiles@.len() == orig.tiles@.len(),
                forall|i: int|
                    0 <= i < orig.tiles@.len() ==> (#[trigger] self.tiles@[i]).coord
                        == orig.tiles@[i].coord && self.tiles@[i].state == orig.tiles@[i].state,
                forall|b: Coord|
                    self.in_bounds(b) && (b == start_coord || is_neighbour(
                        self.dimensions,
                        start_coord,
                        b,
                    )) ==> !((#[trigger] self.tile_at(b)).mines is Mine),
                self.mine_count() == placed as int,
                self.tags_consistent(),
            decreases mines - placed,
        {
            let mut chosen: Option<Coord> = None;
            let mut attempts: u16 = 0;
            while attempts < 10000 && chosen.is_none()
                invariant
                    self.wf(),
                    self.in_bounds(start_coord),
                    attempts <= 10000,
                    chosen matches Some(c) ==> self.placeable(start_coord, c),
                decreases 10000 - attempts,
            {
                let cx = crate::rng::random_upto(self.dimensions.x - 1);
                let cy = crate::rng::random_upto(self.dimensions.y - 1);
                let cand = Coord { x: cx, y: cy };
                let near = cand.x + 1 >= start_coord.x && start_coord.x + 1 >= cand.x && cand.y
                    + 1 >= start_coord.y && start_coord.y + 1 >= cand.y;
                if !near && !(self.get_tile(cand).mines == TileMines::Mine) {
                    chosen = Some(cand);
                }
                attempts = attempts + 1;
            }
            if chosen.is_none() {
                let n = self.tiles.len();
                let mut i: usize = 0;
                while i < n && chosen.is_none()
                    invariant
                        self.wf(),
                        self.in_bounds(start_coord),
                        n == self.tiles@.len(),
                        i <= n,
                        chosen matches Some(c) ==> self.placeable(start_coord, c),
                        chosen is None ==> forall|j: int|
                            0 <= j < i ==> !(placeable_pred(self.dimensions, start_coord)(
                            #[trigger] self.tiles@[j])),
                    decreases n - i,
                {
                    let t = self.tiles[i];
                    let near = t.coord.x + 1 >= start_coord.x && start_coord.x + 1 >= t.coord.x
                        && t.coord.y + 1 >= start_coord.y && start_coord.y + 1 >= t.coord.y;
                    if !near && !(t.mines == TileMines::Mine) {
                        proof {
                            self.lemma_tile_at(t.coord);
                        }
                        chosen = Some(t.coord);
                    }
                    i = i + 1;
                }
            }
            proof {
                if chosen is None {
                    let dims = self.dimensions;
                    let s = self.tiles@;
                    crate::counting::lemma_count_or_le(
                        s,
                        mine_pred(),
                        block_pred(dims, start_coord),
                        non_placeable_pred(dims, start_coord),
                    );
                    lemma_nbr_candidates(start_coord);
                    let cs = nbr_candidates(start_coord).insert(start_coord);
                    self.lemma_wf_distinct_coords();
                    assert forall|t: Tile| #[trigger]
                        block_pred(dims, start_coord)(t) implies cs.contains(t.coord) by {
                        if t.coord != start_coord {
                            assert(nbr_candidates(start_coord).contains(t.coord));
                        }
                    }
                    lemma_count_le_card(s, block_pred(dims, start_coord), cs);
                    assert(cs.len() <= 9);
                    crate::counting::lemma_count_complement(
                        s,
                        non_placeable_pred(dims, start_coord),
                        placeable_pred(dims, start_coord),
                    );
                    assert(count_matching(s, placeable_pred(dims, start_coord)) > 0);
                    crate::counting::lemma_count_pos_exists(
                        s,
                        placeable_pred(dims, start_coord),
                    );
                }
                assert(chosen is Some);
            }
            if let Some(c) = chosen {
                let ghost prev = *self;
                self.place_mine(c);
                proof {
                    assert forall|b: Coord|
                        self.in_bounds(b) && (b == start_coord || is_neighbour(
                            self.dimensions,
                            start_coord,
                            b,
                        )) implies !((#[trigger] self.tile_at(b)).mines is Mine) by {
                        prev.lemma_tile_at(b);
                        prev.lemma_tile_at(c);
                        assert(self.tiles@[index_of(prev.dimensions, b)].coord == b);
                        assert(self.tiles@[index_of(prev.dimensions, c)].coord == c);
                    }
                }
            }
            placed = placed + 1;
        }
    }

    /// How many of the neighbours of `coord` are currently flagged. Reads
    /// the board without changing it.
    pub fn count_flagged_neighbours(&mut self, coord: Coord) -> (count: u8)
        requires
            old(self).wf(),
            old(self).in_bounds(coord),
        ensures
            *final(self) == *old(self),
            count == old(self).flagged_nbr_count(coord),
    {
        let ghost p = flagged_nbr_pred(self.dimensions, coord);
        let n = self.tiles.len();
        let mut count: u8 = 0;
        let mut i: usize = 0;
        while i < n
            invariant
                *self == *old(self),
                self.wf(),
                self.in_bounds(coord),
                n == self.tiles@.len(),
                i <= n,
                p == flagged_nbr_pred(self.dimensions, coord),
                count as int == count_matching(self.tiles@.take(i as int), p),
                count <= 8,
            decreases n - i,
        {
            let t = self.tiles[i];
            proof {
                lemma_count_take_step(self.tiles@, p, i as int);
                self.lemma_wf_distinct_coords();
                let s = self.tiles@.take(i as int + 1);
                assert forall|a: int, b: int|
                    0 <= a < b < s.len() implies (#[trigger] s[a]).coord != (
                #[trigger] s[b]).coord by {
                    assert(s[a] == self.tiles@[a]);
                    assert(s[b] == self.tiles@[b]);
                }
                lemma_nbr_count_le_8(s, self.dimensions, coord, p);
            }
            if coords_adjacent(self.dimensions, coord, t.coord) && t.state == TileState::Flagged {
                count = count + 1;
            }
            i = i + 1;
        }
        proof {
            lemma_count_take_full(self.tiles@, p);
        }
        count
    }

    /// How many of the neighbours of `coord` are currently closed.
    fn count_closed_neighbours(&self, coord: Coord) -> (count: u8)
        requires
            self.wf(),
            self.in_bounds(coord),
        ensures
            count == self.closed_nbr_count(coord),
    {
        let ghost p = closed_nbr_pred(self.dimensions, coord);
        let n = self.tiles.len();
        let mut count: u8 = 0;
        let mut i: usize = 0;
        while i < n
            invariant
                self.wf(),
                self.in_bounds(coord),
                n == self.tiles@.len(),
                i <= n,
                p == closed_nbr_pred(self.dimensions, coord),
                count as int == count_matching(self.tiles@.take(i as int), p),
                count <= 8,
            decreases n - i,
        {
            let t = self.tiles[i];
            proof {
                lemma_count_take_step(self.tiles@, p, i as int);
                self.lemma_wf_distinct_coords();
                let s = self.tiles@.take(i as int + 1);
                assert forall|a: int, b: int|
                    0 <= a < b < s.len() implies (#[trigger] s[a]).coord != (
                #[trigger] s[b]).coord by {
                    assert(s[a] == self.tiles@[a]);
                    assert(s[b] == self.tiles@[b]);
                }
                lemma_nbr_count_le_8(s, self.dimensions, coord, p);
            }
            if coords_adjacent(self.dimensions, coord, t.coord) && t.state == TileState::Closed {
                count = count + 1;
            }
            i = i + 1;
        }
        proof {
            lemma_count_take_full(self.tiles@, p);
        }
        count
    }

    /// Toggle the flag of a closed or flagged tile, adjusting the
    /// remaining-mine counter by one; on an open numbered tile, flag every
    /// closed neighbour, or unflag every flagged neighbour when no closed
    /// one is left.
    pub fn flag(&mut self, coord: Coord)
        requires
            old(self).wf(),
            old(self).in_bounds(coord),
            i32::MIN + 8 <= old(self).mines_left <= i32::MAX - 8,
        ensures
            final(self).wf(),
            final(self).dimensions == old(self).dimensions,
            final(self).state == old(self).state,
            final(self).difficulty == old(self).difficulty,
            final(self).mines == old(self).mines,
            final(self).first_go == old(self).first_go,
            final(self).stopwatch == old(self).stopwatch,
            final(self).tiles@.len() == old(self).tiles@.len(),
            forall|i: int|
                0 <= i < old(self).tiles@.len() ==> (#[trigger] final(self).tiles@[i]).mines
                    == old(self).tiles@[i].mines && final(self).tiles@[i].coord == old(self).tiles@[i].coord,
            forall|i: int|
                0 <= i < old(self).tiles@.len() && old(self).tiles@[i].state == TileState::Open
                    ==> (#[trigger] final(self).tiles@[i]).state == TileState::Open,
            old(self).tile_at(coord).state == TileState::Closed ==> final(self).tiles@ == old(self).tiles@.update(
                index_of(old(self).dimensions, coord),
                (Tile { state: TileState::Flagged, ..old(self).tile_at(coord) }),
            ) && final(self).mines_left == old(self).mines_left - 1,
            old(self).tile_at(coord).state == TileState::Flagged ==> final(self).tiles@ == old(self).tiles@.update(
                index_of(old(self).dimensions, coord),
                (Tile { state: TileState::Closed, ..old(self).tile_at(coord) }),
            ) && final(self).mines_left == old(self).mines_left + 1,
            old(self).tile_at(coord).state == TileState::Open && (old(self).tile_at(coord).mines
                is Mine || old(self).tile_at(coord).mines == TileMines::NoMine(0)) ==> *final(self)
                == *old(self),
            old(self).tile_at(coord).state == TileState::Open ==> (old(self).tile_at(
                coord,
            ).mines matches TileMines::NoMine(n) && n > 0 && old(self).closed_nbr_count(coord)
                == 0 ==> final(self).mines_left == old(self).mines_left + old(self).flagged_nbr_count(
                coord,
            ) && (forall|i: int|
                0 <= i < old(self).tiles@.len() ==> (#[trigger] final(self).tiles@[i]).state == (
                if is_neighbour(old(self).dimensions, coord, old(self).tiles@[i].coord) && old(self).tiles@[i].state == TileState::Flagged {
                    TileState::Closed
                } else {
                    old(self).tiles@[i].state
                }))),
            old(self).tile_at(coord).state == TileState::Open ==> (old(self).tile_at(
                coord,
            ).mines matches TileMines::NoMine(n) && n > 0 && old(self).closed_nbr_count(coord)
                > 0 ==> final(self).mines_left == old(self).mines_left - old(self).closed_nbr_count(
                coord,
            ) && (forall|i: int|
                0 <= i < old(self).tiles@.len() ==> (#[trigger] final(self).tiles@[i]).state == (
                if is_neighbour(old(self).dimensions, coord, old(self).tiles@[i].coord) && old(self).tiles@[i].state == TileState::Closed {
                    TileState::Flagged
                } else {
                    old(self).tiles@[i].state
                }))),
    {
        match self.get_tile(coord).state {
            TileState::Closed => {
                proof {
                    self.lemma_tile_at(coord);
                }
                self.get_tile_mut(coord).state = TileState::Flagged;
                self.mines_left = self.mines_left - 1;
            },
            TileState::Flagged => {
                proof {
                    self.lemma_tile_at(coord);
                }
                self.get_tile_mut(coord).state = TileState::Closed;
                self.mines_left = self.mines_left + 1;
            },
            TileState::Open => {
                if let TileMines::NoMine(n) = self.get_tile(coord).mines {
                    if n == 0 {
                        return ;
                    }
                    let closed_count = self.count_closed_neighbours(coord);
                    let n_tiles = self.tiles.len();
                    let mut i: usize = 0;
                    if closed_count == 0 {
                        let ghost p = flagged_nbr_pred(self.dimensions, coord);
                        while i < n_tiles
                            invariant
                                self.wf(),
                                self.in_bounds(coord),
                                old(self).wf(),
                                old(self).in_bounds(coord),
                                n_tiles == self.tiles@.len(),
                                i <= n_tiles,
                                p == flagged_nbr_pred(old(self).dimensions, coord),
                                self.dimensions == old(self).dimensions,
                                self.state == old(self).state,
                                self.difficulty == old(self).difficulty,
                                self.mines == old(self).mines,
                                self.first_go == old(self).first_go,
                                self.stopwatch == old(self).stopwatch,
                                self.tiles@.len() == old(self).tiles@.len(),
                                forall|j: int|
                                    0 <= j < old(self).tiles@.len() ==> (
                                    #[trigger] self.tiles@[j]).mines == old(self).tiles@[j].mines
                                        && self.tiles@[j].coord == old(self).tiles@[j].coord,
                                forall|j: int|
                                    0 <= j < old(self).tiles@.len() ==> (
                                    #[trigger] self.tiles@[j]).state == (if j < i
                                        && is_neighbour(
                                        old(self).dimensions,
                                        coord,
                                        old(self).tiles@[j].coord,
                                    ) && old(self).tiles@[j].state == TileState::Flagged {
                                        TileState::Closed
                                    } else {
                                        old(self).tiles@[j].state
                                    }),
                                self.mines_left == old(self).mines_left + count_matching(
                                    old(self).tiles@.take(i as int),
                                    p,
                                ),
                                i32::MIN + 8 <= old(self).mines_left <= i32::MAX - 8,
                            decreases n_tiles - i,
                        {
                            let t = self.tiles[i];
                            proof {
                                lemma_count_take_step(old(self).tiles@, p, i as int);
                                old(self).lemma_wf_distinct_coords();
                                let s = old(self).tiles@.take(i as int + 1);
                                assert forall|a: int, b: int|
                                    0 <= a < b < s.len() implies (#[trigger] s[a]).coord != (
                                #[trigger] s[b]).coord by {
                                    assert(s[a] == old(self).tiles@[a]);
                                    assert(s[b] == old(self).tiles@[b]);
                                }
                                lemma_nbr_count_le_8(s, old(self).dimensions, coord, p);
                                crate::counting::lemma_count_bounds(
                                    old(self).tiles@.take(i as int),
                                    p,
                                );
                            }
                            if coords_adjacent(self.dimensions, coord, t.coord) && t.state
                                == TileState::Flagged {
                                proof {
                                    self.lemma_tile_at(t.coord);
                                }
                                self.get_tile_mut(t.coord).state = TileState::Closed;
                                self.mines_left = self.mines_left + 1;
                            }
                            i = i + 1;
                        }
                        proof {
                            lemma_count_take_full(old(self).tiles@, p);
                        }
                    } else {
                        let ghost p = closed_nbr_pred(self.dimensions, coord);
                        while i < n_tiles
                            invariant
                                self.wf(),
                                self.in_bounds(coord),
                                old(self).wf(),
                                old(self).in_bounds(coord),
                                n_tiles == self.tiles@.len(),
                                i <= n_tiles,
                                p == closed_nbr_pred(old(self).dimensions, coord),
                                self.dimensions == old(self).dimensions,
                                self.state == old(self).state,
                                self.difficulty == old(self).difficulty,
                                self.mines == old(self).mines,
                                self.first_go == old(self).first_go,
                                self.stopwatch == old(self).stopwatch,
                                self.tiles@.len() == old(self).tiles@.len(),
                                forall|j: int|
                                    0 <= j < old(self).tiles@.len() ==> (
                                    #[trigger] self.tiles@[j]).mines == old(self).tiles@[j].mines
                                        && self.tiles@[j].coord == old(self).tiles@[j].coord,
                                forall|j: int|
                                    0 <= j < old(self).tiles@.len() ==> (
                                    #[trigger] self.tiles@[j]).state == (if j < i
                                        && is_neighbour(
                                        old(self).dimensions,
                                        coord,
                                        old(self).tiles@[j].coord,
                                    ) && old(self).tiles@[j].state == TileState::Closed {
                                        TileState::Flagged
                                    } else {
                                        old(self).tiles@[j].state
                                    }),
                                self.mines_left == old(self).mines_left - count_matching(
                                    old(self).tiles@.take(i as int),
                                    p,
                                ),
                                i32::MIN + 8 <= old(self).mines_left <= i32::MAX - 8,
                            decreases n_tiles - i,
                        {
                            let t = self.tiles[i];
                            proof {
                                lemma_count_take_step(old(self).tiles@, p, i as int);
                                old(self).lemma_wf_distinct_coords();
                                let s = old(self).tiles@.take(i as int + 1);
                                assert forall|a: int, b: int|
                                    0 <= a < b < s.len() implies (#[trigger] s[a]).coord != (
                                #[trigger] s[b]).coord by {
                                    assert(s[a] == old(self).tiles@[a]);
                                    assert(s[b] == old(self).tiles@[b]);
                                }
                                lemma_nbr_count_le_8(s, old(self).dimensions, coord, p);
                                crate::counting::lemma_count_bounds(
                                    old(self).tiles@.take(i as int),
                                    p,
                                );
                            }
                            if coords_adjacent(self.dimensions, coord, t.coord) && t.state
                                == TileState::Closed {
                                proof {
                                    self.lemma_tile_at(t.coord);
                                }
                                self.get_tile_mut(t.coord).state = TileState::Flagged;
                                self.mines_left = self.mines_left - 1;
                            }
                            i = i + 1;
                        }
                        proof {
                            lemma_count_take_full(old(self).tiles@, p);
                        }
                    }
                }
            },
        }
    }


    /// Rank used to order the mutual recursion of `open` and
    /// `open_neighbours`: a chord entry stands above the neighbour pass it
    /// starts, which stands above the plain reveals it makes.
    pub open spec fn open_rank(self, c: Coord) -> int {
        if self.tile_at(c).state == TileState::Open {
            6
        } else {
            2
        }
    }

    /// Reveal, recursively, every currently closed neighbour of `coord`,
    /// whose own tile is already open.
    #[verifier::rlimit(100)]
    #[verifier::spinoff_prover]
    fn open_neighbours(&mut self, coord: Coord)
        requires
            old(self).wf(),
            old(self).in_bounds(coord),
            !old(self).first_go,
            old(self).tile_at(coord).state == TileState::Open,
        ensures
            final(self).wf(),
            !final(self).first_go,
            final(self).dimensions == old(self).dimensions,
            final(self).difficulty == old(self).difficulty,
            final(self).mines == old(self).mines,
            final(self).mines_left == old(self).mines_left,
            final(self).stopwatch == old(self).stopwatch,
            final(self).tiles@.len() == old(self).tiles@.len(),
            forall|j: int|
                0 <= j < old(self).tiles@.len() ==> (#[trigger] final(self).tiles@[j]).coord
                    == old(self).tiles@[j].coord && final(self).tiles@[j].mines == old(self).tiles@[j].mines,
            forall|j: int|
                0 <= j < old(self).tiles@.len() ==> (#[trigger] final(self).tiles@[j]).state
                    == old(self).tiles@[j].state || (old(self).tiles@[j].state
                    == TileState::Closed && final(self).tiles@[j].state == TileState::Open),
            forall|b: Coord|
                is_neighbour(old(self).dimensions, coord, b) && (#[trigger] old(self).tile_at(
                    b,
                )).state == TileState::Closed ==> final(self).tile_at(b).state == TileState::Open,
            old(self).tags_consistent() && old(self).tile_at(coord).mines == TileMines::NoMine(0)
                ==> forall|j: int|
                0 <= j < old(self).tiles@.len() && (#[trigger] old(self).tiles@[j]).state
                    != TileState::Open && final(self).tiles@[j].state == TileState::Open ==> !(
                final(self).tiles@[j].mines is Mine),
            final(self).state == old(self).state || final(self).state == GameState::Lost,
            (exists|j: int|
                0 <= j < old(self).tiles@.len() && (#[trigger] old(self).tiles@[j]).state
                    != TileState::Open && final(self).tiles@[j].state == TileState::Open && final(self).tiles@[j].mines is Mine) ==> final(self).state == GameState::Lost,
            final(self).state == GameState::Lost ==> old(self).state == GameState::Lost || (
            exists|j: int|
                0 <= j < old(self).tiles@.len() && (#[trigger] old(self).tiles@[j]).state
                    != TileState::Open && final(self).tiles@[j].state == TileState::Open && final(self).tiles@[j].mines is Mine),
            count_matching(final(self).tiles@, non_open_pred()) <= count_matching(
                old(self).tiles@,
                non_open_pred(),
            ),
        decreases count_matching(self.tiles@, non_open_pred()), 3int,
    {
        let ghost g = *self;
        let n_tiles = self.tiles.len();
        let mut i: usize = 0;
        while i < n_tiles
            invariant
                self.wf(),
                !self.first_go,
                g == *old(self),
                g.wf(),
                g.in_bounds(coord),
                g.tile_at(coord).state == TileState::Open,
                n_tiles == g.tiles@.len(),
                i <= n_tiles,
                self.dimensions == g.dimensions,
                self.difficulty == g.difficulty,
                self.mines == g.mines,
                self.mines_left == g.mines_left,
                self.stopwatch == g.stopwatch,
                self.tiles@.len() == g.tiles@.len(),
                forall|j: int|
                    0 <= j < g.tiles@.len() ==> (#[trigger] self.tiles@[j]).coord
                        == g.tiles@[j].coord && self.tiles@[j].mines == g.tiles@[j].mines,
                forall|j: int|
                    0 <= j < g.tiles@.len() ==> (#[trigger] self.tiles@[j]).state
                        == g.tiles@[j].state || (g.tiles@[j].state == TileState::Closed
                        && self.tiles@[j].state == TileState::Open),
                g.tags_consistent() && g.tile_at(coord).mines == TileMines::NoMine(0)
                    ==> forall|j: int|
                    0 <= j < g.tiles@.len() && (#[trigger] g.tiles@[j]).state != TileState::Open
                        && self.tiles@[j].state == TileState::Open ==> !(self.tiles@[j].mines
                        is Mine),
                forall|j: int|
                    0 <= j < i && is_neighbour(g.dimensions, coord, g.tiles@[j].coord)
                        && g.tiles@[j].state == TileState::Closed ==> (
                    #[trigger] self.tiles@[j]).state == TileState::Open,
                self.state == g.state || self.state == GameState::Lost,
                (exists|j: int|
                    0 <= j < g.tiles@.len() && (#[trigger] g.tiles@[j]).state != TileState::Open
                        && self.tiles@[j].state == TileState::Open && self.tiles@[j].mines
                        is Mine) ==> self.state == GameState::Lost,
                self.state == GameState::Lost ==> g.state == GameState::Lost || (exists|j: int|
                    0 <= j < g.tiles@.len() && (#[trigger] g.tiles@[j]).state != TileState::Open
                        && self.tiles@[j].state == TileState::Open && self.tiles@[j].mines
                        is Mine),
                count_matching(self.tiles@, non_open_pred()) <= count_matching(
                    g.tiles@,
                    non_open_pred(),
                ),
            decreases n_tiles - i,
        {
            let t = self.tiles[i];
            if coords_adjacent(self.dimensions, coord, t.coord) && t.state == TileState::Closed {
                let ghost pre = *self;
                proof {
                    crate::counting::lemma_count_le_pointwise(
                        pre.tiles@,
                        g.tiles@,
                        non_open_pred(),
                        non_open_pred(),
                    );
                    pre.lemma_tile_at(t.coord);
                    assert(index_of(pre.dimensions, t.coord) == i);
                    assert(pre.tile_at(t.coord).state == TileState::Closed);
                    assert(pre.open_rank(t.coord) == 2);
                    assert(g.tiles@ == old(self).tiles@);
                    crate::counting::lemma_count_bounds(pre.tiles@, non_open_pred());
                    assert(count_matching(pre.tiles@, non_open_pred()) <= count_matching(
                        old(self).tiles@,
                        non_open_pred(),
                    ));
                }
                self.open(t.coord);
                proof {
                    pre.lemma_tile_at(t.coord);
                    assert(index_of(pre.dimensions, t.coord) == i);
                    assert(self.tile_at(t.coord).state == TileState::Open);
                    crate::counting::lemma_count_le_pointwise(
                        self.tiles@,
                        pre.tiles@,
                        non_open_pred(),
                        non_open_pred(),
                    );
                    if g.tags_consistent() && g.tile_at(coord).mines == TileMines::NoMine(0) {
                        g.lemma_tags_preserved(pre);
                        g.lemma_tile_at(coord);
                        crate::counting::lemma_count_zero(
                            g.tiles@,
                            mine_nbr_pred(g.dimensions, coord),
                        );
                        assert(g.mine_nbr_count(coord) == 0);
                        assert(!(mine_nbr_pred(g.dimensions, coord)(g.tiles@[i as int])));
                        assert(!(pre.tile_at(t.coord).mines is Mine));
                        assert forall|j: int|
                            0 <= j < g.tiles@.len() && (#[trigger] g.tiles@[j]).state
                                != TileState::Open && self.tiles@[j].state == TileState::Open
                            implies !(self.tiles@[j].mines is Mine) by {
                            if pre.tiles@[j].state != TileState::Open {
                                assert(pre.tags_consistent());
                            }
                        }
                    }
                }
            }
            i = i + 1;
        }
        proof {
            assert forall|b: Coord|
                is_neighbour(g.dimensions, coord, b) && (#[trigger] g.tile_at(b)).state
                    == TileState::Closed implies self.tile_at(b).state == TileState::Open by {
                g.lemma_tile_at(b);
            }
        }
    }



    /// Open the closed tile at `coord`: lost at once on a mine, flooding
    /// outward on a zero count.
    #[verifier::rlimit(100)]
    #[verifier::spinoff_prover]
    fn reveal_closed(&mut self, coord: Coord)
        requires
            old(self).wf(),
            old(self).in_bounds(coord),
            !old(self).first_go,
            old(self).tile_at(coord).state == TileState::Closed,
        ensures
            final(self).wf(),
            !final(self).first_go,
            final(self).dimensions == old(self).dimensions,
            final(self).difficulty == old(self).difficulty,
            final(self).mines == old(self).mines,
            final(self).mines_left == old(self).mines_left,
            final(self).stopwatch == old(self).stopwatch,
            final(self).tiles@.len() == old(self).tiles@.len(),
            forall|j: int|
                0 <= j < old(self).tiles@.len() ==> (#[trigger] final(self).tiles@[j]).coord
                    == old(self).tiles@[j].coord && final(self).tiles@[j].mines == old(self).tiles@[j].mines,
            forall|j: int|
                0 <= j < old(self).tiles@.len() ==> (#[trigger] final(self).tiles@[j]).state
                    == old(self).tiles@[j].state || (old(self).tiles@[j].state
                    == TileState::Closed && final(self).tiles@[j].state == TileState::Open),
            final(self).tile_at(coord).state == TileState::Open,
            old(self).tile_at(coord).mines is Mine ==> final(self).state == GameState::Lost && (
            forall|j: int|
                0 <= j < old(self).tiles@.len() && j != index_of(old(self).dimensions, coord)
                    ==> (#[trigger] final(self).tiles@[j]) == old(self).tiles@[j]),
            old(self).tile_at(coord).mines matches TileMines::NoMine(n) && n > 0 ==> final(self).state == old(self).state && (forall|j: int|
                0 <= j < old(self).tiles@.len() && j != index_of(old(self).dimensions, coord)
                    ==> (#[trigger] final(self).tiles@[j]) == old(self).tiles@[j]),
            old(self).tags_consistent() && !(old(self).tile_at(coord).mines is Mine) ==> final(self).state == old(self).state && (forall|j: int|
                0 <= j < old(self).tiles@.len() && (#[trigger] old(self).tiles@[j]).state
                    != TileState::Open && final(self).tiles@[j].state == TileState::Open ==> !(
                final(self).tiles@[j].mines is Mine)),
            final(self).state == old(self).state || final(self).state == GameState::Lost,
            (exists|j: int|
                0 <= j < old(self).tiles@.len() && (#[trigger] old(self).tiles@[j]).state
                    != TileState::Open && final(self).tiles@[j].state == TileState::Open && final(self).tiles@[j].mines is Mine) ==> final(self).state == GameState::Lost,
            final(self).state == GameState::Lost ==> old(self).state == GameState::Lost || (
            exists|j: int|
                0 <= j < old(self).tiles@.len() && (#[trigger] old(self).tiles@[j]).state
                    != TileState::Open && final(self).tiles@[j].state == TileState::Open && final(self).tiles@[j].mines is Mine),
            old(self).tile_at(coord).mines == TileMines::NoMine(0) ==> forall|b: Coord|
                is_neighbour(old(self).dimensions, coord, b) && (#[trigger] old(self).tile_at(
                    b,
                )).state == TileState::Closed ==> final(self).tile_at(b).state == TileState::Open,
            count_matching(final(self).tiles@, non_open_pred()) <= count_matching(
                old(self).tiles@,
                non_open_pred(),
            ) - 1,
        decreases count_matching(self.tiles@, non_open_pred()), 1int,
    {
        let ghost g = *self;
        proof {
            self.lemma_tile_at(coord);
        }
        self.get_tile_mut(coord).state = TileState::Open;
        let ghost h = *self;
        proof {
            crate::counting::lemma_count_update(
                g.tiles@,
                non_open_pred(),
                index_of(g.dimensions, coord),
                h.tiles@[index_of(g.dimensions, coord)],
            );
            h.lemma_tile_at(coord);
        }
        proof {
            crate::counting::lemma_count_bounds(self.tiles@, non_open_pred());
        }
        if self.get_tile(coord).mines == TileMines::Mine {
            self.state = GameState::Lost;
            proof {
                let dims = g.dimensions;
                let idx = index_of(dims, coord);
                assert(old(self).tiles@[idx].state != TileState::Open);
                assert(self.tiles@[idx].state == TileState::Open);
                assert(self.tiles@[idx].mines is Mine);
                assert forall|b: Coord|
                    old(self).in_bounds(b) && (#[trigger] old(self).tile_at(b)).state
                        != TileState::Open && self.tile_at(b).state == TileState::Open
                        && b != coord implies (is_neighbour(dims, coord, b) && old(
                    self,
                ).tile_at(coord).state == TileState::Open) by {
                    old(self).lemma_tile_at(b);
                    old(self).lemma_tile_at(coord);
                    g.lemma_tile_at(b);
                    assert(index_of(dims, b) != idx);
                    assert(self.tiles@[index_of(dims, b)] == g.tiles@[index_of(dims, b)]);
                }
                assert forall|b: Coord|
                    old(self).in_bounds(b) implies (#[trigger] self.tile_at(b)).mines
                    == g.tile_at(b).mines by {
                    g.lemma_tile_at(b);
                }
                assert forall|j: int|
                    0 <= j < old(self).tiles@.len() && j != idx implies (
                #[trigger] self.tiles@[j]) == old(self).tiles@[j] by {}
            }
        } else {
            if self.get_tile(coord).mines == TileMines::NoMine(0) {
                self.open_neighbours(coord);
                proof {
                    let dims = g.dimensions;
                    let idx = index_of(dims, coord);
                    assert(h.tile_at(coord).state == TileState::Open);
                    assert(h.tile_at(coord).mines == TileMines::NoMine(0));
                    assert forall|b: Coord|
                        old(self).in_bounds(b) implies (#[trigger] self.tile_at(
                        b,
                    )).mines == g.tile_at(b).mines by {
                        g.lemma_tile_at(b);
                    }
                    assert forall|b: Coord|
                        is_neighbour(dims, coord, b) && (#[trigger] old(self).tile_at(
                            b,
                        )).state == TileState::Closed implies self.tile_at(b).state
                        == TileState::Open by {
                        old(self).lemma_tile_at(b);
                        g.lemma_tile_at(b);
                        h.lemma_tile_at(b);
                        old(self).lemma_tile_at(coord);
                        assert(h.tile_at(b).state == TileState::Closed);
                    }
                    assert forall|j: int|
                        0 <= j < old(self).tiles@.len() && (#[trigger] old(
                            self,
                        ).tiles@[j]).state != TileState::Open && self.tiles@[j].state
                        == TileState::Open && self.tiles@[j].mines is Mine implies
                        self.state == GameState::Lost by {
                        assert(h.tiles@[j].mines == g.tiles@[j].mines);
                        if j != idx {
                            assert(h.tiles@[j].state == old(self).tiles@[j].state);
                            assert(exists|k: int|
                                0 <= k < h.tiles@.len() && (#[trigger] h.tiles@[k]).state
                                    != TileState::Open && self.tiles@[k].state
                                    == TileState::Open && self.tiles@[k].mines is Mine);
                        }
                    }
                    if self.state == GameState::Lost && old(self).state
                        != GameState::Lost {
                        let k = choose|k: int|
                            0 <= k < h.tiles@.len() && (#[trigger] h.tiles@[k]).state
                                != TileState::Open && self.tiles@[k].state
                                == TileState::Open && self.tiles@[k].mines is Mine;
                        assert(k != idx);
                        assert(old(self).tiles@[k].state != TileState::Open);
                        assert(old(self).tiles@[k].state != TileState::Open && self
                            .tiles@[k].state == TileState::Open && self.tiles@[k].mines
                            is Mine);
                    }
                    if g.tags_consistent() && !(g.tile_at(coord).mines is Mine) {
                        assert forall|j: int|
                            0 <= j < g.tiles@.len() implies (#[trigger] h.tiles@[j]).mines
                            == g.tiles@[j].mines && h.tiles@[j].coord == g.tiles@[j].coord by {}
                        g.lemma_tags_preserved(h);
                        assert(h.tags_consistent());
                        assert forall|j: int|
                            0 <= j < g.tiles@.len() && (#[trigger] g.tiles@[j]).state
                                != TileState::Open && self.tiles@[j].state == TileState::Open
                            implies !(self.tiles@[j].mines is Mine) by {
                            if j != idx {
                                assert(h.tiles@[j].state == g.tiles@[j].state);
                            }
                        }
                    }
                }
            } else {
                proof {
                    let dims = g.dimensions;
                    let idx = index_of(dims, coord);
                    assert(!(self.tile_at(coord).mines is Mine));
                    assert forall|b: Coord|
                        old(self).in_bounds(b) implies (#[trigger] self.tile_at(
                        b,
                    )).mines == g.tile_at(b).mines by {
                        g.lemma_tile_at(b);
                    }
                    assert forall|b: Coord|
                        old(self).in_bounds(b) && (#[trigger] old(self).tile_at(
                            b,
                        )).state != TileState::Open && self.tile_at(b).state
                        == TileState::Open && b != coord implies (is_neighbour(
                        dims,
                        coord,
                        b,
                    ) && old(self).tile_at(coord).state == TileState::Open) by {
                        old(self).lemma_tile_at(b);
                        old(self).lemma_tile_at(coord);
                        g.lemma_tile_at(b);
                        assert(index_of(dims, b) != idx);
                        assert(self.tiles@[index_of(dims, b)] == g.tiles@[index_of(
                            dims,
                            b,
                        )]);
                    }
                    assert forall|j: int|
                        0 <= j < old(self).tiles@.len() && (#[trigger] old(
                            self,
                        ).tiles@[j]).state != TileState::Open && self.tiles@[j].state
                        == TileState::Open implies j == idx && !(self.tiles@[j].mines
                        is Mine) by {
                        old(self).lemma_tile_at(coord);
                    }
                }
            }
        }
    }


    /// Handle a reveal of an already open tile: on a numbered tile whose
    /// flagged neighbours match its count, open every remaining closed
    /// neighbour; otherwise do nothing.
    #[verifier::rlimit(100)]
    #[verifier::spinoff_prover]
    fn chord_open(&mut self, coord: Coord)
        requires
            old(self).wf(),
            old(self).in_bounds(coord),
            !old(self).first_go,
            old(self).tile_at(coord).state == TileState::Open,
        ensures
            final(self).wf(),
            !final(self).first_go,
            final(self).dimensions == old(self).dimensions,
            final(self).difficulty == old(self).difficulty,
            final(self).mines == old(self).mines,
            final(self).mines_left == old(self).mines_left,
            final(self).stopwatch == old(self).stopwatch,
            final(self).tiles@.len() == old(self).tiles@.len(),
            forall|j: int|
                0 <= j < old(self).tiles@.len() ==> (#[trigger] final(self).tiles@[j]).coord
                    == old(self).tiles@[j].coord && final(self).tiles@[j].mines == old(
                    self,
                ).tiles@[j].mines,
            forall|j: int|
                0 <= j < old(self).tiles@.len() ==> (#[trigger] final(self).tiles@[j]).state
                    == old(self).tiles@[j].state || (old(self).tiles@[j].state
                    == TileState::Closed && final(self).tiles@[j].state == TileState::Open),
            final(self).state == old(self).state || final(self).state == GameState::Lost,
            (exists|j: int|
                0 <= j < old(self).tiles@.len() && (#[trigger] old(self).tiles@[j]).state
                    != TileState::Open && final(self).tiles@[j].state == TileState::Open && final(self).tiles@[j].mines is Mine) ==> final(self).state == GameState::Lost,
            final(self).state == GameState::Lost ==> old(self).state == GameState::Lost || (
            exists|j: int|
                0 <= j < old(self).tiles@.len() && (#[trigger] old(self).tiles@[j]).state
                    != TileState::Open && final(self).tiles@[j].state == TileState::Open && final(self).tiles@[j].mines is Mine),
            old(self).tile_at(coord).mines matches TileMines::NoMine(n) && n > 0 && old(
                self,
            ).flagged_nbr_count(coord) == n ==> forall|b: Coord|
                is_neighbour(old(self).dimensions, coord, b) && (#[trigger] old(self).tile_at(
                    b,
                )).state == TileState::Closed ==> final(self).tile_at(b).state == TileState::Open,
            (old(self).tile_at(coord).mines is Mine || old(self).tile_at(coord).mines
                == TileMines::NoMine(0) || (old(self).tile_at(coord).mines matches
            TileMines::NoMine(n) && n > 0 && old(self).flagged_nbr_count(coord) != n)) ==> *final(self) == *old(self),
            count_matching(final(self).tiles@, non_open_pred()) <= count_matching(
                old(self).tiles@,
                non_open_pred(),
            ),
        decreases count_matching(self.tiles@, non_open_pred()), 4int,
    {
        let ghost g = *self;
        proof {
            crate::counting::lemma_count_bounds(self.tiles@, non_open_pred());
        }

        if let TileMines::NoMine(n) = self.get_tile(coord).mines {
            if n > 0 {
                let count = self.count_flagged_neighbours(coord);
                if count == n {
                    proof {
                        crate::counting::lemma_count_bounds(
                            self.tiles@,
                            non_open_pred(),
                        );
                        assert(count_matching(self.tiles@, non_open_pred())
                            == count_matching(old(self).tiles@, non_open_pred()));
                    }
                    self.open_neighbours(coord);
                }
            }
        }
    }

    /// Reveal the tile at `coord`. The very first reveal of a board first
    /// places the mines, sparing the 3x3 block around `coord`, and starts
    /// the clock. A closed tile opens, losing the game at once on a mine
    /// and flooding outward from a zero count; a flagged tile merely
    /// returns to closed; an open numbered tile whose flagged neighbours
    /// match its count opens all its remaining closed neighbours.
    #[verifier::rlimit(100)]
    #[verifier::spinoff_prover]
    pub fn open(&mut self, coord: Coord)
        requires
            old(self).wf(),
            old(self).in_bounds(coord),
        ensures
            final(self).wf(),
            !final(self).first_go,
            final(self).dimensions == old(self).dimensions,
            final(self).difficulty == old(self).difficulty,
            final(self).mines == old(self).mines,
            final(self).mines_left == old(self).mines_left,
            final(self).tiles@.len() == old(self).tiles@.len(),
            forall|j: int|
                0 <= j < old(self).tiles@.len() ==> (#[trigger] final(self).tiles@[j]).coord
                    == old(self).tiles@[j].coord,
            !old(self).first_go ==> forall|j: int|
                0 <= j < old(self).tiles@.len() ==> (#[trigger] final(self).tiles@[j]).mines
                    == old(self).tiles@[j].mines,
            !old(self).first_go ==> final(self).stopwatch == old(self).stopwatch,
            old(self).first_go ==> forall|b: Coord|
                old(self).in_bounds(b) && (b == coord || is_neighbour(
                    old(self).dimensions,
                    coord,
                    b,
                )) ==> !((#[trigger] final(self).tile_at(b)).mines is Mine),
            forall|j: int|
                0 <= j < old(self).tiles@.len() ==> (#[trigger] final(self).tiles@[j]).state
                    == old(self).tiles@[j].state || (old(self).tiles@[j].state
                    == TileState::Closed && final(self).tiles@[j].state == TileState::Open) || (
                j == index_of(old(self).dimensions, coord) && old(self).tiles@[j].state
                    == TileState::Flagged && final(self).tiles@[j].state == TileState::Closed),
            old(self).tile_at(coord).state == TileState::Closed ==> final(self).tile_at(
                coord,
            ).state == TileState::Open,
            old(self).tile_at(coord).state == TileState::Flagged ==> final(self).tile_at(
                coord,
            ).state == TileState::Closed && (forall|j: int|
                0 <= j < old(self).tiles@.len() && j != index_of(old(self).dimensions, coord)
                    ==> (#[trigger] final(self).tiles@[j]).state == old(self).tiles@[j].state)
                && final(self).state == old(self).state,
            old(self).tile_at(coord).state == TileState::Open ==> final(self).tile_at(
                coord,
            ).state == TileState::Open,
            final(self).state == old(self).state || final(self).state == GameState::Lost,
            (exists|j: int|
                0 <= j < old(self).tiles@.len() && (#[trigger] old(self).tiles@[j]).state
                    != TileState::Open && final(self).tiles@[j].state == TileState::Open && final(self).tiles@[j].mines is Mine) ==> final(self).state == GameState::Lost,
            final(self).state == GameState::Lost ==> old(self).state == GameState::Lost || (
            exists|j: int|
                0 <= j < old(self).tiles@.len() && (#[trigger] old(self).tiles@[j]).state
                    != TileState::Open && final(self).tiles@[j].state == TileState::Open && final(self).tiles@[j].mines is Mine),
            !old(self).first_go && old(self).tile_at(coord).state == TileState::Closed && old(self).tile_at(coord).mines == TileMines::NoMine(0) ==> forall|b: Coord|
                is_neighbour(old(self).dimensions, coord, b) && (#[trigger] old(self).tile_at(
                    b,
                )).state == TileState::Closed ==> final(self).tile_at(b).state == TileState::Open,
            !old(self).first_go && old(self).tile_at(coord).state == TileState::Open ==> (old(self).tile_at(coord).mines matches TileMines::NoMine(n) && n > 0 && old(self).flagged_nbr_count(coord) == n ==> forall|b: Coord|
                is_neighbour(old(self).dimensions, coord, b) && (#[trigger] old(self).tile_at(
                    b,
                )).state == TileState::Closed ==> final(self).tile_at(b).state == TileState::Open),
            !old(self).first_go && old(self).tile_at(coord).state == TileState::Open ==> ((old(self).tile_at(coord).mines is Mine || old(self).tile_at(coord).mines == TileMines::NoMine(
                0,
            ) || (old(self).tile_at(coord).mines matches TileMines::NoMine(n) && n > 0 && old(self).flagged_nbr_count(coord) != n)) ==> *final(self) == *old(self)),
            old(self).first_go ==> final(self).mine_count() == old(self).mines as int && final(self).tags_consistent() && final(self).tile_at(coord).mines == TileMines::NoMine(0),
            old(self).first_go && old(self).tile_at(coord).state == TileState::Closed ==> final(self).state == old(self).state && (forall|b: Coord|
                is_neighbour(old(self).dimensions, coord, b) && (#[trigger] old(self).tile_at(
                    b,
                )).state == TileState::Closed ==> final(self).tile_at(b).state
                    == TileState::Open),
            !old(self).first_go && old(self).tile_at(coord).state == TileState::Closed && old(self).tile_at(coord).mines is Mine ==> final(self).state == GameState::Lost && (forall|j: int|
                0 <= j < old(self).tiles@.len() && j != index_of(old(self).dimensions, coord)
                    ==> (#[trigger] final(self).tiles@[j]) == old(self).tiles@[j]),
            !old(self).first_go && old(self).tile_at(coord).state == TileState::Closed ==> (old(self).tile_at(coord).mines matches TileMines::NoMine(n) && n > 0 ==> final(self).state
                == old(self).state && (forall|j: int|
                0 <= j < old(self).tiles@.len() && j != index_of(old(self).dimensions, coord)
                    ==> (#[trigger] final(self).tiles@[j]) == old(self).tiles@[j])),
            !old(self).first_go && old(self).tags_consistent() && old(self).tile_at(
                coord,
            ).state == TileState::Closed && !(old(self).tile_at(coord).mines is Mine) ==> final(self).state == old(self).state && (forall|j: int|
                0 <= j < old(self).tiles@.len() && (#[trigger] old(self).tiles@[j]).state
                    != TileState::Open && final(self).tiles@[j].state == TileState::Open ==> !(
                final(self).tiles@[j].mines is Mine)),
            count_matching(final(self).tiles@, non_open_pred()) <= count_matching(
                old(self).tiles@,
                non_open_pred(),
            ),
        decreases count_matching(self.tiles@, non_open_pred()), self.open_rank(coord),
    {
        proof {
            self.lemma_tile_at(coord);
        }
        if self.first_go {
            self.first_go = false;
            self.stopwatch.start();
            self.gen_map(coord);
        }
        let ghost g = *self;
        proof {
            crate::counting::lemma_count_eq_pointwise(
                g.tiles@,
                old(self).tiles@,
                non_open_pred(),
            );
            g.lemma_tile_at(coord);
        }
        match self.get_tile(coord).state {
            TileState::Closed => {
                self.reveal_closed(coord);
                proof {
                    let dims = g.dimensions;
                    assert forall|j: int|
                        0 <= j < old(self).tiles@.len() implies (#[trigger] g.tiles@[j]).state
                        == old(self).tiles@[j].state by {}
                    assert forall|j: int|
                        0 <= j < old(self).tiles@.len() implies (#[trigger] self.tiles@[j]).state
                        == old(self).tiles@[j].state || (old(self).tiles@[j].state
                        == TileState::Closed && self.tiles@[j].state == TileState::Open) by {}
                    if old(self).first_go {
                    g.lemma_safe_block_tag_zero(coord);
                    g.lemma_tags_preserved(*self);
                    assert forall|b: Coord|
                        old(self).in_bounds(b) implies (#[trigger] self.tile_at(b)).mines
                        == g.tile_at(b).mines by {
                        g.lemma_tile_at(b);
                    }
                    assert forall|b: Coord|
                        is_neighbour(dims, coord, b) && (#[trigger] old(self).tile_at(b)).state
                            == TileState::Closed implies self.tile_at(b).state
                        == TileState::Open by {
                        old(self).lemma_tile_at(b);
                        g.lemma_tile_at(b);
                        assert(g.tile_at(b).state == TileState::Closed);
                    }
                    assert(self.state == g.state);
                    assert forall|j: int|
                        0 <= j < old(self).tiles@.len() && (#[trigger] old(self).tiles@[j]).state
                            != TileState::Open && self.tiles@[j].state == TileState::Open
                            && self.tiles@[j].mines is Mine implies self.state
                        == GameState::Lost by {
                        assert(g.tiles@[j].state == old(self).tiles@[j].state);
                        assert(exists|k: int|
                            0 <= k < g.tiles@.len() && (#[trigger] g.tiles@[k]).state
                                != TileState::Open && self.tiles@[k].state == TileState::Open
                                && self.tiles@[k].mines is Mine);
                    }
                    if self.state == GameState::Lost && old(self).state != GameState::Lost {
                        let k = choose|k: int|
                            0 <= k < g.tiles@.len() && (#[trigger] g.tiles@[k]).state
                                != TileState::Open && self.tiles@[k].state == TileState::Open
                                && self.tiles@[k].mines is Mine;
                        assert(old(self).tiles@[k].state != TileState::Open && self
                            .tiles@[k].state == TileState::Open && self.tiles@[k].mines
                            is Mine);
                    }
                    }
                }
            },
            TileState::Flagged => {
                proof {
                    self.lemma_tile_at(coord);
                }
                self.get_tile_mut(coord).state = TileState::Closed;
                proof {
                    crate::counting::lemma_count_eq_pointwise(
                        self.tiles@,
                        old(self).tiles@,
                        non_open_pred(),
                    );
                    assert forall|j: int|
                        0 <= j < old(self).tiles@.len() implies (#[trigger] g.tiles@[j]).state
                        == old(self).tiles@[j].state by {}
                    assert forall|j: int|
                        0 <= j < old(self).tiles@.len() implies (#[trigger] self.tiles@[j]).state
                        == old(self).tiles@[j].state || (old(self).tiles@[j].state
                        == TileState::Closed && self.tiles@[j].state == TileState::Open) || (j
                        == index_of(old(self).dimensions, coord) && old(self).tiles@[j].state
                        == TileState::Flagged && self.tiles@[j].state == TileState::Closed) by {
                        old(self).lemma_tile_at(coord);
                        g.lemma_tile_at(coord);
                        assert(index_of(g.dimensions, coord) == index_of(
                            old(self).dimensions,
                            coord,
                        ));
                    }

                    assert forall|b: Coord|
                        old(self).in_bounds(b) && (#[trigger] old(self).tile_at(b)).state
                            != TileState::Open implies self.tile_at(b).state != TileState::Open by {
                        old(self).lemma_tile_at(b);
                        g.lemma_tile_at(b);
                    }
                    assert forall|b: Coord|
                        old(self).in_bounds(b) implies (#[trigger] self.tile_at(b)).mines
                        == g.tile_at(b).mines by {
                        g.lemma_tile_at(b);
                    }
                    if old(self).first_go {
                        g.lemma_safe_block_tag_zero(coord);
                        g.lemma_tags_preserved(*self);
                    }
                }
            },
            TileState::Open => {
                self.chord_open(coord);
                proof {
                    let dims = g.dimensions;
                    assert forall|j: int|
                        0 <= j < old(self).tiles@.len() implies (#[trigger] g.tiles@[j]).state
                        == old(self).tiles@[j].state by {}
                    assert forall|j: int|
                        0 <= j < old(self).tiles@.len() implies (#[trigger] self.tiles@[j]).state
                        == old(self).tiles@[j].state || (old(self).tiles@[j].state
                        == TileState::Closed && self.tiles@[j].state == TileState::Open) by {}
                    if old(self).first_go {
                    g.lemma_safe_block_tag_zero(coord);
                    g.lemma_tags_preserved(*self);
                    assert forall|b: Coord|
                        old(self).in_bounds(b) implies (#[trigger] self.tile_at(b)).mines
                        == g.tile_at(b).mines by {
                        g.lemma_tile_at(b);
                    }
                        assert forall|j: int|
                            0 <= j < old(self).tiles@.len() && (#[trigger] old(
                                self,
                            ).tiles@[j]).state != TileState::Open && self.tiles@[j].state
                                == TileState::Open && self.tiles@[j].mines is Mine implies
                            self.state == GameState::Lost by {
                            assert(g.tiles@[j].state == old(self).tiles@[j].state);
                            assert(exists|k: int|
                                0 <= k < g.tiles@.len() && (#[trigger] g.tiles@[k]).state
                                    != TileState::Open && self.tiles@[k].state
                                    == TileState::Open && self.tiles@[k].mines is Mine);
                        }
                        if self.state == GameState::Lost && old(self).state != GameState::Lost {
                            let k = choose|k: int|
                                0 <= k < g.tiles@.len() && (#[trigger] g.tiles@[k]).state
                                    != TileState::Open && self.tiles@[k].state
                                    == TileState::Open && self.tiles@[k].mines is Mine;
                            assert(old(self).tiles@[k].state != TileState::Open && self
                                .tiles@[k].state == TileState::Open && self.tiles@[k].mines
                                is Mine);
                        }
                    }
                }
            },
        }
    }

    /// One full scan deciding the outcome: lost as soon as an open mine
    /// exists, won when every non-mine tile is open (forcing the
    /// remaining-mine counter to zero), and still playing otherwise.
    pub fn check_state(&mut self)
        requires
            old(self).wf(),
        ensures
            final(self).wf(),
            final(self).tiles == old(self).tiles,
            final(self).dimensions == old(self).dimensions,
            final(self).difficulty == old(self).difficulty,
            final(self).mines == old(self).mines,
            final(self).first_go == old(self).first_go,
            any_open_mine(old(self).tiles@) ==> final(self).state == GameState::Lost
                && final(self).mines_left == old(self).mines_left,
            !any_open_mine(old(self).tiles@) && all_safe_open(old(self).tiles@)
                ==> final(self).state == GameState::Won && final(self).mines_left == 0,
            !any_open_mine(old(self).tiles@) && !all_safe_open(old(self).tiles@)
                ==> final(self).state == GameState::Playing && final(self).mines_left == old(self).mines_left && final(self).stopwatch == old(self).stopwatch,
    {
        let n = self.tiles.len();
        let mut game_won = true;
        let mut i: usize = 0;
        while i < n
            invariant
                *self == *old(self),
                old(self).wf(),
                n == self.tiles@.len(),
                i <= n,
                game_won <==> (forall|j: int|
                    0 <= j < i ==> ((#[trigger] old(self).tiles@[j]).mines is Mine
                        || old(self).tiles@[j].state == TileState::Open)),
                forall|j: int|
                    0 <= j < i ==> !((#[trigger] old(self).tiles@[j]).state == TileState::Open
                        && old(self).tiles@[j].mines is Mine),
            decreases n - i,
        {
            let t = self.tiles[i];
            if t.state == TileState::Open && t.mines == TileMines::Mine {
                self.stopwatch.stop();
                self.state = GameState::Lost;
                return ;
            }
            if t.state != TileState::Open && t.mines != TileMines::Mine {
                game_won = false;
            }
            i = i + 1;
        }
        if game_won {
            self.mines_left = 0;
            self.stopwatch.stop();
            self.state = GameState::Won;
        } else {
            self.state = GameState::Playing;
        }
    }
}

} // verus!
