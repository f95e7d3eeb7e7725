//! Eight-connected grids: the moves from a tile to its neighbours, on a
//! plain grid and on a MovingAI map.
use movingai::Map2D;
use movingai::MovingAiMap;
use vstd::prelude::*;

use crate::Weight;

verus! {

/// The cost of a straight step between two tiles: one tile is this many units.
pub const STRAIGHT_COST: Weight = 1_000_000;

/// The cost of a diagonal step: `sqrt(2)` tiles, to the nearest unit.
pub const DIAG_COST: Weight = 1_414_214;

/// The eight steps, as column offset, row offset and cost, in the order they
/// are tried.
pub open spec fn steps() -> Seq<(int, int, Weight)> {
    seq![
        (1, 0, STRAIGHT_COST),
        (1, 1, DIAG_COST),
        (1, -1, DIAG_COST),
        (0, 1, STRAIGHT_COST),
        (0, -1, STRAIGHT_COST),
        (-1, 0, STRAIGHT_COST),
        (-1, -1, DIAG_COST),
        (-1, 1, DIAG_COST),
    ]
}

/// The moves out of tile `(x, y)` by the first `k` steps that stay on a grid
/// of `width` columns and `height` rows, each with the tile it reaches.
pub open spec fn moves_upto(width: int, height: int, x: int, y: int, k: nat) -> Seq<
    ((usize, usize), Weight),
>
    decreases k,
{
    if k == 0 {
        Seq::empty()
    } else {
        let (dx, dy, c) = steps()[k - 1];
        let earlier = moves_upto(width, height, x, y, (k - 1) as nat);
        if 0 <= x + dx < width && 0 <= y + dy < height {
            earlier.push((((x + dx) as usize, (y + dy) as usize), c))
        } else {
            earlier
        }
    }
}

/// The moves out of tile `(x, y)` that stay on the grid.
pub open spec fn grid_moves(width: int, height: int, x: int, y: int) -> Seq<
    ((usize, usize), Weight),
> {
    moves_upto(width, height, x, y, 8)
}

/// `v` moved by `d` (-1, 0 or 1), when that stays below `bound`.
fn shift(v: usize, d: i8, bound: usize) -> (r: Option<usize>)
    requires
        -1 <= d <= 1,
    ensures
        r matches Some(w) ==> w == v + d && 0 <= v + d < bound,
        r is None ==> !(0 <= v + d < bound),
{
    if d < 0 {
        if v > 0 && v - 1 < bound {
            Some(v - 1)
        } else {
            None
        }
    } else if d == 0 {
        if v < bound {
            Some(v)
        } else {
            None
        }
    } else {
        if v < bound && v + 1 < bound {
            Some(v + 1)
        } else {
            None
        }
    }
}

/// The moves out of tile `(x, y)` that stay on a grid of `width` columns and
/// `height` rows: to the right, the lower right, the upper right, down, up, to
/// the left, the upper left, the lower left, each with its cost.
pub fn moves_within(width: usize, height: usize, x: usize, y: usize) -> (r: Vec<
    ((usize, usize), Weight),
>)
    ensures
        r@ == grid_moves(width as int, height as int, x as int, y as int),
{
    let dxs: [i8; 8] = [1, 1, 1, 0, 0, -1, -1, -1];
    let dys: [i8; 8] = [0, 1, -1, 1, -1, 0, -1, 1];
    let costs: [Weight; 8] = [
        STRAIGHT_COST,
        DIAG_COST,
        DIAG_COST,
        STRAIGHT_COST,
        STRAIGHT_COST,
        STRAIGHT_COST,
        DIAG_COST,
        DIAG_COST,
    ];
    let mut r: Vec<((usize, usize), Weight)> = Vec::new();
    let mut k: usize = 0;
    while k < 8
        invariant
            k <= 8,
            forall|j: int|
                0 <= j < 8 ==> steps()[j] == (
                    dxs@[j] as int,
                    dys@[j] as int,
                    costs@[j],
                ) && -1 <= dxs@[j] <= 1 && -1 <= dys@[j] <= 1,
            r@ == moves_upto(width as int, height as int, x as int, y as int, k as nat),
        decreases 8 - k,
    {
        match (shift(x, dxs[k], width), shift(y, dys[k], height)) {
            (Some(nx), Some(ny)) => {
                r.push(((nx, ny), costs[k]));
            },
            _ => {},
        }
        k = k + 1;
    }
    r
}

/// The entries of `s` whose flag in `keep` is set, in order.
pub open spec fn kept<T>(s: Seq<T>, keep: Seq<bool>) -> Seq<T>
    decreases s.len(),
{
    if s.len() == 0 {
        Seq::empty()
    } else {
        let rest = kept(s.drop_last(), keep);
        if keep[s.len() - 1] {
            rest.push(s.last())
        } else {
            rest
        }
    }
}

/// The moves of `moves` whose flag in `allowed` is set, in order.
pub fn keep_allowed(moves: &Vec<((usize, usize), Weight)>, allowed: &Vec<bool>) -> (r: Vec<
    ((usize, usize), Weight),
>)
    requires
        allowed@.len() == moves@.len(),
    ensures
        r@ == kept(moves@, allowed@),
{
    let mut r: Vec<((usize, usize), Weight)> = Vec::new();
    let mut k: usize = 0;
    while k < moves.len()
        invariant
            k <= moves@.len(),
            allowed@.len() == moves@.len(),
            r@ == kept(moves@.subrange(0, k as int), allowed@),
        decreases moves@.len() - k,
    {
        assert(moves@.subrange(0, k + 1).drop_last() =~= moves@.subrange(0, k as int));
        if allowed[k] {
            r.push(moves[k]);
        }
        k = k + 1;
    }
    assert(moves@.subrange(0, moves@.len() as int) =~= moves@);
    r
}

#[verifier::external_type_specification]
#[verifier::external_body]
pub struct ExMovingAiMap(MovingAiMap);

/// Relies on movingai's `Map2D::width` for `MovingAiMap`: the map's number
/// of columns.
#[verifier::external_body]
fn map_width(map: &MovingAiMap) -> usize {
    map.width()
}

/// Relies on movingai's `Map2D::height` for `MovingAiMap`: the map's number
/// of rows.
#[verifier::external_body]
fn map_height(map: &MovingAiMap) -> usize {
    map.height()
}

/// Relies on movingai's `Map2D::is_traversable_from` for `MovingAiMap`:
/// whether the map's terrain lets a unit step from `from` to `to`.
#[verifier::external_body]
fn traversable_from(map: &MovingAiMap, from: (usize, usize), to: (usize, usize)) -> bool {
    map.is_traversable_from(from, to)
}

/// A MovingAI map with its width and height, read from it once.
pub struct GridMap {
    map: MovingAiMap,
    width: usize,
    height: usize,
}

impl GridMap {
    /// The number of columns the map reported.
    pub closed spec fn width_spec(&self) -> usize {
        self.width
    }

    /// The number of rows the map reported.
    pub closed spec fn height_spec(&self) -> usize {
        self.height
    }

    /// Wraps `map`, asking it for its width and height.
    pub fn new(map: MovingAiMap) -> (r: Self) {
        let width = map_width(&map);
        let height = map_height(&map);
        GridMap { map, width, height }
    }

    /// The wrapped map.
    pub fn map(&self) -> &MovingAiMap {
        &self.map
    }

    pub fn width(&self) -> (r: usize)
        ensures
            r == self.width_spec(),
    {
        self.width
    }

    pub fn height(&self) -> (r: usize)
        ensures
            r == self.height_spec(),
    {
        self.height
    }

    /// The moves out of `tile` that stay on the map's grid and that its
    /// terrain allows, in the order of `moves_within`.
    pub fn neighbors(&self, tile: (usize, usize)) -> (r: Vec<((usize, usize), Weight)>)
        ensures
            exists|allowed: Seq<bool>|
                allowed.len() == grid_moves(
                    self.width_spec() as int,
                    self.height_spec() as int,
                    tile.0 as int,
                    tile.1 as int,
                ).len() && r@ == kept(
                    grid_moves(
                        self.width_spec() as int,
                        self.height_spec() as int,
                        tile.0 as int,
                        tile.1 as int,
                    ),
                    allowed,
                ),
    {
        let moves = moves_within(self.width, self.height, tile.0, tile.1);
        let mut allowed: Vec<bool> = Vec::with_capacity(moves.len());
        let mut k: usize = 0;
        while k < moves.len()
            invariant
                k <= moves@.len(),
                allowed@.len() == k,
            decreases moves@.len() - k,
        {
            allowed.push(traversable_from(&self.map, tile, moves[k].0));
            k = k + 1;
        }
        let r = keep_allowed(&moves, &allowed);
        assert(allowed@.len() == grid_moves(
            self.width_spec() as int,
            self.height_spec() as int,
            tile.0 as int,
            tile.1 as int,
        ).len() && r@ == kept(
            grid_moves(self.width_spec() as int, self.height_spec() as int, tile.0 as int, tile.1 as int),
            allowed@,
        ));
        r
    }
}

} // verus!
