//! Geometry primitives in two coordinate spaces.
//!
//! *Tile space* has integer coordinates. *Map space* is fixed-point: one tile
//! is [`UNITS_PER_TILE`] units, so every coordinate that has at most six
//! decimal places is exact. In both spaces `+x` is right and `+y` is down.

use vstd::arithmetic::div_mod::lemma_fundamental_div_mod;
use vstd::arithmetic::div_mod::lemma_fundamental_div_mod_converse;
use vstd::arithmetic::div_mod::lemma_mod_bound;
use vstd::prelude::*;

verus! {

/// Map-space units in one tile.
pub const UNITS_PER_TILE: i64 = 1_000_000;

/// Half a tile, in map-space units.
pub const HALF_TILE: i64 = 500_000;

/// The tolerance by which a box grows before it is rounded to the tiles whose
/// centres it covers: the smallest map-space step.
pub const ROUND_EPS: i64 = 1;

/// The largest magnitude of a coordinate of the world: two thousand million
/// tiles, so that every point of the world lies in a tile of tile space.
pub const MAX_COORD: i64 = 2_000_000_000_000_000;

/// `x / d` rounded towards negative infinity.
pub open spec fn floor_div(x: int, d: int) -> int {
    x / d
}

/// `x / d` rounded towards positive infinity.
pub open spec fn ceil_div(x: int, d: int) -> int {
    if x % d == 0 {
        x / d
    } else {
        x / d + 1
    }
}

/// The tile coordinate that holds map coordinate `x`.
pub open spec fn tile_floor(x: int) -> int {
    floor_div(x, UNITS_PER_TILE as int)
}

/// The smallest tile coordinate whose corner is at or after map coordinate `x`.
pub open spec fn tile_ceil(x: int) -> int {
    ceil_div(x, UNITS_PER_TILE as int)
}

/// The tile coordinate nearest to map coordinate `x`; a half rounds up.
pub open spec fn tile_round(x: int) -> int {
    floor_div(x + HALF_TILE, UNITS_PER_TILE as int)
}

/// Whether a tile coordinate fits the machine type of tile space.
pub open spec fn fits_i32(v: int) -> bool {
    i32::MIN <= v <= i32::MAX
}

/// Whether a map coordinate fits the machine type of map space.
pub open spec fn fits_i64(v: int) -> bool {
    i64::MIN <= v <= i64::MAX
}

/// Floor of `x / UNITS_PER_TILE`.
pub fn tile_floor_of(x: i64) -> (r: i64)
    ensures
        r == tile_floor(x as int),
        r * UNITS_PER_TILE <= x < (r + 1) * UNITS_PER_TILE,
{
    proof {
        lemma_fundamental_div_mod(x as int, UNITS_PER_TILE as int);
        lemma_mod_bound(x as int, UNITS_PER_TILE as int);
    }
    match x.checked_div_euclid(UNITS_PER_TILE) {
        Some(q) => q,
        None => 0,
    }
}

/// Ceiling of `x / UNITS_PER_TILE`.
pub fn tile_ceil_of(x: i64) -> (r: i64)
    ensures
        r == tile_ceil(x as int),
        (r - 1) * UNITS_PER_TILE < x <= r * UNITS_PER_TILE,
{
    proof {
        lemma_fundamental_div_mod(x as int, UNITS_PER_TILE as int);
        lemma_mod_bound(x as int, UNITS_PER_TILE as int);
    }
    let q = tile_floor_of(x);
    let exact = match x.checked_rem_euclid(UNITS_PER_TILE) {
        Some(m) => m == 0,
        None => true,
    };
    if exact {
        q
    } else {
        q + 1
    }
}

/// A tile, by its integer coordinates.
#[derive(Clone, Copy, Debug, PartialEq, Eq, Structural, Hash)]
pub struct TilePosition {
    pub x: i32,
    pub y: i32,
}

/// A point of map space, in fixed-point units.
#[derive(Clone, Copy, Debug, PartialEq, Eq, Structural, Hash)]
pub struct MapPosition {
    pub x: i64,
    pub y: i64,
}

/// A half-open box of tiles: `min` is inside, `max` is outside.
#[derive(Clone, Copy, Debug, PartialEq, Eq, Structural, Hash)]
pub struct TileBoundingBox {
    pub min: TilePosition,
    pub max: TilePosition,
}

/// An axis-aligned box of map space.
#[derive(Clone, Copy, Debug, PartialEq, Eq, Structural, Hash)]
pub struct BoundingBox {
    pub min: MapPosition,
    pub max: MapPosition,
}

/// One of the four directions an entity can face.
#[derive(Clone, Copy, Debug, PartialEq, Eq, Structural)]
pub enum CardinalDirection {
    North,
    East,
    South,
    West,
}

impl CardinalDirection {
    /// The direction that the eight-way value `dir` folds to.
    pub open spec fn spec_from_u8_rounding(dir: u8) -> CardinalDirection {
        let d = (dir % 8) / 2;
        if d == 0 {
            CardinalDirection::North
        } else if d == 1 {
            CardinalDirection::East
        } else if d == 2 {
            CardinalDirection::South
        } else {
            CardinalDirection::West
        }
    }

    /// Folds an eight-way direction to a cardinal one: 0 and 1 face north,
    /// 2 and 3 east, 4 and 5 south, 6 and 7 west.
    pub fn from_u8_rounding(dir: u8) -> (r: CardinalDirection)
        ensures
            r == Self::spec_from_u8_rounding(dir),
    {
        let d = (dir % 8) / 2;
        if d == 0 {
            CardinalDirection::North
        } else if d == 1 {
            CardinalDirection::East
        } else if d == 2 {
            CardinalDirection::South
        } else {
            CardinalDirection::West
        }
    }
}

impl TilePosition {
    pub fn new(x: i32, y: i32) -> (r: TilePosition)
        ensures
            r.x == x,
            r.y == y,
    {
        TilePosition { x, y }
    }

    /// The pair `(x, y)`, by which tiles are ordered and looked up.
    pub open spec fn key(self) -> (i32, i32) {
        (self.x, self.y)
    }

    pub fn to_tuple(self) -> (r: (i32, i32))
        ensures
            r == self.key(),
    {
        (self.x, self.y)
    }

    pub fn from_tuple(t: (i32, i32)) -> (r: TilePosition)
        ensures
            r.key() == t,
    {
        TilePosition { x: t.0, y: t.1 }
    }

    pub open spec fn spec_center_map_pos(self) -> MapPosition {
        MapPosition {
            x: (self.x * UNITS_PER_TILE + HALF_TILE) as i64,
            y: (self.y * UNITS_PER_TILE + HALF_TILE) as i64,
        }
    }

    pub open spec fn spec_corner_map_pos(self) -> MapPosition {
        MapPosition {
            x: (self.x * UNITS_PER_TILE) as i64,
            y: (self.y * UNITS_PER_TILE) as i64,
        }
    }

    /// The centre of the tile in map coordinates.
    pub fn center_map_pos(self) -> (r: MapPosition)
        ensures
            r == self.spec_center_map_pos(),
            r.x == self.x * UNITS_PER_TILE + HALF_TILE,
            r.y == self.y * UNITS_PER_TILE + HALF_TILE,
    {
        let x: i64 = self.x as i64;
        let y: i64 = self.y as i64;
        MapPosition { x: x * UNITS_PER_TILE + HALF_TILE, y: y * UNITS_PER_TILE + HALF_TILE }
    }

    /// The top-left corner of the tile in map coordinates.
    pub fn corner_map_pos(self) -> (r: MapPosition)
        ensures
            r == self.spec_corner_map_pos(),
            r.x == self.x * UNITS_PER_TILE,
            r.y == self.y * UNITS_PER_TILE,
    {
        let x: i64 = self.x as i64;
        let y: i64 = self.y as i64;
        MapPosition { x: x * UNITS_PER_TILE, y: y * UNITS_PER_TILE }
    }

    /// Whether the tile moved by `(dx, dy)` is still a tile.
    pub open spec fn can_offset(self, dx: int, dy: int) -> bool {
        fits_i32(self.x + dx) && fits_i32(self.y + dy)
    }

    pub open spec fn spec_offset(self, dx: int, dy: int) -> TilePosition {
        TilePosition { x: (self.x + dx) as i32, y: (self.y + dy) as i32 }
    }

    /// The tile `dx` to the right and `dy` below.
    pub fn offset(self, dx: i32, dy: i32) -> (r: TilePosition)
        requires
            self.can_offset(dx as int, dy as int),
        ensures
            r == self.spec_offset(dx as int, dy as int),
            r.x == self.x + dx,
            r.y == self.y + dy,
    {
        TilePosition { x: self.x + dx, y: self.y + dy }
    }

    pub open spec fn spec_rotate(self, direction: CardinalDirection) -> TilePosition {
        match direction {
            CardinalDirection::North => self,
            CardinalDirection::East => TilePosition { x: (-self.y) as i32, y: self.x },
            CardinalDirection::South => TilePosition { x: (-self.x) as i32, y: (-self.y) as i32 },
            CardinalDirection::West => TilePosition { x: self.y, y: (-self.x) as i32 },
        }
    }

    /// The point turned about the origin, with `y` pointing down: east maps
    /// `(x, y)` to `(-y, x)`, south to `(-x, -y)`, west to `(y, -x)`.
    pub fn rotate(&self, direction: CardinalDirection) -> (r: TilePosition)
        requires
            self.x > i32::MIN,
            self.y > i32::MIN,
        ensures
            r == self.spec_rotate(direction),
    {
        match direction {
            CardinalDirection::North => *self,
            CardinalDirection::East => TilePosition { x: -self.y, y: self.x },
            CardinalDirection::South => TilePosition { x: -self.x, y: -self.y },
            CardinalDirection::West => TilePosition { x: self.y, y: -self.x },
        }
    }
}

impl MapPosition {
    pub fn new(x: i64, y: i64) -> (r: MapPosition)
        ensures
            r.x == x,
            r.y == y,
    {
        MapPosition { x, y }
    }

    /// Whether the tile that holds this point has coordinates in tile space.
    pub open spec fn has_tile(self) -> bool {
        fits_i32(tile_floor(self.x as int)) && fits_i32(tile_floor(self.y as int))
    }

    pub open spec fn spec_tile_pos(self) -> TilePosition {
        TilePosition { x: tile_floor(self.x as int) as i32, y: tile_floor(self.y as int) as i32 }
    }

    /// The tile this point is in: both coordinates rounded down.
    pub fn tile_pos(&self) -> (r: TilePosition)
        requires
            self.has_tile(),
        ensures
            r == self.spec_tile_pos(),
            r.x == tile_floor(self.x as int),
            r.y == tile_floor(self.y as int),
    {
        let tx = tile_floor_of(self.x);
        let ty = tile_floor_of(self.y);
        TilePosition { x: tx as i32, y: ty as i32 }
    }

    /// Whether the point moved by `(dx, dy)` is still a point of map space.
    pub open spec fn can_translate(self, dx: int, dy: int) -> bool {
        fits_i64(self.x + dx) && fits_i64(self.y + dy)
    }

    pub open spec fn spec_translate(self, dx: int, dy: int) -> MapPosition {
        MapPosition { x: (self.x + dx) as i64, y: (self.y + dy) as i64 }
    }

    /// The point moved by `(dx, dy)`.
    pub fn translate(&self, dx: i64, dy: i64) -> (r: MapPosition)
        requires
            self.can_translate(dx as int, dy as int),
        ensures
            r == self.spec_translate(dx as int, dy as int),
            r.x == self.x + dx,
            r.y == self.y + dy,
    {
        MapPosition { x: self.x + dx, y: self.y + dy }
    }

    pub open spec fn spec_rotate(self, direction: CardinalDirection) -> MapPosition {
        match direction {
            CardinalDirection::North => self,
            CardinalDirection::East => MapPosition { x: (-self.y) as i64, y: self.x },
            CardinalDirection::South => MapPosition { x: (-self.x) as i64, y: (-self.y) as i64 },
            CardinalDirection::West => MapPosition { x: self.y, y: (-self.x) as i64 },
        }
    }

    /// The point turned about the origin, with `y` pointing down: east maps
    /// `(x, y)` to `(-y, x)`, south to `(-x, -y)`, west to `(y, -x)`.
    pub fn rotate(&self, direction: CardinalDirection) -> (r: MapPosition)
        requires
            self.x > i64::MIN,
            self.y > i64::MIN,
        ensures
            r == self.spec_rotate(direction),
    {
        match direction {
            CardinalDirection::North => *self,
            CardinalDirection::East => MapPosition { x: -self.y, y: self.x },
            CardinalDirection::South => MapPosition { x: -self.x, y: -self.y },
            CardinalDirection::West => MapPosition { x: self.y, y: -self.x },
        }
    }

    /// The squared Euclidean distance between two points, in squared units.
    pub open spec fn spec_square_distance(self, other: MapPosition) -> int {
        (self.x - other.x) * (self.x - other.x) + (self.y - other.y) * (self.y - other.y)
    }

    /// Whether the point lies in the world: no coordinate beyond [`MAX_COORD`].
    pub open spec fn in_world(self) -> bool {
        &&& -MAX_COORD <= self.x <= MAX_COORD
        &&& -MAX_COORD <= self.y <= MAX_COORD
    }

    /// Whether the point lies in the world.
    pub fn is_in_world(&self) -> (r: bool)
        ensures
            r == self.in_world(),
    {
        -MAX_COORD <= self.x && self.x <= MAX_COORD && -MAX_COORD <= self.y && self.y <= MAX_COORD
    }

    /// Every point of the world lies in a tile.
    pub proof fn lemma_in_world_has_tile(self)
        requires
            self.in_world(),
        ensures
            self.has_tile(),
            -2_000_000_000 <= tile_floor(self.x as int) <= 2_000_000_000,
            -2_000_000_000 <= tile_floor(self.y as int) <= 2_000_000_000,
    {
        lemma_fundamental_div_mod(self.x as int, UNITS_PER_TILE as int);
        lemma_mod_bound(self.x as int, UNITS_PER_TILE as int);
        lemma_fundamental_div_mod(self.y as int, UNITS_PER_TILE as int);
        lemma_mod_bound(self.y as int, UNITS_PER_TILE as int);
    }

    /// The squared Euclidean distance to `other`, in squared units.
    pub fn square_distance(&self, other: &MapPosition) -> (r: u128)
        requires
            self.in_world(),
            other.in_world(),
        ensures
            r == self.spec_square_distance(*other),
            r <= 32_000_000_000_000_000_000_000_000_000_000,
    {
        let dx: i128 = self.x as i128 - other.x as i128;
        let dy: i128 = self.y as i128 - other.y as i128;
        assert(0 <= dx * dx <= 16_000_000_000_000_000_000_000_000_000_000) by (nonlinear_arith)
            requires
                -4_000_000_000_000_000 <= dx <= 4_000_000_000_000_000,
        ;
        assert(0 <= dy * dy <= 16_000_000_000_000_000_000_000_000_000_000) by (nonlinear_arith)
            requires
                -4_000_000_000_000_000 <= dy <= 4_000_000_000_000_000,
        ;
        let sx: i128 = dx * dx;
        let sy: i128 = dy * dy;
        (sx + sy) as u128
    }
}

impl TileBoundingBox {
    pub fn new(min: TilePosition, max: TilePosition) -> (r: TileBoundingBox)
        ensures
            r.min == min,
            r.max == max,
    {
        TileBoundingBox { min, max }
    }

    /// The number of tile columns in the box.
    pub open spec fn width(self) -> int {
        if self.max.x > self.min.x {
            self.max.x - self.min.x
        } else {
            0
        }
    }

    /// The number of tile rows in the box.
    pub open spec fn height(self) -> int {
        if self.max.y > self.min.y {
            self.max.y - self.min.y
        } else {
            0
        }
    }

    /// Whether tile `t` lies in the box.
    pub open spec fn contains(self, t: TilePosition) -> bool {
        self.min.x <= t.x < self.max.x && self.min.y <= t.y < self.max.y
    }

    /// The tiles of the box, column by column, each column from top to bottom.
    pub open spec fn tiles(self) -> Seq<TilePosition> {
        Seq::new(
            (self.width() * self.height()) as nat,
            |k: int|
                TilePosition {
                    x: (self.min.x + k / self.height()) as i32,
                    y: (self.min.y + k % self.height()) as i32,
                },
        )
    }

    /// The position in `tiles()` of a tile of the box.
    pub open spec fn index_of(self, t: TilePosition) -> int {
        (t.x - self.min.x) * self.height() + (t.y - self.min.y)
    }

    /// Every tile of the box stands in `tiles()`, at `index_of`.
    pub proof fn lemma_tiles_index(self, t: TilePosition)
        requires
            self.contains(t),
        ensures
            0 <= self.index_of(t) < self.tiles().len(),
            self.tiles()[self.index_of(t)] == t,
    {
        let h = self.height();
        let w = self.width();
        let i = t.x - self.min.x;
        let j = t.y - self.min.y;
        let k = self.index_of(t);
        assert(0 <= i * h) by (nonlinear_arith)
            requires
                0 <= i,
                0 <= h,
        ;
        assert(i * h + h <= w * h) by (nonlinear_arith)
            requires
                i + 1 <= w,
                0 <= h,
        ;
        lemma_fundamental_div_mod_converse(k, h, i, j);
    }

    /// `tiles()` holds the tiles of the box and no others, each once.
    pub proof fn lemma_tiles(self)
        ensures
            self.tiles().no_duplicates(),
            forall|t: TilePosition| #[trigger] self.tiles().contains(t) <==> self.contains(t),
            forall|k: int|
                0 <= k < self.tiles().len() ==> self.contains(#[trigger] self.tiles()[k]),
    {
        let h = self.height();
        let w = self.width();
        let s = self.tiles();
        assert forall|k: int| 0 <= k < s.len() implies self.contains(#[trigger] s[k]) && k
            == self.index_of(s[k]) by {
            assert(h > 0 && w > 0) by (nonlinear_arith)
                requires
                    0 <= k < w * h,
                    0 <= w,
                    0 <= h,
            ;
            lemma_fundamental_div_mod(k, h);
            lemma_mod_bound(k, h);
            let q = k / h;
            assert(0 <= q < w) by (nonlinear_arith)
                requires
                    k == h * q + k % h,
                    0 <= k % h < h,
                    0 <= k < w * h,
                    h > 0,
            ;
            assert(h * q == q * h) by (nonlinear_arith);
        }
        assert forall|t: TilePosition| #[trigger] s.contains(t) <==> self.contains(t) by {
            if self.contains(t) {
                self.lemma_tiles_index(t);
            }
        }
        assert forall|a: int, b: int| 0 <= a < s.len() && 0 <= b < s.len() && a != b implies s[a]
            != s[b] by {
            assert(a == self.index_of(s[a]));
            assert(b == self.index_of(s[b]));
        }
    }

    /// All tiles of the box, column by column, each column from top to bottom.
    pub fn iter_tiles(self) -> (r: Vec<TilePosition>)
        ensures
            r@ == self.tiles(),
    {
        let mut out: Vec<TilePosition> = Vec::new();
        if self.max.x <= self.min.x || self.max.y <= self.min.y {
            proof {
                assert(self.width() * self.height() == 0) by (nonlinear_arith)
                    requires
                        self.width() == 0 || self.height() == 0,
                ;
                assert(out@ =~= self.tiles());
            }
            return out;
        }
        let ghost h = self.height();
        let ghost w = self.width();
        let mut x: i32 = self.min.x;
        while x < self.max.x
            invariant
                self.min.x <= x <= self.max.x,
                self.min.y < self.max.y,
                h == self.height(),
                w == self.width(),
                out@.len() == (x - self.min.x) * h,
                forall|k: int| 0 <= k < out@.len() ==> out@[k] == #[trigger] self.tiles()[k],
            decreases self.max.x - x,
        {
            let mut y: i32 = self.min.y;
            while y < self.max.y
                invariant
                    self.min.x <= x < self.max.x,
                    self.min.y <= y <= self.max.y,
                    h == self.height(),
                    w == self.width(),
                    out@.len() == (x - self.min.x) * h + (y - self.min.y),
                    forall|k: int| 0 <= k < out@.len() ==> out@[k] == #[trigger] self.tiles()[k],
                decreases self.max.y - y,
            {
                let t = TilePosition { x, y };
                proof {
                    self.lemma_tiles_index(t);
                }
                out.push(t);
                y = y + 1;
            }
            proof {
                assert((x - self.min.x) * h + h == (x + 1 - self.min.x) * h) by (nonlinear_arith);
            }
            x = x + 1;
        }
        proof {
            assert(out@.len() == w * h);
            assert(out@ =~= self.tiles());
        }
        out
    }

    /// Whether the far corner can move in by `amt` tiles.
    pub open spec fn can_contract_max(self, amt: int) -> bool {
        fits_i32(self.max.x - amt) && fits_i32(self.max.y - amt)
    }

    /// The box with its far corner moved in by `amt` tiles on both axes.
    pub fn contract_max(self, amt: i32) -> (r: TileBoundingBox)
        requires
            self.can_contract_max(amt as int),
        ensures
            r.min == self.min,
            r.max.x == self.max.x - amt,
            r.max.y == self.max.y - amt,
    {
        TileBoundingBox {
            min: self.min,
            max: TilePosition { x: self.max.x - amt, y: self.max.y - amt },
        }
    }

    /// Whether the box can grow by `width` columns and `height` rows on each side.
    pub open spec fn can_inflate(self, width: int, height: int) -> bool {
        &&& fits_i32(self.min.x - width)
        &&& fits_i32(self.min.y - height)
        &&& fits_i32(self.max.x + width)
        &&& fits_i32(self.max.y + height)
    }

    /// The box grown by `width` columns and `height` rows on every side.
    pub fn inflate(self, width: i32, height: i32) -> (r: TileBoundingBox)
        requires
            self.can_inflate(width as int, height as int),
        ensures
            r.min.x == self.min.x - width,
            r.min.y == self.min.y - height,
            r.max.x == self.max.x + width,
            r.max.y == self.max.y + height,
    {
        TileBoundingBox {
            min: TilePosition { x: self.min.x - width, y: self.min.y - height },
            max: TilePosition { x: self.max.x + width, y: self.max.y + height },
        }
    }

    pub open spec fn spec_rotate(self, direction: CardinalDirection) -> TileBoundingBox {
        match direction {
            CardinalDirection::North => self,
            CardinalDirection::East => TileBoundingBox {
                min: TilePosition { x: (-self.max.y) as i32, y: self.min.x },
                max: TilePosition { x: (-self.min.y) as i32, y: self.max.x },
            },
            CardinalDirection::South => TileBoundingBox {
                min: TilePosition { x: (-self.max.x) as i32, y: (-self.max.y) as i32 },
                max: TilePosition { x: (-self.min.x) as i32, y: (-self.min.y) as i32 },
            },
            CardinalDirection::West => TileBoundingBox {
                min: TilePosition { x: self.min.y, y: (-self.max.x) as i32 },
                max: TilePosition { x: self.max.y, y: (-self.min.x) as i32 },
            },
        }
    }

    /// The box turned about the origin; its corners are put in order again.
    pub fn rotate(&self, direction: CardinalDirection) -> (r: TileBoundingBox)
        requires
            self.min.x > i32::MIN,
            self.min.y > i32::MIN,
            self.max.x > i32::MIN,
            self.max.y > i32::MIN,
        ensures
            r == self.spec_rotate(direction),
    {
        match direction {
            CardinalDirection::North => *self,
            CardinalDirection::East => TileBoundingBox {
                min: TilePosition { x: -self.max.y, y: self.min.x },
                max: TilePosition { x: -self.min.y, y: self.max.x },
            },
            CardinalDirection::South => TileBoundingBox {
                min: TilePosition { x: -self.max.x, y: -self.max.y },
                max: TilePosition { x: -self.min.x, y: -self.min.y },
            },
            CardinalDirection::West => TileBoundingBox {
                min: TilePosition { x: self.min.y, y: -self.max.x },
                max: TilePosition { x: self.max.y, y: -self.min.x },
            },
        }
    }
}

impl BoundingBox {
    pub fn new(min: MapPosition, max: MapPosition) -> (r: BoundingBox)
        ensures
            r.min == min,
            r.max == max,
    {
        BoundingBox { min, max }
    }

    /// Whether every corner, rounded to a tile in any of the three ways, has
    /// coordinates in tile space.
    pub open spec fn has_tiles(self) -> bool {
        &&& fits_i32(tile_floor(self.min.x - ROUND_EPS))
        &&& fits_i32(tile_floor(self.min.y - ROUND_EPS))
        &&& fits_i32(tile_floor(self.max.x + ROUND_EPS + HALF_TILE))
        &&& fits_i32(tile_floor(self.max.y + ROUND_EPS + HALF_TILE))
        &&& fits_i32(tile_ceil(self.max.x as int))
        &&& fits_i32(tile_ceil(self.max.y as int))
        &&& fits_i32(tile_floor(self.min.x as int))
        &&& fits_i32(tile_floor(self.min.y as int))
        &&& fits_i32(tile_round(self.min.x - ROUND_EPS))
        &&& fits_i32(tile_round(self.min.y - ROUND_EPS))
    }

    pub open spec fn spec_round_out_to_tiles(self) -> TileBoundingBox {
        TileBoundingBox {
            min: TilePosition {
                x: tile_floor(self.min.x as int) as i32,
                y: tile_floor(self.min.y as int) as i32,
            },
            max: TilePosition {
                x: tile_ceil(self.max.x as int) as i32,
                y: tile_ceil(self.max.y as int) as i32,
            },
        }
    }

    /// The smallest box of tiles that contains this box: `min` rounds down,
    /// `max` rounds up.
    pub fn round_out_to_tiles(&self) -> (r: TileBoundingBox)
        requires
            self.has_tiles(),
        ensures
            r == self.spec_round_out_to_tiles(),
    {
        let x0 = tile_floor_of(self.min.x);
        let y0 = tile_floor_of(self.min.y);
        let x1 = tile_ceil_of(self.max.x);
        let y1 = tile_ceil_of(self.max.y);
        TileBoundingBox {
            min: TilePosition { x: x0 as i32, y: y0 as i32 },
            max: TilePosition { x: x1 as i32, y: y1 as i32 },
        }
    }

    pub open spec fn spec_round_to_tiles_covering_center(self) -> TileBoundingBox {
        TileBoundingBox {
            min: TilePosition {
                x: tile_round(self.min.x - ROUND_EPS) as i32,
                y: tile_round(self.min.y - ROUND_EPS) as i32,
            },
            max: TilePosition {
                x: tile_round(self.max.x + ROUND_EPS) as i32,
                y: tile_round(self.max.y + ROUND_EPS) as i32,
            },
        }
    }

    /// The tiles whose centre the box covers. The box first grows by
    /// [`ROUND_EPS`] on every side, then each corner rounds to the nearest tile
    /// corner, so a tile whose centre lies exactly on the edge is covered.
    pub fn round_to_tiles_covering_center(&self) -> (r: TileBoundingBox)
        requires
            self.has_tiles(),
            fits_i64(self.min.x - ROUND_EPS),
            fits_i64(self.min.y - ROUND_EPS),
            fits_i64(self.max.x + ROUND_EPS + HALF_TILE),
            fits_i64(self.max.y + ROUND_EPS + HALF_TILE),
        ensures
            r == self.spec_round_to_tiles_covering_center(),
    {
        let x0 = tile_floor_of(self.min.x - ROUND_EPS + HALF_TILE);
        let y0 = tile_floor_of(self.min.y - ROUND_EPS + HALF_TILE);
        let x1 = tile_floor_of(self.max.x + ROUND_EPS + HALF_TILE);
        let y1 = tile_floor_of(self.max.y + ROUND_EPS + HALF_TILE);
        TileBoundingBox {
            min: TilePosition { x: x0 as i32, y: y0 as i32 },
            max: TilePosition { x: x1 as i32, y: y1 as i32 },
        }
    }

    /// Whether a square of half side `radius` about `center` is a box of map space.
    pub open spec fn can_surround(center: MapPosition, radius: int) -> bool {
        center.can_translate(-radius, -radius) && center.can_translate(radius, radius)
    }

    /// The square box with `center` in its middle and sides `2 * radius` long.
    pub fn around_point(center: MapPosition, radius: i64) -> (r: BoundingBox)
        requires
            Self::can_surround(center, radius as int),
        ensures
            r.min.x == center.x - radius,
            r.min.y == center.y - radius,
            r.max.x == center.x + radius,
            r.max.y == center.y + radius,
    {
        BoundingBox {
            min: MapPosition { x: center.x - radius, y: center.y - radius },
            max: MapPosition { x: center.x + radius, y: center.y + radius },
        }
    }

    /// Whether the box moved by `(dx, dy)` is still a box of map space.
    pub open spec fn can_translate(self, dx: int, dy: int) -> bool {
        self.min.can_translate(dx, dy) && self.max.can_translate(dx, dy)
    }

    pub open spec fn spec_translate(self, dx: int, dy: int) -> BoundingBox {
        BoundingBox { min: self.min.spec_translate(dx, dy), max: self.max.spec_translate(dx, dy) }
    }

    /// The box moved by `(dx, dy)`.
    pub fn translate(&self, dx: i64, dy: i64) -> (r: BoundingBox)
        requires
            self.can_translate(dx as int, dy as int),
        ensures
            r == self.spec_translate(dx as int, dy as int),
    {
        BoundingBox { min: self.min.translate(dx, dy), max: self.max.translate(dx, dy) }
    }

    /// Whether the far corner can move in by `amt` units.
    pub open spec fn can_contract_max(self, amt: int) -> bool {
        fits_i64(self.max.x - amt) && fits_i64(self.max.y - amt)
    }

    /// The box with its far corner moved in by `amt` units on both axes.
    pub fn contract_max(self, amt: i64) -> (r: BoundingBox)
        requires
            self.can_contract_max(amt as int),
        ensures
            r.min == self.min,
            r.max.x == self.max.x - amt,
            r.max.y == self.max.y - amt,
    {
        BoundingBox { min: self.min, max: MapPosition { x: self.max.x - amt, y: self.max.y - amt } }
    }

    pub open spec fn spec_rotate(self, direction: CardinalDirection) -> BoundingBox {
        match direction {
            CardinalDirection::North => self,
            CardinalDirection::East => BoundingBox {
                min: MapPosition { x: (-self.max.y) as i64, y: self.min.x },
                max: MapPosition { x: (-self.min.y) as i64, y: self.max.x },
            },
            CardinalDirection::South => BoundingBox {
                min: MapPosition { x: (-self.max.x) as i64, y: (-self.max.y) as i64 },
                max: MapPosition { x: (-self.min.x) as i64, y: (-self.min.y) as i64 },
            },
            CardinalDirection::West => BoundingBox {
                min: MapPosition { x: self.min.y, y: (-self.max.x) as i64 },
                max: MapPosition { x: self.max.y, y: (-self.min.x) as i64 },
            },
        }
    }

    /// The box turned about the origin; its corners are put in order again.
    pub fn rotate(&self, direction: CardinalDirection) -> (r: BoundingBox)
        requires
            self.min.x > i64::MIN,
            self.min.y > i64::MIN,
            self.max.x > i64::MIN,
            self.max.y > i64::MIN,
        ensures
            r == self.spec_rotate(direction),
    {
        match direction {
            CardinalDirection::North => *self,
            CardinalDirection::East => BoundingBox {
                min: MapPosition { x: -self.max.y, y: self.min.x },
                max: MapPosition { x: -self.min.y, y: self.max.x },
            },
            CardinalDirection::South => BoundingBox {
                min: MapPosition { x: -self.max.x, y: -self.max.y },
                max: MapPosition { x: -self.min.x, y: -self.min.y },
            },
            CardinalDirection::West => BoundingBox {
                min: MapPosition { x: self.min.y, y: -self.max.x },
                max: MapPosition { x: self.max.y, y: -self.min.x },
            },
        }
    }

    /// All tiles that the box overlaps, column by column.
    pub fn iter_tiles(self) -> (r: Vec<TilePosition>)
        requires
            self.has_tiles(),
        ensures
            r@ == self.spec_round_out_to_tiles().tiles(),
    {
        self.round_out_to_tiles().iter_tiles()
    }
}

/// Rotating a box by a direction gives the box spanned by its two rotated
/// corners.
pub proof fn lemma_rotate_box_is_rotated_corners(b: BoundingBox, direction: CardinalDirection)
    requires
        b.min.x <= b.max.x,
        b.min.y <= b.max.y,
        b.min.x > i64::MIN,
        b.min.y > i64::MIN,
    ensures
        ({
            let p = b.min.spec_rotate(direction);
            let q = b.max.spec_rotate(direction);
            let r = b.spec_rotate(direction);
            &&& r.min.x == (if p.x <= q.x { p.x } else { q.x })
            &&& r.min.y == (if p.y <= q.y { p.y } else { q.y })
            &&& r.max.x == (if p.x <= q.x { q.x } else { p.x })
            &&& r.max.y == (if p.y <= q.y { q.y } else { p.y })
        }),
{
}

} // verus!

verus! {

/// A box whose corners lie within a little more than a thousand tiles of
/// the world has tiles under each of the three ways of rounding.
pub proof fn lemma_box_has_tiles(b: BoundingBox)
    requires
        -MAX_COORD - 1_000_001_000 <= b.min.x <= MAX_COORD + 1_000_001_000,
        -MAX_COORD - 1_000_001_000 <= b.min.y <= MAX_COORD + 1_000_001_000,
        -MAX_COORD - 1_000_001_000 <= b.max.x <= MAX_COORD + 1_000_001_000,
        -MAX_COORD - 1_000_001_000 <= b.max.y <= MAX_COORD + 1_000_001_000,
    ensures
        b.has_tiles(),
        -2_000_001_001 <= b.spec_round_out_to_tiles().min.x <= 2_000_001_001,
        -2_000_001_001 <= b.spec_round_out_to_tiles().min.y <= 2_000_001_001,
        -2_000_001_001 <= b.spec_round_out_to_tiles().max.x <= 2_000_001_001,
        -2_000_001_001 <= b.spec_round_out_to_tiles().max.y <= 2_000_001_001,
        -2_000_001_001 <= b.spec_round_to_tiles_covering_center().min.x <= 2_000_001_001,
        -2_000_001_001 <= b.spec_round_to_tiles_covering_center().min.y <= 2_000_001_001,
        -2_000_001_001 <= b.spec_round_to_tiles_covering_center().max.x <= 2_000_001_001,
        -2_000_001_001 <= b.spec_round_to_tiles_covering_center().max.y <= 2_000_001_001,
{
    lemma_tile_floor_bounds(b.min.x as int);
    lemma_tile_floor_bounds(b.min.y as int);
    lemma_tile_floor_bounds(b.max.x as int);
    lemma_tile_floor_bounds(b.max.y as int);
    lemma_tile_floor_bounds(b.min.x - ROUND_EPS);
    lemma_tile_floor_bounds(b.min.y - ROUND_EPS);
    lemma_tile_floor_bounds(b.min.x - ROUND_EPS + HALF_TILE);
    lemma_tile_floor_bounds(b.min.y - ROUND_EPS + HALF_TILE);
    lemma_tile_floor_bounds(b.max.x + ROUND_EPS + HALF_TILE);
    lemma_tile_floor_bounds(b.max.y + ROUND_EPS + HALF_TILE);
}

/// The tile that holds `x` starts at or before `x` and ends after it.
/// The corner of the tile that `tile_ceil` gives lies at or after `x`, and
/// less than a tile after it.
pub proof fn lemma_tile_ceil_bounds(x: int)
    ensures
        (tile_ceil(x) - 1) * UNITS_PER_TILE < x <= tile_ceil(x) * UNITS_PER_TILE,
{
    lemma_fundamental_div_mod(x, UNITS_PER_TILE as int);
    lemma_mod_bound(x, UNITS_PER_TILE as int);
}

pub proof fn lemma_tile_floor_bounds(x: int)
    ensures
        tile_floor(x) * UNITS_PER_TILE <= x < (tile_floor(x) + 1) * UNITS_PER_TILE,
        tile_floor(x) <= tile_ceil(x) <= tile_floor(x) + 1,
{
    lemma_fundamental_div_mod(x, UNITS_PER_TILE as int);
    lemma_mod_bound(x, UNITS_PER_TILE as int);
}

} // verus!

verus! {

/// Whether `r` is the square root of `x`, rounded down.
pub open spec fn is_floor_sqrt(x: int, r: int) -> bool {
    0 <= r && r * r <= x < (r + 1) * (r + 1)
}

/// The square root of `x`, rounded down.
pub open spec fn floor_sqrt(x: int) -> int {
    choose|r: int| is_floor_sqrt(x, r)
}

/// Only one number is the square root of `x` rounded down.
pub proof fn lemma_floor_sqrt_unique(x: int, r: int)
    requires
        is_floor_sqrt(x, r),
    ensures
        floor_sqrt(x) == r,
{
    let s = floor_sqrt(x);
    assert(is_floor_sqrt(x, s));
    if s < r {
        assert((s + 1) * (s + 1) <= r * r) by (nonlinear_arith)
            requires
                0 <= s + 1 <= r,
        ;
    } else if r < s {
        assert((r + 1) * (r + 1) <= s * s) by (nonlinear_arith)
            requires
                0 <= r + 1 <= s,
        ;
    }
}

/// A larger number has no smaller root.
pub proof fn lemma_floor_sqrt_bound(x: int, bound: int)
    requires
        0 <= x < (bound + 1) * (bound + 1),
        0 <= bound,
        exists|r: int| is_floor_sqrt(x, r),
    ensures
        0 <= floor_sqrt(x) <= bound,
{
    let s = floor_sqrt(x);
    assert(is_floor_sqrt(x, s));
    if s > bound {
        assert((bound + 1) * (bound + 1) <= s * s) by (nonlinear_arith)
            requires
                0 <= bound + 1 <= s,
        ;
    }
}

/// The square root of `x`, rounded down, for `x` up to the largest squared
/// distance between two points of the world.
pub fn isqrt(x: u128) -> (r: u64)
    requires
        x <= 32_000_000_000_000_000_000_000_000_000_000,
    ensures
        is_floor_sqrt(x as int, r as int),
        r == floor_sqrt(x as int),
        r <= 6_000_000_000_000_000,
{
    let mut lo: u128 = 0;
    let mut hi: u128 = 6_000_000_000_000_000;
    assert(hi * hi > x) by (nonlinear_arith)
        requires
            hi == 6_000_000_000_000_000,
            x <= 32_000_000_000_000_000_000_000_000_000_000,
    ;
    while hi - lo > 1
        invariant
            0 <= lo < hi <= 6_000_000_000_000_000,
            lo * lo <= x,
            x < hi * hi,
        decreases hi - lo,
    {
        let mid: u128 = lo + (hi - lo) / 2;
        assert(mid * mid <= 6_000_000_000_000_000 * 6_000_000_000_000_000) by (nonlinear_arith)
            requires
                0 <= mid <= 6_000_000_000_000_000,
        ;
        if mid * mid <= x {
            lo = mid;
        } else {
            hi = mid;
        }
    }
    proof {
        assert(hi == lo + 1);
        lemma_floor_sqrt_unique(x as int, lo as int);
    }
    lo as u64
}

impl MapPosition {
    /// The Euclidean distance between two points, rounded down to a whole
    /// map-space unit.
    pub open spec fn spec_distance_to(self, other: MapPosition) -> int {
        floor_sqrt(self.spec_square_distance(other))
    }

    /// The Euclidean distance to `other`, rounded down to a whole map-space
    /// unit.
    pub fn distance_to(&self, other: &MapPosition) -> (r: u64)
        requires
            self.in_world(),
            other.in_world(),
        ensures
            r == self.spec_distance_to(*other),
            is_floor_sqrt(self.spec_square_distance(*other), r as int),
            r <= 6_000_000_000_000_000,
    {
        isqrt(self.square_distance(other))
    }
}

/// The distance between two points is the same from either of them.
pub proof fn lemma_distance_symmetric(a: MapPosition, b: MapPosition)
    ensures
        a.spec_square_distance(b) == b.spec_square_distance(a),
        a.spec_distance_to(b) == b.spec_distance_to(a),
{
    let dx = a.x - b.x;
    let dy = a.y - b.y;
    assert(dx * dx == (-dx) * (-dx)) by (nonlinear_arith);
    assert(dy * dy == (-dy) * (-dy)) by (nonlinear_arith);
}

/// A box edge that runs through the centres of a column or row of tiles
/// takes those tiles in, on whichever side of the box it lies: rounding the
/// near edge gives the tile itself, rounding the far edge the tile after it.
pub proof fn lemma_half_tile_edge_covers_both(tile: int)
    ensures
        tile_round(tile * UNITS_PER_TILE + HALF_TILE - ROUND_EPS) == tile,
        tile_round(tile * UNITS_PER_TILE + HALF_TILE + ROUND_EPS) == tile + 1,
{
    lemma_fundamental_div_mod_converse(
        tile * UNITS_PER_TILE + HALF_TILE - ROUND_EPS + HALF_TILE,
        UNITS_PER_TILE as int,
        tile,
        UNITS_PER_TILE - ROUND_EPS,
    );
    lemma_fundamental_div_mod_converse(
        tile * UNITS_PER_TILE + HALF_TILE + ROUND_EPS + HALF_TILE,
        UNITS_PER_TILE as int,
        tile + 1,
        ROUND_EPS as int,
    );
}

} // verus!
