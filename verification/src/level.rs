use vstd::prelude::*;

use crate::text::chars_of;
use crate::text::level_rows;
use crate::text::level_rows_of;
use crate::text::utf8_len;
use crate::text::utf8_len_of;

verus! {

/// Largest width or height of a level, in tiles. Tiles are addressed by
/// `i32` coordinates, and the spawn-zone search looks two tiles past every
/// tile of the grid, so `x + 2` must still fit an `i32` for the last column
/// (and likewise for rows): a wider or taller grid would overflow there.
pub const MAX_SIDE: usize = 0x7fff_fffe;

/// Integer tile coordinates: tile `(x, y)` is column `x` from the left and
/// row `y` from the bottom.
#[derive(Clone, Copy, PartialEq, Eq, Debug, Structural)]
pub struct TilePos {
    pub x: i32,
    pub y: i32,
}

impl TilePos {
    pub fn new(x: i32, y: i32) -> (r: TilePos)
        ensures
            r.x == x,
            r.y == y,
    {
        TilePos { x, y }
    }
}

/// The tile where the ship spawns, and respawns after death.
pub fn start_tile() -> (r: TilePos)
    ensures
        r.x == 7,
        r.y == 7,
{
    TilePos { x: 7, y: 7 }
}

/// Why a text does not describe a level.
#[derive(Clone, Copy, PartialEq, Eq, Debug, Structural)]
pub enum LevelError {
    /// No row has any non-blank character.
    Empty,
    /// Not every row has the same length in bytes as the first.
    Ragged,
    /// Wider or taller than `MAX_SIDE` tiles.
    TooLarge,
}

/// The abstract grid: `cells[y][x]` tells whether tile `(x, y)` is solid.
pub struct LevelView {
    pub width: nat,
    pub height: nat,
    pub cells: Seq<Seq<bool>>,
}

impl LevelView {
    pub open spec fn in_grid(self, x: int, y: int) -> bool {
        0 <= x < self.width && 0 <= y < self.height
    }

    /// Anything outside the grid counts as solid.
    pub open spec fn solid_at(self, x: int, y: int) -> bool {
        if self.in_grid(x, y) {
            self.cells[y][x]
        } else {
            true
        }
    }

    /// A tile with a clear 5x5 block around it: a chamber interior, never a
    /// corridor.
    pub open spec fn is_spawn_zone(self, x: int, y: int) -> bool {
        forall|dx: int, dy: int|
            -2 <= dx <= 2 && -2 <= dy <= 2 ==> !#[trigger] self.solid_at(x + dx, y + dy)
    }
}

/// Row-major order on tiles: bottom row first, left to right within a row.
pub open spec fn tile_before(a: TilePos, b: TilePos) -> bool {
    a.y < b.y || (a.y == b.y && a.x < b.x)
}

/// Whether column `x` of a row of level text is a wall: `#` is solid,
/// anything else (and anything past the end of the row) is open.
pub open spec fn row_cell(row: Seq<char>, x: int) -> bool {
    0 <= x < row.len() && row[x] == '#'
}

/// The grid that a list of rows describes: the first row is the top of the
/// level (highest `y`), the last row is `y = 0`. The width is the length in
/// bytes of the first row.
pub open spec fn grid_of_rows(rows: Seq<Seq<char>>) -> LevelView {
    let h = rows.len();
    let w = utf8_len(rows[0]);
    LevelView {
        width: w,
        height: h,
        cells: Seq::new(h, |y: int| Seq::new(w, |x: int| row_cell(rows[h - 1 - y], x))),
    }
}

/// The outcome of reading a level from text.
pub open spec fn parse_level(text: Seq<char>) -> Result<LevelView, LevelError> {
    let rows = level_rows(text);
    if rows.len() == 0 {
        Err(LevelError::Empty)
    } else if exists|i: int| 0 <= i < rows.len() && utf8_len(#[trigger] rows[i]) != utf8_len(rows[0]) {
        Err(LevelError::Ragged)
    } else if utf8_len(rows[0]) > MAX_SIDE || rows.len() > MAX_SIDE {
        Err(LevelError::TooLarge)
    } else {
        Ok(grid_of_rows(rows))
    }
}

/// The tile grid. World origin is the grid's bottom-left corner.
pub struct Level {
    solid: Vec<Vec<bool>>,
    width: usize,
    height: usize,
}

impl View for Level {
    type V = LevelView;

    closed spec fn view(&self) -> LevelView {
        LevelView {
            width: self.width as nat,
            height: self.height as nat,
            cells: Seq::new(self.height as nat, |y: int| self.solid@[y]@),
        }
    }
}

impl Level {
    #[verifier::type_invariant]
    spec fn well_formed(self) -> bool {
        &&& self.solid@.len() == self.height
        &&& forall|y: int| 0 <= y < self.height ==> (#[trigger] self.solid@[y])@.len() == self.width
        &&& self.width <= MAX_SIDE
        &&& self.height <= MAX_SIDE
    }

    /// Parse a level from text. `#` is solid, every other character is open.
    ///
    /// The text is written top-down for readability: the first non-blank line
    /// is the highest y, the last one is y = 0. Lines are trimmed of
    /// surrounding whitespace and blank lines are ignored, so the text can be
    /// indented in source.
    pub fn try_from_ascii(src: &str) -> (r: Result<Level, LevelError>)
        ensures
            r is Ok <==> parse_level(src@) is Ok,
            r matches Ok(level) ==> parse_level(src@) == Ok::<LevelView, LevelError>(level@),
            r matches Err(e) ==> parse_level(src@) == Err::<LevelView, LevelError>(e),
            level_rows(src@).len() == 0 ==> r matches Err(LevelError::Empty),
            (level_rows(src@).len() > 0 && exists|i: int|
                0 <= i < level_rows(src@).len() && utf8_len(#[trigger] level_rows(src@)[i]) != utf8_len(
                    level_rows(src@)[0],
                )) ==> r matches Err(LevelError::Ragged),
            r matches Ok(level) ==> {
                let rows = level_rows(src@);
                &&& rows.len() > 0
                &&& forall|i: int| 0 <= i < rows.len() ==> utf8_len(#[trigger] rows[i]) == utf8_len(rows[0])
                &&& level@.width == utf8_len(rows[0])
                &&& level@.height == rows.len()
                &&& forall|x: int, y: int|
                    0 <= x < level@.width && 0 <= y < level@.height ==> #[trigger] level@.solid_at(x, y)
                        == row_cell(rows[rows.len() - 1 - y], x)
            },
    {
        proof {
            lemma_level_text_rules(src@);
        }
        let chars = chars_of(src);
        let rows = level_rows_of(chars.as_slice());
        let ghost spec_rows = level_rows(src@);
        if rows.len() == 0 {
            return Err(LevelError::Empty);
        }
        let width128 = utf8_len_of(rows[0].as_slice());
        let h = rows.len();
        let mut i: usize = 0;
        while i < h
            invariant
                h == rows.len(),
                h == spec_rows.len(),
                spec_rows == level_rows(src@),
                h > 0,
                i <= h,
                forall|k: int| 0 <= k < h ==> (#[trigger] rows[k])@ == spec_rows[k],
                width128 == utf8_len(spec_rows[0]),
                forall|k: int| 0 <= k < i ==> utf8_len(#[trigger] spec_rows[k]) == utf8_len(spec_rows[0]),
            decreases h - i,
        {
            if utf8_len_of(rows[i].as_slice()) != width128 {
                assert(utf8_len(spec_rows[i as int]) != utf8_len(spec_rows[0]));
                assert(parse_level(src@) == Err::<LevelView, LevelError>(LevelError::Ragged));
                return Err(LevelError::Ragged);
            }
            i += 1;
        }
        if width128 > MAX_SIDE as u128 || h > MAX_SIDE {
            return Err(LevelError::TooLarge);
        }
        let w = width128 as usize;
        let mut solid: Vec<Vec<bool>> = Vec::new();
        let mut y: usize = 0;
        while y < h
            invariant
                h == rows.len(),
                h == spec_rows.len(),
                spec_rows == level_rows(src@),
                h > 0,
                y <= h,
                w == utf8_len(spec_rows[0]),
                forall|k: int| 0 <= k < h ==> (#[trigger] rows[k])@ == spec_rows[k],
                solid.len() == y,
                forall|yy: int|
                    0 <= yy < y ==> (#[trigger] solid[yy])@ == Seq::new(
                        w as nat,
                        |x: int| row_cell(spec_rows[h - 1 - yy], x),
                    ),
            decreases h - y,
        {
            let row = &rows[h - 1 - y];
            let mut line: Vec<bool> = Vec::new();
            let mut x: usize = 0;
            while x < w
                invariant
                    x <= w,
                    y < h,
                    h == spec_rows.len(),
                    row@ == spec_rows[h - 1 - y],
                    line.len() == x,
                    forall|xx: int| 0 <= xx < x ==> line[xx] == row_cell(row@, xx),
                decreases w - x,
            {
                let cell = x < row.len() && row[x] == '#';
                line.push(cell);
                x += 1;
            }
            assert(line@ =~= Seq::new(w as nat, |x: int| row_cell(spec_rows[h - 1 - y], x)));
            solid.push(line);
            y += 1;
        }
        let level = Level { solid, width: w, height: h };
        assert(level@.cells =~~= grid_of_rows(spec_rows).cells);
        Ok(level)
    }

    /// Parse a level from text (see `try_from_ascii`), for text that is known
    /// to describe one: at least one non-blank row, all rows of the same
    /// length, and no side longer than `MAX_SIDE`.
    pub fn from_ascii(src: &str) -> (r: Level)
        requires
            parse_level(src@) is Ok,
        ensures
            parse_level(src@) == Ok::<LevelView, LevelError>(r@),
    {
        match Level::try_from_ascii(src) {
            Ok(level) => level,
            Err(_) => {
                assert(false);
                Level { solid: Vec::new(), width: 0, height: 0 }
            },
        }
    }

    pub fn width(&self) -> (r: usize)
        ensures
            r == self@.width,
            r <= MAX_SIDE,
    {
        proof {
            use_type_invariant(self);
        }
        self.width
    }

    pub fn height(&self) -> (r: usize)
        ensures
            r == self@.height,
            r <= MAX_SIDE,
    {
        proof {
            use_type_invariant(self);
        }
        self.height
    }

    /// Anything outside the grid counts as solid, so callers never need a
    /// separate bounds check.
    pub fn is_solid(&self, tile: TilePos) -> (r: bool)
        ensures
            r == self@.solid_at(tile.x as int, tile.y as int),
    {
        proof {
            use_type_invariant(self);
        }
        if tile.x < 0 || tile.y < 0 {
            return true;
        }
        let x = tile.x as usize;
        let y = tile.y as usize;
        if x >= self.width || y >= self.height {
            return true;
        }
        self.solid[y][x]
    }
}

impl Level {
    /// Whether every tile within two steps of `(x, y)`, in both directions,
    /// is open.
    fn is_clear_around(&self, x: i32, y: i32) -> (r: bool)
        requires
            0 <= x < MAX_SIDE,
            0 <= y < MAX_SIDE,
        ensures
            r == self@.is_spawn_zone(x as int, y as int),
    {
        let mut dy: i32 = -2;
        while dy <= 2
            invariant
                -2 <= dy <= 3,
                0 <= x < MAX_SIDE,
                0 <= y < MAX_SIDE,
                forall|ex: int, ey: int|
                    -2 <= ex <= 2 && -2 <= ey < dy ==> !#[trigger] self@.solid_at(x + ex, y + ey),
            decreases 3 - dy,
        {
            let mut dx: i32 = -2;
            while dx <= 2
                invariant
                    -2 <= dx <= 3,
                    -2 <= dy <= 2,
                    0 <= x < MAX_SIDE,
                    0 <= y < MAX_SIDE,
                    forall|ex: int, ey: int|
                        -2 <= ex <= 2 && -2 <= ey < dy ==> !#[trigger] self@.solid_at(x + ex, y + ey),
                    forall|ex: int| -2 <= ex < dx ==> !#[trigger] self@.solid_at(x + ex, y + dy),
                decreases 3 - dx,
            {
                if self.is_solid(TilePos { x: x + dx, y: y + dy }) {
                    assert(self@.solid_at(x + dx, y + dy));
                    return false;
                }
                dx += 1;
            }
            dy += 1;
        }
        true
    }
}

/// Tiles with a clear 5x5 block around them, in row-major order. Asteroids
/// spawn only here: a corridor spawn would drop a rock into the player's
/// path with no line of sight and no reaction window.
pub fn build_spawn_zones(level: &Level) -> (r: Vec<TilePos>)
    ensures
        forall|i: int|
            0 <= i < r.len() ==> level@.in_grid((#[trigger] r[i]).x as int, r[i].y as int)
                && level@.is_spawn_zone(r[i].x as int, r[i].y as int),
        forall|i: int, j: int| 0 <= i < j < r.len() ==> tile_before(#[trigger] r[i], #[trigger] r[j]),
        forall|x: int, y: int|
            level@.in_grid(x, y) && level@.is_spawn_zone(x, y) ==> exists|i: int|
                0 <= i < r.len() && (#[trigger] r[i]).x == x && r[i].y == y,
        forall|i: int, dx: int, dy: int|
            0 <= i < r.len() && -2 <= dx <= 2 && -2 <= dy <= 2 ==> !#[trigger] level@.solid_at(
                r[i].x + dx,
                r[i].y + dy,
            ),
        forall|i: int| 0 <= i < r.len() ==> !level@.solid_at((#[trigger] r[i]).x as int, r[i].y as int),
        forall|x: int, y: int|
            #![trigger level@.in_grid(x, y)]
            level@.in_grid(x, y) && (forall|dx: int, dy: int|
                -2 <= dx <= 2 && -2 <= dy <= 2 ==> !#[trigger] level@.solid_at(x + dx, y + dy))
                ==> exists|i: int| 0 <= i < r.len() && (#[trigger] r[i]).x == x && r[i].y == y,
{
    proof {
        assert forall|x: int, y: int| #[trigger] level@.is_spawn_zone(x, y) == (forall|dx: int, dy: int|
            -2 <= dx <= 2 && -2 <= dy <= 2 ==> !#[trigger] level@.solid_at(x + dx, y + dy)) by {
            lemma_spawn_zone_block_open(level@, x, y);
        }
    }
    let w = level.width();
    let h = level.height();
    let mut zones: Vec<TilePos> = Vec::new();
    let mut y: i32 = 0;
    while (y as usize) < h
        invariant
            w == level@.width,
            h == level@.height,
            w <= MAX_SIDE,
            h <= MAX_SIDE,
            0 <= y <= h,
            forall|i: int|
                0 <= i < zones.len() ==> level@.in_grid((#[trigger] zones[i]).x as int, zones[i].y as int)
                    && level@.is_spawn_zone(zones[i].x as int, zones[i].y as int) && zones[i].y < y,
            forall|i: int, j: int|
                0 <= i < j < zones.len() ==> tile_before(#[trigger] zones[i], #[trigger] zones[j]),
            forall|xx: int, yy: int|
                0 <= xx < w && 0 <= yy < y && level@.is_spawn_zone(xx, yy) ==> exists|i: int|
                    0 <= i < zones.len() && (#[trigger] zones[i]).x == xx && zones[i].y == yy,
        decreases h - y,
    {
        let mut x: i32 = 0;
        while (x as usize) < w
            invariant
                w == level@.width,
                h == level@.height,
                w <= MAX_SIDE,
                h <= MAX_SIDE,
                0 <= y < h,
                0 <= x <= w,
                forall|i: int|
                    0 <= i < zones.len() ==> level@.in_grid(
                        (#[trigger] zones[i]).x as int,
                        zones[i].y as int,
                    ) && level@.is_spawn_zone(zones[i].x as int, zones[i].y as int) && (zones[i].y < y
                        || (zones[i].y == y && zones[i].x < x)),
                forall|i: int, j: int|
                    0 <= i < j < zones.len() ==> tile_before(#[trigger] zones[i], #[trigger] zones[j]),
                forall|xx: int, yy: int|
                    0 <= xx < w && 0 <= yy < y && level@.is_spawn_zone(xx, yy) ==> exists|i: int|
                        0 <= i < zones.len() && (#[trigger] zones[i]).x == xx && zones[i].y == yy,
                forall|xx: int|
                    0 <= xx < x && level@.is_spawn_zone(xx, y as int) ==> exists|i: int|
                        0 <= i < zones.len() && (#[trigger] zones[i]).x == xx && zones[i].y == y,
            decreases w - x,
        {
            if level.is_clear_around(x, y) {
                let ghost old_zones = zones@;
                zones.push(TilePos { x, y });
                proof {
                    assert forall|xx: int, yy: int|
                        0 <= xx < w && 0 <= yy < y && level@.is_spawn_zone(xx, yy) implies exists|i: int|
                            0 <= i < zones.len() && (#[trigger] zones[i]).x == xx && zones[i].y
                                == yy by {
                        let i = choose|i: int|
                            0 <= i < old_zones.len() && (#[trigger] old_zones[i]).x == xx
                                && old_zones[i].y == yy;
                        assert(zones[i] == old_zones[i]);
                    }
                    assert forall|xx: int|
                        0 <= xx < x + 1 && level@.is_spawn_zone(xx, y as int) implies exists|i: int|
                            0 <= i < zones.len() && (#[trigger] zones[i]).x == xx && zones[i].y
                                == y by {
                        if xx < x {
                            let i = choose|i: int|
                                0 <= i < old_zones.len() && (#[trigger] old_zones[i]).x == xx
                                    && old_zones[i].y == y;
                            assert(zones[i] == old_zones[i]);
                        } else {
                            assert(zones[zones.len() - 1].x == xx);
                        }
                    }
                }
            }
            x += 1;
        }
        y += 1;
    }
    proof {
        assert forall|i: int| 0 <= i < zones.len() implies !level@.solid_at(
            (#[trigger] zones[i]).x as int,
            zones[i].y as int,
        ) by {
            lemma_spawn_zone_block_open(level@, zones[i].x as int, zones[i].y as int);
        }
        assert forall|x: int, y: int|
            #![trigger level@.in_grid(x, y)]
            level@.in_grid(x, y) && (forall|dx: int, dy: int|
                -2 <= dx <= 2 && -2 <= dy <= 2 ==> !#[trigger] level@.solid_at(x + dx, y + dy))
                implies exists|i: int| 0 <= i < zones.len() && (#[trigger] zones[i]).x == x && zones[i].y == y by {
            lemma_spawn_zone_block_open(level@, x, y);
        }
    }
    zones
}

/// One step of a grid traversal: across a vertical tile boundary (`X`) or a
/// horizontal one (`Y`).
#[derive(Clone, Copy, PartialEq, Eq, Debug, Structural)]
pub enum Axis {
    X,
    Y,
}

/// How many of `moves` cross boundaries of the given kind.
pub open spec fn count_axis(moves: Seq<Axis>, axis: Axis) -> nat
    decreases moves.len(),
{
    if moves.len() == 0 {
        0
    } else {
        count_axis(moves.drop_last(), axis) + if moves.last() == axis {
            1nat
        } else {
            0nat
        }
    }
}

/// `n` steps in the direction of `sign` (which is `1` or `-1`).
pub open spec fn signed_steps(sign: i32, n: nat) -> int {
    if sign > 0 {
        n as int
    } else {
        -(n as int)
    }
}

/// The tile reached from `start` after taking `moves`, each `X` move going
/// one tile along x in the direction of `step.x`, each `Y` move one tile
/// along y in the direction of `step.y`.
pub open spec fn walk_x(start: TilePos, step: TilePos, moves: Seq<Axis>) -> int {
    start.x + signed_steps(step.x, count_axis(moves, Axis::X))
}

pub open spec fn walk_y(start: TilePos, step: TilePos, moves: Seq<Axis>) -> int {
    start.y + signed_steps(step.y, count_axis(moves, Axis::Y))
}

proof fn lemma_count_axis_prefix(moves: Seq<Axis>, k: int, axis: Axis)
    requires
        0 <= k <= moves.len(),
    ensures
        count_axis(moves.take(k), axis) <= count_axis(moves, axis),
    decreases moves.len() - k,
{
    if k < moves.len() {
        lemma_count_axis_prefix(moves, k + 1, axis);
        assert(moves.take(k + 1).drop_last() =~= moves.take(k));
    } else {
        assert(moves.take(k) =~= moves);
    }
}

impl Level {
    /// Solid tiles in the rectangle from `min` to `max`, both corners
    /// included, in row-major order. Tiles outside the grid are solid. These
    /// are the tiles a body overlapping that rectangle has to be pushed out
    /// of; over the whole grid they are the walls to draw.
    pub fn solid_tiles_in(&self, min: TilePos, max: TilePos) -> (r: Vec<TilePos>)
        ensures
            forall|i: int|
                0 <= i < r.len() ==> min.x <= (#[trigger] r[i]).x <= max.x && min.y <= r[i].y
                    <= max.y && self@.solid_at(r[i].x as int, r[i].y as int),
            forall|i: int, j: int| 0 <= i < j < r.len() ==> tile_before(#[trigger] r[i], #[trigger] r[j]),
            forall|x: int, y: int|
                min.x <= x <= max.x && min.y <= y <= max.y && self@.solid_at(x, y) ==> exists|i: int|
                    0 <= i < r.len() && (#[trigger] r[i]).x == x && r[i].y == y,
    {
        let mut tiles: Vec<TilePos> = Vec::new();
        let mut y: i64 = min.y as i64;
        while y <= max.y as i64
            invariant
                min.y <= y,
                y <= max.y + 1 || y == min.y,
                forall|i: int|
                    0 <= i < tiles.len() ==> min.x <= (#[trigger] tiles[i]).x <= max.x && min.y
                        <= tiles[i].y < y && self@.solid_at(tiles[i].x as int, tiles[i].y as int),
                forall|i: int, j: int|
                    0 <= i < j < tiles.len() ==> tile_before(#[trigger] tiles[i], #[trigger] tiles[j]),
                forall|xx: int, yy: int|
                    min.x <= xx <= max.x && min.y <= yy < y && self@.solid_at(xx, yy) ==> exists|i: int|
                        0 <= i < tiles.len() && (#[trigger] tiles[i]).x == xx && tiles[i].y == yy,
            decreases max.y + 1 - y,
        {
            let yi = y as i32;
            let mut x: i64 = min.x as i64;
            while x <= max.x as i64
                invariant
                    min.y <= y <= max.y,
                    yi == y,
                    min.x <= x,
                    x <= max.x + 1 || x == min.x,
                    forall|i: int|
                        0 <= i < tiles.len() ==> min.x <= (#[trigger] tiles[i]).x <= max.x && min.y
                            <= tiles[i].y <= y && self@.solid_at(tiles[i].x as int, tiles[i].y as int)
                            && (tiles[i].y < y || tiles[i].x < x),
                    forall|i: int, j: int|
                        0 <= i < j < tiles.len() ==> tile_before(#[trigger] tiles[i], #[trigger] tiles[j]),
                    forall|xx: int, yy: int|
                        min.x <= xx <= max.x && min.y <= yy < y && self@.solid_at(xx, yy) ==> exists|i: int|
                            0 <= i < tiles.len() && (#[trigger] tiles[i]).x == xx && tiles[i].y == yy,
                    forall|xx: int|
                        min.x <= xx < x && self@.solid_at(xx, y as int) ==> exists|i: int|
                            0 <= i < tiles.len() && (#[trigger] tiles[i]).x == xx && tiles[i].y == y,
                decreases max.x + 1 - x,
            {
                let tile = TilePos { x: x as i32, y: yi };
                if self.is_solid(tile) {
                    let ghost old_tiles = tiles@;
                    tiles.push(tile);
                    proof {
                        assert forall|xx: int, yy: int|
                            min.x <= xx <= max.x && min.y <= yy < y && self@.solid_at(xx, yy) implies exists|i: int|
                                0 <= i < tiles.len() && (#[trigger] tiles[i]).x == xx && tiles[i].y
                                    == yy by {
                            let i = choose|i: int|
                                0 <= i < old_tiles.len() && (#[trigger] old_tiles[i]).x == xx
                                    && old_tiles[i].y == yy;
                            assert(tiles[i] == old_tiles[i]);
                        }
                        assert forall|xx: int|
                            min.x <= xx < x + 1 && self@.solid_at(xx, y as int) implies exists|i: int|
                                0 <= i < tiles.len() && (#[trigger] tiles[i]).x == xx && tiles[i].y
                                    == y by {
                            if xx < x {
                                let i = choose|i: int|
                                    0 <= i < old_tiles.len() && (#[trigger] old_tiles[i]).x == xx
                                        && old_tiles[i].y == y;
                                assert(tiles[i] == old_tiles[i]);
                            } else {
                                assert(tiles[tiles.len() - 1].x == xx);
                            }
                        }
                    }
                }
                x += 1;
            }
            y += 1;
        }
        tiles
    }

    /// Whether a grid traversal from `start` stays in open tiles: the start
    /// tile and every tile entered by one of `moves` must be open. This is
    /// the tile-stepping half of a line-of-sight test; which boundary the ray
    /// crosses next is decided by the caller.
    pub fn clear_along(&self, start: TilePos, step: TilePos, moves: &[Axis]) -> (r: bool)
        requires
            step.x == 1 || step.x == -1,
            step.y == 1 || step.y == -1,
            i32::MIN <= walk_x(start, step, moves@) <= i32::MAX,
            i32::MIN <= walk_y(start, step, moves@) <= i32::MAX,
        ensures
            r == (!self@.solid_at(start.x as int, start.y as int) && forall|n: int|
                1 <= n <= moves@.len() ==> !self@.solid_at(
                    walk_x(start, step, #[trigger] moves@.take(n)),
                    walk_y(start, step, moves@.take(n)),
                )),
    {
        let mut tile = start;
        if self.is_solid(tile) {
            return false;
        }
        let n = moves.len();
        let mut k: usize = 0;
        assert(moves@.take(0) =~= Seq::<Axis>::empty());
        while k < n
            invariant
                n == moves@.len(),
                k <= n,
                step.x == 1 || step.x == -1,
                step.y == 1 || step.y == -1,
                i32::MIN <= walk_x(start, step, moves@) <= i32::MAX,
                i32::MIN <= walk_y(start, step, moves@) <= i32::MAX,
                tile.x == walk_x(start, step, moves@.take(k as int)),
                tile.y == walk_y(start, step, moves@.take(k as int)),
                !self@.solid_at(start.x as int, start.y as int),
                forall|m: int|
                    1 <= m <= k ==> !self@.solid_at(
                        walk_x(start, step, #[trigger] moves@.take(m)),
                        walk_y(start, step, moves@.take(m)),
                    ),
            decreases n - k,
        {
            let ghost before = moves@.take(k as int);
            let ghost after = moves@.take(k + 1);
            proof {
                assert(after.drop_last() =~= before);
                lemma_count_axis_prefix(moves@, k + 1, Axis::X);
                lemma_count_axis_prefix(moves@, k + 1, Axis::Y);
            }
            match moves[k] {
                Axis::X => {
                    tile.x = tile.x + step.x;
                },
                Axis::Y => {
                    tile.y = tile.y + step.y;
                },
            }
            k += 1;
            if self.is_solid(tile) {
                return false;
            }
        }
        true
    }
}

/// The text reads top-down: its first row is the top of the grid and its
/// last row is `y = 0`; columns are read left to right from `x = 0`.
pub proof fn lemma_parse_orientation(text: Seq<char>, x: int)
    requires
        parse_level(text) is Ok,
        0 <= x < parse_level(text)->Ok_0.width,
    ensures
        ({
            let v = parse_level(text)->Ok_0;
            let rows = level_rows(text);
            &&& v.height == rows.len()
            &&& v.solid_at(x, v.height - 1) == row_cell(rows[0], x)
            &&& v.solid_at(x, 0) == row_cell(rows.last(), x)
        }),
{
}

/// A spawn zone is never within two tiles of the edge of the grid: the
/// whole 5x5 block around it is inside the level.
pub proof fn lemma_spawn_zone_inside(v: LevelView, x: int, y: int)
    requires
        v.is_spawn_zone(x, y),
    ensures
        2 <= x < v.width - 2,
        2 <= y < v.height - 2,
{
    assert(!v.solid_at(x + -2, y + -2));
    assert(!v.solid_at(x + 2, y + 2));
}

proof fn lemma_increasing_bounded(s: Seq<int>, lo: int, hi: int)
    requires
        lo <= hi + 1,
        forall|i: int| 0 <= i < s.len() ==> lo <= #[trigger] s[i] <= hi,
        forall|i: int, j: int| 0 <= i < j < s.len() ==> #[trigger] s[i] < #[trigger] s[j],
    ensures
        s.len() <= hi - lo + 1,
    decreases s.len(),
{
    if s.len() > 0 {
        assert(lo <= s[s.len() - 1] <= hi);
    }
    if s.len() > 1 {
        let t = s.drop_last();
        assert forall|i: int| 0 <= i < t.len() implies lo <= #[trigger] t[i] <= s.last() - 1 by {
            assert(s[i] < s[s.len() - 1]);
        }
        lemma_increasing_bounded(t, lo, s.last() - 1);
    }
}

/// A body whose bounding box spans at most two tiles in each direction (a
/// radius under one tile) has at most four wall tiles to be pushed out of.
pub proof fn lemma_at_most_four_candidates(tiles: Seq<TilePos>, min: TilePos, max: TilePos)
    requires
        max.x - min.x <= 1,
        max.y - min.y <= 1,
        forall|i: int|
            0 <= i < tiles.len() ==> min.x <= (#[trigger] tiles[i]).x <= max.x && min.y <= tiles[i].y
                <= max.y,
        forall|i: int, j: int| 0 <= i < j < tiles.len() ==> tile_before(#[trigger] tiles[i], #[trigger] tiles[j]),
    ensures
        tiles.len() <= 4,
{
    let keys = Seq::new(tiles.len(), |i: int| (tiles[i].y - min.y) * 2 + (tiles[i].x - min.x));
    assert forall|i: int, j: int| 0 <= i < j < keys.len() implies #[trigger] keys[i] < #[trigger] keys[j] by {
        assert(tile_before(tiles[i], tiles[j]));
    }
    lemma_increasing_bounded(keys, 0, 3);
}

/// What a level text yields, stated over its rows: no rows is `Empty`; rows
/// of different byte lengths are `Ragged`, wherever the odd row is; and a
/// level that is read has every row of the first row's length, that width
/// and one grid row per text row, the first text row on top, with a wall
/// exactly where the row has a `#`.
pub proof fn lemma_level_text_rules(text: Seq<char>)
    ensures
        level_rows(text).len() == 0 ==> parse_level(text) == Err::<LevelView, LevelError>(LevelError::Empty),
        (level_rows(text).len() > 0 && exists|i: int|
            0 <= i < level_rows(text).len() && utf8_len(#[trigger] level_rows(text)[i]) != utf8_len(
                level_rows(text)[0],
            )) ==> parse_level(text) == Err::<LevelView, LevelError>(LevelError::Ragged),
        parse_level(text) matches Ok(v) ==> {
            let rows = level_rows(text);
            &&& rows.len() > 0
            &&& forall|i: int| 0 <= i < rows.len() ==> utf8_len(#[trigger] rows[i]) == utf8_len(rows[0])
            &&& v.width == utf8_len(rows[0])
            &&& v.height == rows.len()
            &&& forall|x: int, y: int|
                0 <= x < v.width && 0 <= y < v.height ==> #[trigger] v.solid_at(x, y) == row_cell(
                    rows[rows.len() - 1 - y],
                    x,
                )
        },
{
}

/// A spawn zone's whole 5x5 block is open, the tile itself included, and a
/// tile whose 5x5 block is open is a spawn zone.
pub proof fn lemma_spawn_zone_block_open(v: LevelView, x: int, y: int)
    ensures
        v.is_spawn_zone(x, y) <==> forall|dx: int, dy: int|
            -2 <= dx <= 2 && -2 <= dy <= 2 ==> !#[trigger] v.solid_at(x + dx, y + dy),
        v.is_spawn_zone(x, y) ==> !v.solid_at(x, y),
{
    if v.is_spawn_zone(x, y) {
        assert(!v.solid_at(x + 0, y + 0));
        assert forall|dx: int, dy: int| -2 <= dx <= 2 && -2 <= dy <= 2 implies !#[trigger] v.solid_at(x + dx, y + dy) by {
            assert(!v.solid_at(x + dx, y + dy));
        }
    }
}

} // verus!
