//! The static geometry of a level: its bounds and its wall cells.

use crate::coords::{Cell, GridCoord};
use std::collections::HashSet;
use vstd::prelude::*;

verus! {

/// Side length of a grid cell in level pixels.
pub const GRID_SIZE: i32 = 16;

/// The mathematical value of [`LevelWalls`]: a rectangle of cells and the
/// wall cells given for it.
pub struct Walls {
    pub width: int,
    pub height: int,
    pub cells: Set<Cell>,
}

impl Walls {
    /// Whether `cell` lies inside the rectangle `[0, width) x [0, height)`.
    pub open spec fn in_bounds(self, cell: Cell) -> bool {
        0 <= cell.x < self.width && 0 <= cell.y < self.height
    }

    /// Whether width and height fit the machine representation.
    pub open spec fn representable(self) -> bool {
        i32::MIN <= self.width <= i32::MAX && i32::MIN <= self.height <= i32::MAX
    }

    /// Whether nothing can stand on `cell`: it is out of bounds or a wall.
    pub open spec fn blocks(self, cell: Cell) -> bool {
        !self.in_bounds(cell) || self.cells.contains(cell)
    }
}

/// The wall cells listed in `coords`.
pub open spec fn listed_cells(coords: Seq<GridCoord>) -> Set<Cell> {
    Set::new(|cell: Cell| exists|i: int| 0 <= i < coords.len() && #[trigger] coords[i]@ == cell)
}

/// The number of whole grid cells in `pixels`, rounded towards zero.
pub open spec fn cells_in_pixels(pixels: int) -> int {
    if pixels >= 0 {
        pixels / (GRID_SIZE as int)
    } else {
        -((-pixels) / (GRID_SIZE as int))
    }
}

/// The key under which a representable cell is stored.
pub closed spec fn key_of(cell: Cell) -> int {
    (cell.x + 0x8000_0000) * 0x1_0000_0000 + (cell.y + 0x8000_0000)
}

/// Bounds and wall cells of one level. Built once when a level is spawned
/// and only read afterwards.
pub struct LevelWalls {
    wall_locations: HashSet<u64>,
    level_width: i32,
    level_height: i32,
}

impl View for LevelWalls {
    type V = Walls;

    closed spec fn view(&self) -> Walls {
        Walls {
            width: self.level_width as int,
            height: self.level_height as int,
            cells: Set::new(
                |cell: Cell|
                    cell.representable() && self.wall_locations@.contains(key_of(cell) as u64),
            ),
        }
    }
}

fn key(coords: &GridCoord) -> (k: u64)
    ensures
        k == key_of(coords@),
{
    let x: u64 = (coords.x as i64 + 0x8000_0000) as u64;
    let y: u64 = (coords.y as i64 + 0x8000_0000) as u64;
    x * 0x1_0000_0000 + y
}

proof fn lemma_key_injective(a: Cell, b: Cell)
    requires
        a.representable(),
        b.representable(),
        key_of(a) == key_of(b),
    ensures
        a == b,
{
}

impl LevelWalls {
    /// The geometry of a level `level_width` cells wide and `level_height`
    /// cells high whose walls stand on `wall_coords`.
    pub fn new(level_width: i32, level_height: i32, wall_coords: &Vec<GridCoord>) -> (r: LevelWalls)
        ensures
            r@.width == level_width,
            r@.height == level_height,
            r@.cells == listed_cells(wall_coords@),
    {
        let mut wall_locations: HashSet<u64> = HashSet::new();
        let mut i: usize = 0;
        while i < wall_coords.len()
            invariant
                i <= wall_coords.len(),
                forall|k: u64|
                    wall_locations@.contains(k) <==> exists|j: int|
                        0 <= j < i && key_of(#[trigger] wall_coords[j]@) == k,
            decreases wall_coords.len() - i,
        {
            let k = key(&wall_coords[i]);
            wall_locations.insert(k);
            i = i + 1;
        }
        let r = LevelWalls { wall_locations, level_width, level_height };
        proof {
            assert forall|cell: Cell| r@.cells.contains(cell) == listed_cells(
                wall_coords@,
            ).contains(cell) by {
                if r@.cells.contains(cell) {
                    let j = choose|j: int|
                        0 <= j < wall_coords.len() && key_of(#[trigger] wall_coords[j]@) == key_of(
                            cell,
                        );
                    lemma_key_injective(wall_coords[j]@, cell);
                }
                if listed_cells(wall_coords@).contains(cell) {
                    let j = choose|j: int|
                        0 <= j < wall_coords.len() && #[trigger] wall_coords[j]@ == cell;
                    assert(key_of(wall_coords[j]@) == key_of(cell));
                }
            }
            assert(r@.cells =~= listed_cells(wall_coords@));
        }
        r
    }

    /// The size of a level always fits the machine representation.
    pub proof fn lemma_representable(&self)
        ensures
            self@.representable(),
    {
    }

    /// Width of the level in cells.
    pub fn level_width(&self) -> (r: i32)
        ensures
            r == self@.width,
    {
        self.level_width
    }

    /// Height of the level in cells.
    pub fn level_height(&self) -> (r: i32)
        ensures
            r == self@.height,
    {
        self.level_height
    }

    /// Tells whether nothing can stand on `grid_coords`. A position out of
    /// bounds counts as blocked.
    pub fn in_wall(&self, grid_coords: &GridCoord) -> (r: bool)
        ensures
            r == self@.blocks(grid_coords@),
    {
        grid_coords.x < 0 || grid_coords.y < 0 || grid_coords.x >= self.level_width
            || grid_coords.y >= self.level_height || self.wall_locations.contains(
            &key(grid_coords),
        )
    }
}

/// Builds the geometry of a freshly spawned level from its size in pixels
/// and the positions of its wall cells.
pub fn cache_wall_locations(px_wid: i32, px_hei: i32, walls: &Vec<GridCoord>) -> (r: LevelWalls)
    ensures
        r@.width == cells_in_pixels(px_wid as int),
        r@.height == cells_in_pixels(px_hei as int),
        r@.cells == listed_cells(walls@),
{
    LevelWalls::new(px_wid / GRID_SIZE, px_hei / GRID_SIZE, walls)
}

} // verus!
