use vstd::prelude::*;
use crate::network_entity::Entity;

verus! {

/// Pixels per tile step.
pub const TILE_SIZE: i64 = 32;

/// Pixels a tile rises per level.
pub const TILE_LEVEL_HEIGHT: i64 = 16;

/// A cell of the tile grid.
#[derive(Clone, Copy, PartialEq, Eq, Structural, Hash, Debug)]
pub struct Tile {
    pub x: i32,
    pub y: i32,
    pub z: i32,
}

impl Tile {
    /// Where the tile is drawn, in pixels: columns across, rows up, and each level half a row higher.
    pub fn to_translation(&self) -> (r: (i64, i64))
        ensures
            r.0 == self.x * TILE_SIZE,
            r.1 == self.y * TILE_SIZE + self.z * TILE_LEVEL_HEIGHT,
    {
        (self.x as i64 * TILE_SIZE, self.y as i64 * TILE_SIZE + self.z as i64 * TILE_LEVEL_HEIGHT)
    }
}

/// The drawing positions of `tiles`, in order.
pub fn tile_transform_system(tiles: &Vec<Tile>) -> (r: Vec<(i64, i64)>)
    ensures
        r@.len() == tiles@.len(),
        forall|i: int|
            0 <= i < tiles@.len() ==> #[trigger] r@[i].0 == tiles@[i].x * TILE_SIZE && r@[i].1 == tiles@[i].y
                * TILE_SIZE + tiles@[i].z * TILE_LEVEL_HEIGHT,
{
    let mut r: Vec<(i64, i64)> = Vec::new();
    let mut i: usize = 0;
    while i < tiles.len()
        invariant
            i <= tiles@.len(),
            r@.len() == i,
            forall|j: int|
                0 <= j < i ==> #[trigger] r@[j].0 == tiles@[j].x * TILE_SIZE && r@[j].1 == tiles@[j].y
                    * TILE_SIZE + tiles@[j].z * TILE_LEVEL_HEIGHT,
        decreases tiles.len() - i,
    {
        r.push(tiles[i].to_translation());
        i = i + 1;
    }
    r
}

/// The descriptor of a replicated tile.
#[derive(Clone, Copy, PartialEq, Eq, Structural, Debug)]
pub struct TileSpawnable {
    pub tile: Tile,
}

/// The local player's object and camera, once they exist.
#[derive(Clone, Copy, PartialEq, Eq, Structural, Debug)]
pub struct Player {
    pub entity: Option<Entity>,
    pub camera: Option<Entity>,
}

/// The direction a player walks in, each axis -1, 0 or 1.
#[derive(Clone, Copy, PartialEq, Eq, Structural, Debug)]
pub struct MovementDirection {
    pub x: i8,
    pub y: i8,
}

/// The direction the held keys ask for: up minus down, right minus left.
pub open spec fn input_direction(up: bool, down: bool, right: bool, left: bool) -> MovementDirection {
    MovementDirection {
        x: ((if right { 1int } else { 0int }) - (if left { 1int } else { 0int })) as i8,
        y: ((if up { 1int } else { 0int }) - (if down { 1int } else { 0int })) as i8,
    }
}

/// Sets the player's direction from the held keys; the direction is left alone when it is
/// already the one asked for.
pub fn player_input_system(
    up: bool,
    down: bool,
    right: bool,
    left: bool,
    movement_direction: &mut MovementDirection,
)
    ensures
        *final(movement_direction) == input_direction(up, down, right, left),
{
    let mut x: i8 = 0;
    let mut y: i8 = 0;
    if up {
        y = y + 1;
    }
    if down {
        y = y - 1;
    }
    if right {
        x = x + 1;
    }
    if left {
        x = x - 1;
    }
    let direction = MovementDirection { x, y };
    if direction != *movement_direction {
        *movement_direction = direction;
    }
}

} // verus!
