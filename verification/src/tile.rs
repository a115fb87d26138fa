//! The record that a renderer gets for each cell.

use crate::point::Point;
use crate::uvs::{GLOW_YELLOW_U, GLOW_YELLOW_V, MIRROR_BLACK_U, MIRROR_BLACK_V};
use vstd::prelude::*;

verus! {

/// A tile: a cell, the texture coordinates to draw it with (in millionths),
/// and its height (in eighths of a unit).
#[derive(Clone, Copy, Debug, PartialEq, Eq, Structural)]
pub struct Tile {
    pub posx: i32,
    pub posy: i32,
    pub u: i32,
    pub v: i32,
    pub height: i32,
}

impl Tile {
    /// A tile of the given fields.
    pub fn new(posx: i32, posy: i32, u: i32, v: i32, height: i32) -> (tile: Tile)
        ensures
            tile == (Tile { posx, posy, u, v, height }),
    {
        Tile { posx, posy, u, v, height }
    }

    pub fn posx(&self) -> (posx: i32)
        ensures
            posx == self.posx,
    {
        self.posx
    }

    pub fn posy(&self) -> (posy: i32)
        ensures
            posy == self.posy,
    {
        self.posy
    }

    pub fn u(&self) -> (u: i32)
        ensures
            u == self.u,
    {
        self.u
    }

    pub fn v(&self) -> (v: i32)
        ensures
            v == self.v,
    {
        self.v
    }

    pub fn height(&self) -> (height: i32)
        ensures
            height == self.height,
    {
        self.height
    }
}

/// The value above which a point is drawn with the active texture: one unit,
/// in eighths.
pub const ACTIVE_ABOVE: i32 = 8;

/// The tile that a point is drawn as: the active texture above one unit of
/// height, the base texture up to it.
pub open spec fn tile_of(p: Point) -> Tile {
    Tile {
        posx: p.x,
        posy: p.y,
        u: if p.value > ACTIVE_ABOVE {
            GLOW_YELLOW_U
        } else {
            MIRROR_BLACK_U
        },
        v: if p.value > ACTIVE_ABOVE {
            GLOW_YELLOW_V
        } else {
            MIRROR_BLACK_V
        },
        height: p.value,
    }
}

} // verus!
