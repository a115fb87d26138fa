//! Texture coordinates of the palette, in millionths of the texture's side.

use vstd::prelude::*;

verus! {

/// One texture coordinate pair.
#[derive(Clone, Copy, Debug, PartialEq, Eq, Structural)]
pub struct UV {
    pub u: i32,
    pub v: i32,
}

pub const GLOW_YELLOW_U: i32 = 523438;

pub const GLOW_YELLOW_V: i32 = 367188;

pub const BASE_BLACK_U: i32 = 367188;

pub const BASE_BLACK_V: i32 = 23438;

pub const MIRROR_BLACK_U: i32 = 804688;

pub const MIRROR_BLACK_V: i32 = 734375;

/// The active texture.
pub fn glow_yellow() -> (uv: UV)
    ensures
        uv == (UV { u: GLOW_YELLOW_U, v: GLOW_YELLOW_V }),
{
    UV { u: GLOW_YELLOW_U, v: GLOW_YELLOW_V }
}

/// A dark texture that no tile takes.
pub fn base_black() -> (uv: UV)
    ensures
        uv == (UV { u: BASE_BLACK_U, v: BASE_BLACK_V }),
{
    UV { u: BASE_BLACK_U, v: BASE_BLACK_V }
}

/// The base texture.
pub fn mirror_black() -> (uv: UV)
    ensures
        uv == (UV { u: MIRROR_BLACK_U, v: MIRROR_BLACK_V }),
{
    UV { u: MIRROR_BLACK_U, v: MIRROR_BLACK_V }
}

} // verus!
