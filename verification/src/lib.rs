//! Procedural terrain on a square lattice.
//!
//! A terrain grows from one seed cell by diffusion-limited aggregation: walkers
//! start at random cells, take unit steps on the torus and stick where they
//! first touch the cluster. The cluster can be doubled in resolution along its
//! recorded links and regrown, given heights by its graph distance from an
//! origin, completed to cover the whole lattice, and projected to render tiles.
//!
//! Numbers with a fraction are held in fixed point: heights in eighths of a
//! unit, texture coordinates in millionths of the texture's side.
//!
//! Random numbers come from the thread-local generator of the `rand` crate.
//! A walk has no bound of its own, so every terrain carries a budget of
//! random draws: each walker takes one draw for its start and one for each
//! step, and growth that finds the budget empty stops and says so. All that
//! is proved of growth holds for whatever numbers are drawn.
//!
//! - [`grid`]: cells, adjacency, the size of a grid
//! - [`position`]: the set of occupied cells
//! - [`point`]: points and links, wrapping steps, tracing
//! - [`random`]: the random source
//! - [`cluster`]: the growing cluster and what growth means
//! - [`retrace`]: what an upscale makes of the links
//! - [`tree`]: links as a tree that spans the points
//! - [`height`]: graph distance and the height it gives
//! - [`search`]: the breadth-first search that finds the distances
//! - [`fill`]: grid completion
//! - [`uvs`], [`tile`]: the palette and the render tile
//! - [`terrain`]: the terrain and its stages
//! - [`generation`]: the radial variant
//! - [`writer`]: the byte layout of the tile file

pub mod grid;
pub mod position;
pub mod point;
pub mod random;
pub mod cluster;
pub mod retrace;
pub mod tree;
pub mod height;
pub mod search;
pub mod fill;
pub mod uvs;
pub mod tile;
pub mod terrain;
pub mod generation;
pub mod writer;
