//! `tile_net` holds integer-aligned tiles for broad-phase continuous
//! collision detection.
//!
//! The library is built around three pieces:
//!
//! - a dense, row-major tile grid ([`TileNet`]) with point, row, column and
//!   box writes, bounded reads, resizing, rectangular views and a
//!   span-tracking proxy ([`TileNetProxy`]) for partial updates;
//! - a supercover line traversal ([`Line`], [`SuperCover`]) that reports
//!   every cell a moving point passes through, in order, so that no tile can
//!   be tunnelled past in a single step;
//! - a collision-resolution protocol ([`Collable`]) that fans a line out of
//!   every vertex of a shape, merges the traversals nearest-first
//!   ([`MultiTraversal`]), queries the grid along them ([`TileSet`]) and
//!   lets the shape accept the move or shrink it and retry, up to a bounded
//!   number of attempts.
//!
//! Coordinates are fixed-point: a tile is [`SCALE`] subunits wide, a
//! position is an integer count of subunits, and the cell containing it is
//! the floored quotient by [`SCALE`]. Keeping positions exact is what lets
//! the traversal promise exact termination on the destination cell no
//! matter how long the line is.

pub mod collable;
pub mod defs;
pub mod line;
pub mod merge;
pub mod rectangle;
pub mod tilenet;
pub mod tiles;
pub mod vector;

pub use collable::{fan, fan_line, Collable, Points, MAX_SOLVE_ITERATIONS};
pub use defs::Quadrant;
pub use line::{cell_of, line_cells, walk_cells, Line, SuperCover, CELL_LIMIT, LEN_LIMIT};
pub use merge::MultiTraversal;
pub use rectangle::RectTiles;
pub use tilenet::{Span, TileNet, TileNetProxy};
pub use tiles::{spec_lookup, TileSet, TileView};
pub use vector::{Vector, COORD_LIMIT, MOVE_LIMIT, POS_LIMIT, SCALE};
