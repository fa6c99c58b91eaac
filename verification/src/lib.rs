//! Box-drawing rendering of a sparse grid of colored cells, and a small
//! engine that places tetromino shapes onto such a grid without overlap.

pub mod box_grid;
pub mod geometry;
pub mod glyph;
pub mod line_grid;
pub mod placement;
pub mod shape;
pub mod tetromino;

pub use box_grid::{BoxGrid, Color, EMPTY};
pub use geometry::{double_x, move_point, offset, order_points, point, precedes, Direction, Point, DIRECTIONS};
pub use glyph::{boxc, ERROR_CHAR};
pub use line_grid::{Bounds, LineGrid};
pub use shape::{contains_shape, move_shape, normalize, rotate_shape, rotations, same_shape, shape_from_vec, Shape};
pub use placement::{all_positions, all_positions_random, find_fit_random, first_fit, in_bounds, positions_in_order, X_HI, X_LO, Y_HI, Y_LO};
pub use tetromino::{canonicalize, gen_canonical_map, shape_before, tetrominoes, CanonicalMap};
