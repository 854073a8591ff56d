//! Polyline simplification over points whose coordinates are carried as
//! IEEE-754 binary64 bit patterns.
//!
//! Two simplifiers are offered, Ramer-Douglas-Peucker and
//! Visvalingam-Whyatt, each in a form that returns the retained points and
//! in a form that returns their positions; the second also in a form that
//! removes a point only where a condition permits it. None of them does
//! floating-point arithmetic: the distance or area that it compares is
//! computed by a function that the caller hands in, and compared here by
//! the place of its bit pattern on the number line.

pub mod adjacency;
pub mod buffer;
pub mod douglas_peucker;
pub mod engine;
pub mod error;
pub mod ieee;
pub mod measure;
pub mod point;
pub mod preserve;
pub mod queue;
pub mod select;
pub mod visvalingam;

pub use crate::buffer::{pairs_from_points, points_from_pairs};
pub use crate::douglas_peucker::{simplify_rdp, simplify_rdp_idx};
pub use crate::adjacency::AdjacencyTable;
pub use crate::error::SimplifyError;
pub use crate::point::Point;
pub use crate::preserve::{simplify_visvalingamp, simplify_visvalingamp_idx};
pub use crate::visvalingam::{simplify_visvalingam, simplify_visvalingam_idx};
