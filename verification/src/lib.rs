//! Incremental 2D occlusion buffer.
//!
//! Tracks the free (unobstructed) part of a bounded plane region as a set of
//! pairwise interior-disjoint axis-aligned rectangles. A candidate rectangle
//! can be classified against the current free space (occluded or still partly
//! visible), and a checked candidate can then be committed, which subtracts it
//! exactly from every free region it overlaps.

pub mod buffer;
pub mod geom;
pub mod index;
pub mod subdivide;

pub use buffer::{OcclusionBuffer, OcclusionError, OcclusionStatus};
pub use geom::{AxisAlignedBox, boxes_overlap};
pub use subdivide::{identify_intersection_case, subdivide};
