//! Outline of a structural cross-section.
//!
//! A section is a graph of joints connected by thick members. The crate
//! derives the solid outline of such a section: it generates one boundary
//! ring per joint and merges the rings with a Weiler-Atherton polygon
//! clipper.
//!
//! All coordinates are integers on a fixed grid of `section::UNIT` steps
//! per unit of length, so every geometric predicate is decided exactly;
//! only the positions of crossings, offsets and centroids are rounded to
//! the grid, each in a stated way. Coordinates reach as far as exact
//! comparison in 128 bits allows (`geometry::COORD_MAX`), and a section
//! holds as many nodes and members as its graph can index.
//!
//! - `arith`, `geometry`: integer helpers and exact segment intersection.
//! - `polygon`, `crossing`, `labelling`, `tracing`, `clipping`: polygons
//!   as arenas of vertex records, and the three phases of clipping.
//! - `graph`, `section`: the section graph and its mutation rules.
//! - `outline`, `assembly`: the ring of boundary points around a joint,
//!   and the merged and centred outline of the whole section.

pub mod arith;
pub mod geometry;
pub mod polygon;
pub mod crossing;
pub mod labelling;
pub mod tracing;
pub mod clipping;
pub mod graph;
pub mod section;
pub mod outline;
pub mod assembly;
