//! Contour extraction from regularly gridded scalar data.
//!
//! A scalar field sampled on a regular grid is turned into vector geometry:
//! isolines (curves of constant value), filled contour polygons, and isobands
//! (regions between two thresholds). Marching squares classifies each 2x2
//! window of samples; the resulting line segments are stitched end to end
//! into closed rings; a construction layer smooths the rings, applies an
//! affine grid-to-world mapping, and classifies rings into polygons with
//! holes.
//!
//! All coordinates are exact rational numbers ([`frac::Frac`]), so every
//! geometric step (interpolation, affine mapping, signed area, containment)
//! is carried out without rounding.

pub mod area;
pub mod cases;
pub mod contourbuilder;
pub mod error;
pub mod frac;
pub mod grid;
pub mod isoringbuilder;

pub use contourbuilder::{Band, Contour, ContourBuilder, Line, Polygon};
pub use error::{Error, ErrorKind};
pub use frac::Frac;
pub use grid::{Buffer, Coord, Extent, Grid, NoDataMask, TiledBuffer};
pub use isoringbuilder::{contour_rings, IsoRingBuilder, Pt, Ring};
