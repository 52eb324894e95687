//! Critical points of a rasterised workspace, the boundaries of the cells of
//! a boustrophedon (back-and-forth) cellular decomposition.
//!
//! A scanline of red/green/blue samples is cut into maximal runs of obstacle
//! and free pixels ([`scanline`]), the outer obstacle frame of the image is
//! measured and cut away ([`borders`], [`trim`]), and every pair of adjacent
//! rows is compared to find where obstacle regions appear, vanish, split or
//! merge ([`analyzer`], over the graph of [`overlap_graph`] and [`linking`]).
//! [`sweep`] does this for all rows of an image, [`workspace`] takes the
//! scanlines of an image in one by one. [`transition_theorems`] and
//! [`trim_theorems`] prove what holds of the results in general.
pub mod region;
pub mod pixel;
pub mod scanline;
pub mod borders;
pub mod trim;
pub mod overlap_graph;
pub mod analyzer;
pub mod linking;
pub mod sweep;
pub mod workspace;
pub mod transition_theorems;
pub mod trim_theorems;
