//! Rectangle packing for sprite sheets.
//!
//! A set of sized items is laid out, without overlap, on one sheet by a
//! guillotine binary tree: every placed item splits the free region it lands
//! in into a strip to its right and a strip below it.
//!
//! - [`tree2d`] has the rectangles and the tree, [`ordering`] the order of
//!   rectangles by size, and [`laws`] what holds of every well-formed tree.
//! - [`sorting`], [`collection`] and [`canvas`] prepare a packing: the order
//!   of the items, their measures, and the canvas with its growth.
//! - [`packer`] packs items into a [`sheet`], and [`atlas`] draws the sheet
//!   of a set of images.

pub mod atlas;
pub mod canvas;
pub mod collection;
pub mod laws;
pub mod ordering;
pub mod packer;
pub mod sheet;
pub mod sorting;
pub mod tree2d;
