//! The storage core of a spreadsheet: cells, columns, edit overlays, display
//! orders, merged regions, protection, number formats and clipboard grids.

pub mod annotation;
pub mod arena;
pub mod autocomplete;
pub mod bench;
pub mod bitmap;
pub mod budget;
pub mod cancel;
pub mod capacity;
pub mod cellmap;
pub mod chart;
pub mod clipboard;
pub mod column;
pub mod comment;
pub mod consolidate;
pub mod dedupe;
pub mod filter;
pub mod format;
pub mod index;
pub mod interchange;
pub mod keyed;
pub mod markup;
pub mod merge;
pub mod numfmt;
pub mod order;
pub mod overlay;
pub mod page;
pub mod paste;
pub mod pivot;
pub mod protect;
pub mod rectangles;
pub mod regions;
pub mod rules;
pub mod scene;
pub mod sizing;
pub mod sorting;
pub mod spelled;
pub mod table;
pub mod text;
pub mod value;

use vstd::prelude::*;

verus! {

} // verus!
