//! Per-unit cost estimates, used to turn a byte budget into a count cap.
//!
//! They are pessimistic on purpose: an estimate that is too low admits an
//! allocation that then does not fit.

use vstd::prelude::*;

verus! {

/// One clipboard cell: a string header plus a short rendered value.
pub const CLIPBOARD_CELL: u64 = 64;

/// One chart sample during aggregation, plus slack for intermediate points.
pub const CHART_ROW: u64 = 32;

/// One search hit, plus the row-filter mapping built from the same results.
pub const SEARCH_HIT: u64 = 24;

/// One overlay cell written by a paste or fill, with its undo bookkeeping.
pub const OVERLAY_CELL: u64 = 160;

/// One cell rewritten by Replace All: an overlay cell plus the two replacement
/// strings.
pub const REPLACE_CELL: u64 = 288;

} // verus!
