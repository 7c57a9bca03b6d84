//! The cheap per-entry heuristics the pipeline starts with.  The byte
//! probes and the full-file hash need file contents and so take their
//! input from the shell; these two need nothing but the entry itself.

use vstd::prelude::*;

use crate::errors::DedupError;
use crate::fs_entry::{FSEntry, Heuristic, HeuristicView};

verus! {

/// The size heuristic: the entry's recorded length, never failing.
pub fn fn_file_size(entry: &FSEntry) -> (r: Result<Heuristic, DedupError>)
    ensures
        r matches Ok(h) && h@ == HeuristicView::Size(entry.size),
{
    Ok(Heuristic::Size(entry.size))
}

/// The device heuristic: the entry's device identifier, never failing.
pub fn fn_file_device(entry: &FSEntry) -> (r: Result<Heuristic, DedupError>)
    ensures
        r matches Ok(h) && h@ == HeuristicView::Device(entry.dev),
{
    Ok(Heuristic::Device(entry.dev))
}

} // verus!
