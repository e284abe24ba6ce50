//! The decisions of a route session, between which the caller measures,
//! scans and writes.
use vstd::prelude::*;

verus! {

/// A target closer than this (in millimetres) to the route's end counts as
/// reached, and a new one is looked for.
pub const RESCAN_MM: u64 = 500_000;

/// Whether a new target is needed: there is none yet, or the route's end is
/// within `RESCAN_MM` of it.
pub fn needs_rescan(target: Option<(i64, i64)>, end_to_target_mm: u64) -> (r: bool)
    ensures
        r == (target is None || end_to_target_mm < RESCAN_MM),
{
    match target {
        None => true,
        Some(_) => end_to_target_mm < RESCAN_MM,
    }
}

/// The new target after a scan: the top-ranked candidate, or the previous
/// target when the scan yielded none.
pub fn choose_target(
    ranked: &Vec<(usize, (i64, i64))>,
    previous: Option<(i64, i64)>,
) -> (r: Option<(i64, i64)>)
    ensures
        r == if ranked@.len() > 0 {
            Some(ranked@[0].1)
        } else {
            previous
        },
{
    if ranked.len() > 0 {
        Some(ranked[0].1)
    } else {
        previous
    }
}

/// Whether the route still falls short of the distance asked for.
pub fn keep_going(total_mm: u64, max_mm: u64) -> (r: bool)
    ensures
        r == (total_mm < max_mm),
{
    total_mm < max_mm
}

} // verus!
