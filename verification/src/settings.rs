//! The whole-number settings of the settings screen: tile cluster counts and
//! sizes, and which colour entry is being edited.

use vstd::prelude::*;
use crate::ui::{ColorTarget, color_target_list, spec_color_targets};

verus! {

/// The cluster count after the screen's "-" and "+" buttons: "-" takes 5
/// away but not below 5, then "+" adds 5 but not above 300.
pub open spec fn spec_step_tile_clusters(value: int, dec: bool, inc: bool) -> int {
    let v1 = if dec {
        let s = if value >= 5 { value - 5 } else { 0 };
        if s < 5 { 5 } else { s }
    } else {
        value
    };
    if inc {
        if v1 + 5 > 300 { 300 } else { v1 + 5 }
    } else {
        v1
    }
}

/// The cluster count after the screen's "-" and "+" buttons.
pub fn step_tile_clusters(value: usize, dec: bool, inc: bool) -> (next: usize)
    requires
        inc && !dec ==> value + 5 <= usize::MAX,
    ensures
        next == spec_step_tile_clusters(value as int, dec, inc),
{
    let mut v = value;
    if dec {
        let s = v.saturating_sub(5);
        v = if s < 5 { 5 } else { s };
    }
    if inc {
        let n = v + 5;
        v = if n > 300 { 300 } else { n };
    }
    v
}

/// The cluster size range after the screen's buttons: the minimum's "-"
/// (not below 1) and "+", the maximum raised to the minimum, then the
/// maximum's "-" (not below 1) and "+", and the minimum lowered to the
/// maximum.
pub open spec fn spec_step_cluster_range(
    min: int,
    max: int,
    dec_min: bool,
    inc_min: bool,
    dec_max: bool,
    inc_max: bool,
) -> (int, int) {
    let m1 = if dec_min && min > 1 { min - 1 } else { min };
    let m2 = if inc_min { m1 + 1 } else { m1 };
    let x1 = if m2 > max { m2 } else { max };
    let x2 = if dec_max && x1 > 1 { x1 - 1 } else { x1 };
    let x3 = if inc_max { x2 + 1 } else { x2 };
    let m3 = if x3 < m2 { x3 } else { m2 };
    (m3, x3)
}

/// The cluster size range after the screen's buttons. The minimum never
/// ends above the maximum.
pub fn step_cluster_range(
    min: usize,
    max: usize,
    dec_min: bool,
    inc_min: bool,
    dec_max: bool,
    inc_max: bool,
) -> (r: (usize, usize))
    requires
        inc_min ==> min + 1 <= usize::MAX,
        inc_max ==> (if min + 1 > max { min + 1 } else { max as int }) + 1 <= usize::MAX,
    ensures
        (r.0 as int, r.1 as int) == spec_step_cluster_range(min as int, max as int, dec_min, inc_min, dec_max, inc_max),
        r.0 <= r.1,
{
    let mut lo = min;
    let mut hi = max;
    if dec_min && lo > 1 {
        lo = lo - 1;
    }
    if inc_min {
        lo = lo + 1;
    }
    if lo > hi {
        hi = lo;
    }
    if dec_max && hi > 1 {
        hi = hi - 1;
    }
    if inc_max {
        hi = hi + 1;
    }
    if hi < lo {
        lo = hi;
    }
    (lo, hi)
}

/// The colour entry index after the "<" and ">" buttons: "<" steps back,
/// from the first entry to the last, then ">" steps forward, wrapping.
pub open spec fn spec_cycle_color_target(index: int, prev: bool, next: bool) -> int {
    let i1 = if prev {
        if index == 0 { 25 } else { index - 1 }
    } else {
        index
    };
    if next { (i1 + 1) % 26 } else { i1 }
}

/// The colour entry index after the "<" and ">" buttons.
pub fn cycle_color_target(index: usize, prev: bool, next: bool) -> (i: usize)
    requires
        next && !prev ==> index + 1 <= usize::MAX,
    ensures
        i == spec_cycle_color_target(index as int, prev, next),
{
    let targets = color_target_list();
    let mut i = index;
    if prev {
        if i == 0 {
            i = targets.len() - 1;
        } else {
            i = i - 1;
        }
    }
    if next {
        i = (i + 1) % targets.len();
    }
    i
}

/// The colour entry an index selects, counted round the list.
pub fn selected_color_target(index: usize) -> (t: ColorTarget)
    ensures
        t == spec_color_targets()[index as int % 26],
{
    let targets = color_target_list();
    targets[index % targets.len()]
}

} // verus!
