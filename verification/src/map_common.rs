//! What the map screens share: the map's outline, the demolish
//! confirmation and its label.

use vstd::prelude::*;
use crate::hex::{Axial, hex_dist, hex_distance};

verus! {

/// The shape of a map.
#[derive(Clone, Copy, Debug, PartialEq, Eq, Structural)]
pub enum MapOutline {
    Hexagon,
    Triangle,
}

/// What a confirmation window was answered; `Pending` while it has no
/// answer.
#[derive(Clone, Copy, Debug, PartialEq, Eq, Structural)]
pub enum ConfirmAction {
    Pending,
    Cancel,
    Confirm,
}

/// Whether a hex lies on the map: within `hex_radius` steps of the origin
/// for a hexagonal map, or in the triangle `q >= 0`, `r >= 0`,
/// `q + r <= tri_length` for a triangular one.
pub open spec fn spec_in_bounds(hex: Axial, outline: MapOutline, hex_radius: i32, tri_length: i32) -> bool {
    match outline {
        MapOutline::Hexagon => hex_dist(hex, Axial { q: 0, r: 0 }) <= hex_radius,
        MapOutline::Triangle => hex.q >= 0 && hex.r >= 0 && hex.q + hex.r <= tri_length,
    }
}

/// Whether a hex lies on a map of the given outline and size.
pub fn in_bounds(hex: Axial, outline: MapOutline, hex_radius: i32, tri_length: i32) -> (res: bool)
    requires
        outline == MapOutline::Hexagon ==> hex_dist(hex, Axial { q: 0, r: 0 }) <= i32::MAX,
        outline == MapOutline::Triangle && hex.q >= 0 && hex.r >= 0 ==> hex.q + hex.r <= i32::MAX,
    ensures
        res == spec_in_bounds(hex, outline, hex_radius, tri_length),
{
    match outline {
        MapOutline::Hexagon => hex_distance(hex, Axial { q: 0, r: 0 }) <= hex_radius,
        MapOutline::Triangle => hex.q >= 0 && hex.r >= 0 && hex.q + hex.r <= tri_length,
    }
}

/// The demolish question for a block label, or "Block not found".
pub open spec fn spec_confirm_label(label: Option<String>) -> Seq<char> {
    match label {
        Some(s) => "Demolish "@ + s@ + "?"@,
        None => "Block not found"@,
    }
}

/// The question the demolish window asks: "Demolish <label>?" when there
/// is a target and `label_fn` names it, "Block not found" otherwise.
pub fn confirm_label_for_target<F: FnOnce(Axial) -> Option<String>>(target: Option<Axial>, label_fn: F) -> (label: String)
    requires
        target matches Some(t) ==> call_requires(label_fn, (t,)),
    ensures
        target is None ==> label@ == "Block not found"@,
        target matches Some(t) ==> exists|r: Option<String>| #[trigger] call_ensures(label_fn, (t,), r)
            && label@ == spec_confirm_label(r),
{
    match target {
        Some(t) => {
            let r = label_fn(t);
            match r {
                Some(name) => {
                    let mut text = String::from_str("Demolish ");
                    text.append(name.as_str());
                    text.append("?");
                    proof {
                        reveal_strlit("Demolish ");
                        reveal_strlit("?");
                    }
                    assert(text@ == spec_confirm_label(Some(name)));
                    text
                },
                None => String::from_str("Block not found"),
            }
        },
        None => String::from_str("Block not found"),
    }
}

} // verus!
