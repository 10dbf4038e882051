use gridgame::hex::Axial;
use gridgame::map_common::{confirm_label_for_target, in_bounds, MapOutline};

#[test]
fn confirm_label_missing_target() {
    let label = confirm_label_for_target(None, |_target| Some("X".to_string()));
    assert_eq!(label, "Block not found");
}

#[test]
fn confirm_label_with_target() {
    let target = Axial { q: 1, r: -2 };
    let label = confirm_label_for_target(Some(target), |_target| Some("Test".to_string()));
    assert_eq!(label, "Demolish Test?");
}

#[test]
fn confirm_label_unnamed_block() {
    let target = Axial { q: 0, r: 0 };
    let label = confirm_label_for_target(Some(target), |_target| None);
    assert_eq!(label, "Block not found");
}

#[test]
fn confirm_label_passes_the_target_to_the_namer() {
    let target = Axial { q: 4, r: -1 };
    let label = confirm_label_for_target(Some(target), |t| {
        if t == (Axial { q: 4, r: -1 }) {
            Some("Mine".to_string())
        } else {
            None
        }
    });
    assert_eq!(label, "Demolish Mine?");
}

#[test]
fn in_bounds_hexagon_uses_grid_distance() {
    assert!(in_bounds(Axial { q: 2, r: -1 }, MapOutline::Hexagon, 2, 10));
    assert!(in_bounds(Axial { q: 0, r: 0 }, MapOutline::Hexagon, 0, 10));
    assert!(!in_bounds(Axial { q: 3, r: -1 }, MapOutline::Hexagon, 2, 10));
    assert!(!in_bounds(Axial { q: 2, r: 2 }, MapOutline::Hexagon, 3, 10));
}

#[test]
fn in_bounds_triangle_corner_and_edges() {
    assert!(in_bounds(Axial { q: 0, r: 0 }, MapOutline::Triangle, 0, 7));
    assert!(in_bounds(Axial { q: 3, r: 4 }, MapOutline::Triangle, 0, 7));
    assert!(!in_bounds(Axial { q: 4, r: 4 }, MapOutline::Triangle, 0, 7));
    assert!(!in_bounds(Axial { q: -1, r: 0 }, MapOutline::Triangle, 0, 7));
    assert!(!in_bounds(Axial { q: 0, r: -1 }, MapOutline::Triangle, 0, 7));
}
