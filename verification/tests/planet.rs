use gridgame::planet::{
    building_storage_capacity, cell_deposit_summary, hover_deposit_summary, mine_resource_totals,
    resource_kind_from_id, resource_kind_to_id, resource_label, storage_used_total, surface_label,
    expandable_mine_cells, face_group_info, face_name, mine_total_remaining, planet_tool_for_digit, push_log, PlanetBuildingKind,
    PlanetBuildingState, PlanetCellState, PlanetUnit, PlanetDeposit, PlanetResourceKind, PlanetSimWorld, PlanetState,
    PlanetSurfaceClass,
};

fn test_building() -> PlanetBuildingState {
    PlanetBuildingState {
        kind: PlanetBuildingKind::Mine,
        mine_extra: vec![1],
        storage: [0u32; 11],
        build_progress: 0,
        build_time: 1000,
        build_paid: true,
        build_claimed: false,
        builder_units_desired: 0,
        builder_units_created: 0,
        auto_units_enabled: true,
        auto_pick_source: false,
        auto_pick_build: false,
        auto_pick_refuel: false,
        interior: None,
    }
}

fn test_cell(deposits: Vec<PlanetDeposit>) -> PlanetCellState {
    PlanetCellState {
        surface: PlanetSurfaceClass::Land,
        deposits,
        buildable: true,
    }
}

fn sim_world_for_tests(cells: Vec<PlanetCellState>) -> PlanetSimWorld {
    PlanetSimWorld { cells }
}

#[test]
fn mine_total_remaining_sums_center_and_expanded_cells() {
    let building = test_building();
    let sim_world = sim_world_for_tests(vec![
        test_cell(vec![PlanetDeposit {
            kind: PlanetResourceKind::Iron,
            initial_amount: 12,
            remaining_amount: 9,
            grade_permille: 800,
        }]),
        test_cell(vec![PlanetDeposit {
            kind: PlanetResourceKind::Iron,
            initial_amount: 8,
            remaining_amount: 4,
            grade_permille: 800,
        }]),
    ]);

    assert_eq!(mine_total_remaining(Some(&sim_world), 0, &building), 13);
}

#[test]
fn expandable_mine_cells_only_add_matching_adjacent_deposits() {
    let building = test_building();
    let sim_world = sim_world_for_tests(vec![
        test_cell(vec![PlanetDeposit {
            kind: PlanetResourceKind::Iron,
            initial_amount: 10,
            remaining_amount: 10,
            grade_permille: 900,
        }]),
        test_cell(vec![PlanetDeposit {
            kind: PlanetResourceKind::Iron,
            initial_amount: 7,
            remaining_amount: 7,
            grade_permille: 900,
        }]),
        test_cell(vec![PlanetDeposit {
            kind: PlanetResourceKind::Iron,
            initial_amount: 5,
            remaining_amount: 5,
            grade_permille: 900,
        }]),
        test_cell(vec![PlanetDeposit {
            kind: PlanetResourceKind::Copper,
            initial_amount: 6,
            remaining_amount: 6,
            grade_permille: 900,
        }]),
    ]);
    let neighbors = vec![vec![1, 3], vec![0, 2], vec![1], vec![0]];

    assert_eq!(
        expandable_mine_cells(&sim_world, &neighbors, 0, &building),
        vec![2]
    );
}

#[test]
fn mine_total_remaining_without_world_is_zero() {
    let building = test_building();
    assert_eq!(mine_total_remaining(None, 0, &building), 0);
}

fn one_cell_state() -> PlanetState {
    let mut state = PlanetState::new();
    state.sim_world = Some(sim_world_for_tests(vec![
        test_cell(vec![PlanetDeposit {
            kind: PlanetResourceKind::Iron,
            initial_amount: 10,
            remaining_amount: 10,
            grade_permille: 500,
        }]),
        test_cell(Vec::new()),
    ]));
    state
}

#[test]
fn placing_a_base_stocks_it_and_removing_frees_the_cell() {
    let mut state = one_cell_state();
    assert!(state.place_building(0, PlanetBuildingKind::Base));
    let base = state.buildings.get(&0).unwrap();
    assert!(base.build_paid);
    assert_eq!(base.storage, [80, 40, 0, 20, 10, 0, 0, 0, 1800, 0, 0]);
    assert!(state.buildings_dirty);
    assert!(!state.place_building(0, PlanetBuildingKind::Housing));
    assert!(state.remove_building(0));
    assert!(!state.remove_building(0));
    assert!(state.buildings.get(&0).is_none());
}

#[test]
fn a_mine_needs_a_deposit() {
    let mut state = one_cell_state();
    assert!(!state.can_place_building(1, PlanetBuildingKind::Mine));
    assert!(state.can_place_building(1, PlanetBuildingKind::Housing));
    assert!(state.place_building(0, PlanetBuildingKind::Mine));
    let mine = state.buildings.get(&0).unwrap();
    assert!(!mine.build_paid);
    assert_eq!(mine.build_progress, 0);
    assert_eq!(mine.build_time, 9000);
}

#[test]
fn buildings_snapshot_round_trip() {
    let mut state = one_cell_state();
    assert!(state.place_building(0, PlanetBuildingKind::Base));
    assert!(state.place_building(1, PlanetBuildingKind::Warehouse));
    let saved = state.buildings_snapshot();
    let mut other = one_cell_state();
    other.apply_buildings_snapshot(&saved);
    for cell in [0u32, 1u32] {
        let a = state.buildings.get(&cell).unwrap();
        let b = other.buildings.get(&cell).unwrap();
        assert_eq!(a.kind, b.kind);
        assert_eq!(a.storage, b.storage);
        assert_eq!(a.mine_extra, b.mine_extra);
        assert_eq!(a.build_progress, b.build_progress);
        assert_eq!(a.build_time, b.build_time);
        assert_eq!(a.build_paid, b.build_paid);
    }
    assert_eq!(other.buildings.len(), 2);
}

#[test]
fn push_log_keeps_the_newest_twelve() {
    let mut log: Vec<String> = Vec::new();
    for i in 0..15 {
        push_log(&mut log, format!("line {}", i));
    }
    assert_eq!(log.len(), 12);
    assert_eq!(log[0], "line 3");
    assert_eq!(log[11], "line 14");
}

#[test]
fn face_names_use_greek_letters_and_hex_subfaces() {
    assert_eq!(face_group_info(5, 80), (2, 1));
    assert_eq!(face_group_info(3, 0), (0, 0));
    assert_eq!(face_name(5, 80, true), "\u{3b3}01");
    assert_eq!(face_name(0, 80, false), "\u{3b2}");
    assert_eq!(face_name(79, 80, true), "\u{3c6}03");
}

#[test]
fn storage_fills_up_to_capacity() {
    let mut state = one_cell_state();
    assert!(state.place_building(1, PlanetBuildingKind::Housing));
    assert_eq!(building_storage_capacity(PlanetBuildingKind::Housing), 350);
    assert_eq!(state.storage_space_left(1), 350);
    assert_eq!(state.push_to_building_storage(1, PlanetResourceKind::Stone, 300), 300);
    assert_eq!(state.push_to_building_storage(1, PlanetResourceKind::Iron, 80), 50);
    assert_eq!(state.storage_space_left(1), 0);
    let b = state.buildings.get(&1).unwrap();
    assert_eq!(b.storage[8], 300);
    assert_eq!(b.storage[0], 50);
    assert_eq!(storage_used_total(&b.storage), 350);
    assert_eq!(state.push_to_building_storage(0, PlanetResourceKind::Iron, 5), 0);
    assert_eq!(state.storage_space_left(0), 0);
}

#[test]
fn resource_ids_round_trip() {
    assert_eq!(resource_kind_to_id(PlanetResourceKind::Iron), 0);
    assert_eq!(resource_kind_to_id(PlanetResourceKind::Stone), 8);
    assert_eq!(resource_kind_from_id(10), Some(PlanetResourceKind::Salt));
    assert_eq!(resource_kind_from_id(11), None);
    for id in 0u8..11 {
        assert_eq!(resource_kind_to_id(resource_kind_from_id(id).unwrap()), id);
    }
    assert_eq!(resource_label(PlanetResourceKind::FreshWater), "FreshWater");
}

#[test]
fn deposit_summaries() {
    let cell = test_cell(vec![
        PlanetDeposit { kind: PlanetResourceKind::Iron, initial_amount: 12, remaining_amount: 9, grade_permille: 800 },
        PlanetDeposit { kind: PlanetResourceKind::Copper, initial_amount: 4, remaining_amount: 3, grade_permille: 650 },
    ]);
    assert_eq!(cell_deposit_summary(&cell), "Iron 9/12 | Copper 3/4");
    assert_eq!(hover_deposit_summary(&cell), "Iron 9/12 grade:800 | Copper 3/4 grade:650");
    assert_eq!(cell_deposit_summary(&test_cell(Vec::new())), "No deposits");
}

#[test]
fn mine_resource_totals_by_kind() {
    let building = test_building();
    let world = sim_world_for_tests(vec![
        test_cell(vec![
            PlanetDeposit { kind: PlanetResourceKind::Copper, initial_amount: 5, remaining_amount: 5, grade_permille: 1 },
            PlanetDeposit { kind: PlanetResourceKind::Iron, initial_amount: 5, remaining_amount: 2, grade_permille: 1 },
        ]),
        test_cell(vec![
            PlanetDeposit { kind: PlanetResourceKind::Iron, initial_amount: 5, remaining_amount: 4, grade_permille: 1 },
            PlanetDeposit { kind: PlanetResourceKind::Gold, initial_amount: 5, remaining_amount: 0, grade_permille: 1 },
        ]),
    ]);
    assert_eq!(
        mine_resource_totals(Some(&world), 0, &building),
        vec![(PlanetResourceKind::Iron, 6), (PlanetResourceKind::Copper, 5)]
    );
    assert!(mine_resource_totals(None, 0, &building).is_empty());
}

#[test]
fn surface_labels() {
    assert_eq!(surface_label(PlanetSurfaceClass::Land), "Land");
    assert_eq!(surface_label(PlanetSurfaceClass::Coast), "Coast");
    assert_eq!(surface_label(PlanetSurfaceClass::Water), "Water");
}

#[test]
fn only_a_base_gets_an_interior() {
    let mut state = one_cell_state();
    assert!(state.place_building(0, PlanetBuildingKind::Base));
    assert!(state.place_building(1, PlanetBuildingKind::Housing));
    assert!(state.buildings.get(&0).unwrap().interior.is_some());
    assert!(state.buildings.get(&1).unwrap().interior.is_none());
    let saved = state.buildings_snapshot();
    let mut other = one_cell_state();
    other.apply_buildings_snapshot(&saved);
    assert!(other.buildings.get(&0).unwrap().interior.is_some());
    assert!(other.buildings.get(&1).unwrap().interior.is_none());
}

fn unit(depot: u32, nodes: Vec<u32>, current_target: Option<u32>) -> PlanetUnit {
    PlanetUnit { depot, nodes, path: Vec::new(), index: 0, current_target }
}

#[test]
fn removing_a_building_drops_the_units_and_progress_tied_to_it() {
    let mut state = one_cell_state();
    assert!(state.place_building(0, PlanetBuildingKind::Mine));
    assert!(state.place_building(1, PlanetBuildingKind::Housing));
    state.units.push(unit(1, vec![0], None));
    state.units.push(unit(1, vec![1], None));
    state.units.push(unit(0, Vec::new(), None));
    state.units.push(unit(1, Vec::new(), Some(0)));
    state.mine_progress.insert(0, 250);
    state.mine_progress.insert(1, 40);
    assert!(state.remove_building(0));
    assert_eq!(state.units.len(), 1);
    assert_eq!(state.units[0].nodes, vec![1]);
    assert!(state.units_dirty);
    assert!(state.mine_progress.get(&0).is_none());
    assert_eq!(state.mine_progress.get(&1), Some(&40));
}

#[test]
fn removing_a_building_no_unit_uses_keeps_units_clean() {
    let mut state = one_cell_state();
    assert!(state.place_building(1, PlanetBuildingKind::Housing));
    state.units.push(unit(5, vec![6], Some(7)));
    assert!(state.remove_building(1));
    assert_eq!(state.units.len(), 1);
    assert!(!state.units_dirty);
}

#[test]
fn mine_totals_add_up_to_the_total_remaining() {
    let building = test_building();
    let world = sim_world_for_tests(vec![
        test_cell(vec![
            PlanetDeposit { kind: PlanetResourceKind::Salt, initial_amount: 9, remaining_amount: 7, grade_permille: 1 },
            PlanetDeposit { kind: PlanetResourceKind::Iron, initial_amount: 5, remaining_amount: 3, grade_permille: 1 },
        ]),
        test_cell(vec![
            PlanetDeposit { kind: PlanetResourceKind::Salt, initial_amount: 5, remaining_amount: 1, grade_permille: 1 },
            PlanetDeposit { kind: PlanetResourceKind::Stone, initial_amount: 5, remaining_amount: 11, grade_permille: 1 },
        ]),
    ]);
    let totals = mine_resource_totals(Some(&world), 0, &building);
    let sum: u32 = totals.iter().map(|(_, n)| *n).sum();
    assert_eq!(sum, 22);
    assert_eq!(sum, mine_total_remaining(Some(&world), 0, &building));
}

#[test]
fn number_keys_pick_planet_tools() {
    assert_eq!(planet_tool_for_digit(1), Some(None));
    assert_eq!(planet_tool_for_digit(2), Some(Some(PlanetBuildingKind::Base)));
    assert_eq!(planet_tool_for_digit(3), Some(Some(PlanetBuildingKind::Mine)));
    assert_eq!(planet_tool_for_digit(0), Some(Some(PlanetBuildingKind::Route)));
    assert_eq!(planet_tool_for_digit(12), None);
}
