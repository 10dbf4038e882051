use gridgame::construction::{
    advance_construction, can_place_block, ensure_base, keep_unit, next_rotation, placement_rotation, plan_supply_run,
    start_supply_unit,
};
use gridgame::hex::{find_direct_path, hex_distance, Axial};
use gridgame::map_common::MapOutline;
use gridgame::mining::{expand_mine_area, mine_step, mine_targets, mine_total_remaining, tile_can_be_mined, TileMap};
use gridgame::route::find_route_path;
use gridgame::sector::{BlockMap, BuildBlockType, PlacedBlock, TileData, TileType};
use gridgame::storage::{amount_of_kind, storage_total, ItemStack, ItemType};
use gridgame::supply::{
    available_item_amount_near, consume_requirements_near, has_requirements_near, missing_requirements_near,
    nearest_supply_with_items,
};
use gridgame::units::{advance_index, step_unit, Unit};

fn ax(q: i32, r: i32) -> Axial {
    Axial { q, r }
}

fn block(kind: BuildBlockType, stored: Vec<ItemStack>, finished: bool) -> PlacedBlock {
    PlacedBlock {
        kind,
        rotation: 0,
        stored,
        capacity: 100,
        mine_extra: Vec::new(),
        build_paid: finished,
        build_progress: if finished { 1000 } else { 0 },
        build_time: 1000,
    }
}

fn iron(n: i32) -> ItemStack {
    ItemStack { kind: ItemType::Iron, amount: n }
}

fn map_of(entries: Vec<(Axial, PlacedBlock)>) -> BlockMap {
    let mut m = BlockMap::new();
    for (h, b) in entries {
        m.insert(h, b);
    }
    m
}

fn iron_at(m: &BlockMap, h: Axial) -> i32 {
    amount_of_kind(m.get(h).unwrap().stored.as_slice(), ItemType::Iron)
}

#[test]
fn site_draws_on_itself_and_finished_neighbours_only() {
    let m = map_of(vec![
        (ax(0, 0), block(BuildBlockType::Housing, vec![iron(2)], false)),
        (ax(1, 0), block(BuildBlockType::Warehouse, vec![iron(3)], true)),
        (ax(1, -1), block(BuildBlockType::Factory, vec![iron(7)], false)),
        (ax(0, 1), block(BuildBlockType::Warehouse, vec![iron(1), ItemStack { kind: ItemType::Copper, amount: 4 }], true)),
        (ax(5, 5), block(BuildBlockType::Warehouse, vec![iron(100)], true)),
    ]);
    assert_eq!(available_item_amount_near(&m, ax(0, 0), ItemType::Iron), 6);
    assert_eq!(available_item_amount_near(&m, ax(0, 0), ItemType::Copper), 4);
    assert_eq!(available_item_amount_near(&m, ax(0, 0), ItemType::Gold), 0);
    assert!(has_requirements_near(&m, ax(0, 0), &[iron(6)]));
    assert!(!has_requirements_near(&m, ax(0, 0), &[iron(7)]));
    assert_eq!(
        missing_requirements_near(&m, ax(0, 0), &[iron(5), ItemStack { kind: ItemType::Copper, amount: 5 }, ItemStack { kind: ItemType::Gold, amount: 1 }]),
        vec![ItemType::Copper, ItemType::Gold]
    );
}

#[test]
fn consuming_takes_from_the_site_then_neighbours_in_direction_order() {
    let mut m = map_of(vec![
        (ax(0, 0), block(BuildBlockType::Housing, vec![iron(2)], false)),
        (ax(1, 0), block(BuildBlockType::Warehouse, vec![iron(3)], true)),
        (ax(1, -1), block(BuildBlockType::Warehouse, vec![iron(5)], true)),
        (ax(2, 0), block(BuildBlockType::Warehouse, vec![iron(9)], true)),
    ]);
    assert!(consume_requirements_near(&mut m, ax(0, 0), &[iron(6)]));
    assert_eq!(m.get(ax(0, 0)).unwrap().stored.len(), 0);
    assert_eq!(m.get(ax(1, 0)).unwrap().stored.len(), 0);
    assert_eq!(iron_at(&m, ax(1, -1)), 4);
    assert_eq!(iron_at(&m, ax(2, 0)), 9);
}

#[test]
fn consuming_without_enough_changes_nothing() {
    let mut m = map_of(vec![
        (ax(0, 0), block(BuildBlockType::Housing, vec![iron(2)], false)),
        (ax(1, 0), block(BuildBlockType::Warehouse, vec![iron(3)], true)),
    ]);
    assert!(!consume_requirements_near(&mut m, ax(0, 0), &[iron(1), ItemStack { kind: ItemType::Copper, amount: 1 }]));
    assert_eq!(iron_at(&m, ax(0, 0)), 2);
    assert_eq!(iron_at(&m, ax(1, 0)), 3);
}

#[test]
fn consuming_lowers_what_the_site_can_draw_by_the_requirement() {
    let mut m = map_of(vec![
        (ax(0, 0), block(BuildBlockType::Housing, vec![iron(4)], false)),
        (ax(-1, 0), block(BuildBlockType::Warehouse, vec![iron(6), ItemStack { kind: ItemType::Copper, amount: 3 }], true)),
    ]);
    let before = available_item_amount_near(&m, ax(0, 0), ItemType::Iron);
    let copper_before = available_item_amount_near(&m, ax(0, 0), ItemType::Copper);
    assert!(consume_requirements_near(&mut m, ax(0, 0), &[iron(7)]));
    assert_eq!(available_item_amount_near(&m, ax(0, 0), ItemType::Iron), before - 7);
    assert_eq!(available_item_amount_near(&m, ax(0, 0), ItemType::Copper), copper_before);
}

#[test]
fn nearest_supply_prefers_warehouses_then_the_nearest() {
    let needed = [ItemType::Iron];
    let m = map_of(vec![
        (ax(1, 0), block(BuildBlockType::Base, vec![iron(50)], true)),
        (ax(3, 0), block(BuildBlockType::Warehouse, vec![iron(5)], true)),
        (ax(0, 2), block(BuildBlockType::Warehouse, vec![iron(5)], true)),
        (ax(0, -1), block(BuildBlockType::Warehouse, vec![iron(5)], false)),
        (ax(-1, 0), block(BuildBlockType::Factory, vec![iron(5)], true)),
    ]);
    assert_eq!(nearest_supply_with_items(&m, ax(0, 0), &needed), Some(ax(0, 2)));
    let only_base = map_of(vec![
        (ax(1, 0), block(BuildBlockType::Base, vec![iron(50)], true)),
        (ax(3, 0), block(BuildBlockType::Warehouse, vec![ItemStack { kind: ItemType::Copper, amount: 5 }], true)),
    ]);
    assert_eq!(nearest_supply_with_items(&only_base, ax(0, 0), &needed), Some(ax(1, 0)));
    assert_eq!(nearest_supply_with_items(&only_base, ax(0, 0), &[ItemType::Gold]), None);
}

#[test]
fn route_path_follows_finished_routes() {
    let m = map_of(vec![
        (ax(1, 0), block(BuildBlockType::Route, Vec::new(), true)),
        (ax(2, 0), block(BuildBlockType::Route, Vec::new(), true)),
        (ax(3, 0), block(BuildBlockType::Warehouse, Vec::new(), true)),
    ]);
    assert_eq!(find_route_path(ax(0, 0), ax(3, 0), &m), Some(vec![ax(0, 0), ax(1, 0), ax(2, 0), ax(3, 0)]));
    assert_eq!(find_route_path(ax(2, 2), ax(2, 2), &m), Some(vec![ax(2, 2)]));
}

#[test]
fn route_path_needs_finished_routes() {
    let m = map_of(vec![
        (ax(1, 0), block(BuildBlockType::Route, Vec::new(), true)),
        (ax(2, 0), block(BuildBlockType::Route, Vec::new(), false)),
    ]);
    assert_eq!(find_route_path(ax(0, 0), ax(3, 0), &m), None);
    let no_routes = map_of(vec![(ax(1, 0), block(BuildBlockType::Warehouse, Vec::new(), true))]);
    assert_eq!(find_route_path(ax(0, 0), ax(2, 0), &no_routes), None);
    assert_eq!(find_route_path(ax(0, 0), ax(1, 0), &no_routes), Some(vec![ax(0, 0), ax(1, 0)]));
}

#[test]
fn direct_path_walks_greedily() {
    assert_eq!(find_direct_path(ax(0, 0), ax(2, -1)), Some(vec![ax(0, 0), ax(1, 0), ax(2, -1)]));
    assert_eq!(find_direct_path(ax(0, 0), ax(0, 0)), Some(vec![ax(0, 0)]));
    assert_eq!(find_direct_path(ax(0, 0), ax(5000, 0)), None);
    assert_eq!(hex_distance(ax(0, 0), ax(2, -1)), 2);
    assert_eq!(hex_distance(ax(-3, 1), ax(2, 2)), 6);
}

fn tiles(entries: Vec<(Axial, TileType, i32)>) -> TileMap {
    TileMap { entries: entries.into_iter().map(|(h, kind, amount)| (h, TileData { kind, amount })).collect() }
}

#[test]
fn mining_takes_from_the_first_tile_with_something_left() {
    let mut t = tiles(vec![(ax(0, 0), TileType::Iron, 0), (ax(1, 0), TileType::Iron, 5)]);
    let mut mine = block(BuildBlockType::Mine, Vec::new(), true);
    mine.capacity = 10;
    mine.mine_extra = vec![ax(1, 0)];
    assert_eq!(mine_targets(ax(0, 0), &mine), vec![ax(0, 0), ax(1, 0)]);
    assert_eq!(mine_total_remaining(ax(0, 0), &mine, &t), 5);
    assert_eq!(mine_step(ax(0, 0), &mut mine, &mut t), 1);
    assert_eq!(amount_of_kind(mine.stored.as_slice(), ItemType::Iron), 1);
    assert_eq!(amount_of_kind(mine.stored.as_slice(), ItemType::Gangue), 2);
    assert_eq!(t.get(ax(1, 0)).unwrap().amount, 4);
    assert_eq!(mine_total_remaining(ax(0, 0), &mine, &t), 4);
}

#[test]
fn mining_water_gives_no_gangue_and_a_full_mine_stops() {
    let mut t = tiles(vec![(ax(0, 0), TileType::Water, 3)]);
    let mut mine = block(BuildBlockType::Mine, Vec::new(), true);
    mine.capacity = 2;
    assert_eq!(mine_step(ax(0, 0), &mut mine, &mut t), 1);
    assert_eq!(amount_of_kind(mine.stored.as_slice(), ItemType::Water), 1);
    assert_eq!(amount_of_kind(mine.stored.as_slice(), ItemType::Gangue), 0);
    assert_eq!(mine_step(ax(0, 0), &mut mine, &mut t), 1);
    assert_eq!(mine_step(ax(0, 0), &mut mine, &mut t), 0);
    assert_eq!(t.get(ax(0, 0)).unwrap().amount, 1);
    assert_eq!(storage_total(mine.stored.as_slice()), 2);
    let mut empty = tiles(vec![(ax(0, 0), TileType::Iron, 0)]);
    assert_eq!(mine_step(ax(0, 0), &mut mine, &mut empty), 0);
}

#[test]
fn mine_grows_over_matching_neighbours_once() {
    let t = tiles(vec![
        (ax(0, 0), TileType::Iron, 5),
        (ax(1, 0), TileType::Iron, 5),
        (ax(0, 1), TileType::Copper, 5),
        (ax(-1, 0), TileType::Iron, 5),
    ]);
    let mut mine = block(BuildBlockType::Mine, Vec::new(), true);
    assert!(expand_mine_area(ax(0, 0), &mut mine, &t));
    assert_eq!(mine.mine_extra, vec![ax(1, 0), ax(-1, 0)]);
    assert!(!expand_mine_area(ax(0, 0), &mut mine, &t));
    assert_eq!(mine.mine_extra, vec![ax(1, 0), ax(-1, 0)]);
    let mut off_map = block(BuildBlockType::Mine, Vec::new(), true);
    assert!(!expand_mine_area(ax(9, 9), &mut off_map, &t));
    assert!(off_map.mine_extra.is_empty());
}

#[test]
fn mines_need_ore_with_something_left() {
    assert!(tile_can_be_mined(Some(TileData { kind: TileType::Gold, amount: 1 })));
    assert!(!tile_can_be_mined(Some(TileData { kind: TileType::Gold, amount: 0 })));
    assert!(!tile_can_be_mined(Some(TileData { kind: TileType::Water, amount: 9 })));
    assert!(!tile_can_be_mined(None));
}

#[test]
fn units_walk_back_and_forth() {
    assert_eq!(advance_index(0, true, 3), (1, true));
    assert_eq!(advance_index(1, true, 3), (2, false));
    assert_eq!(advance_index(2, false, 3), (1, false));
    assert_eq!(advance_index(1, false, 3), (0, true));
}

fn unit_on(path: Vec<Axial>, station_in: Axial, station_out: Axial) -> Unit {
    Unit {
        path,
        index: 0,
        forward: true,
        capacity: 30,
        cargo: Vec::new(),
        depot: ax(0, 0),
        station_in,
        station_out,
        auto_supply: false,
        supply_types: Vec::new(),
    }
}

#[test]
fn units_load_and_unload_without_losing_items() {
    let mut m = map_of(vec![
        (ax(0, 0), block(BuildBlockType::Warehouse, Vec::new(), true)),
        (ax(1, 0), block(BuildBlockType::Mine, vec![iron(40)], true)),
    ]);
    let mut unit = unit_on(vec![ax(0, 0), ax(1, 0)], ax(1, 0), ax(0, 0));
    step_unit(&mut unit, &mut m);
    assert_eq!(unit.index, 1);
    assert!(!unit.forward);
    assert_eq!(storage_total(unit.cargo.as_slice()), 30);
    assert_eq!(iron_at(&m, ax(1, 0)), 10);
    step_unit(&mut unit, &mut m);
    assert_eq!(unit.index, 0);
    assert!(unit.forward);
    assert_eq!(storage_total(unit.cargo.as_slice()), 0);
    assert_eq!(iron_at(&m, ax(0, 0)), 30);
}

#[test]
fn supply_units_load_only_their_kinds() {
    let mut m = map_of(vec![
        (ax(0, 0), block(BuildBlockType::Warehouse, vec![ItemStack { kind: ItemType::Copper, amount: 9 }, iron(4)], true)),
    ]);
    let mut unit = unit_on(vec![ax(1, 0), ax(0, 0)], ax(0, 0), ax(1, 0));
    unit.auto_supply = true;
    unit.supply_types = vec![ItemType::Iron];
    step_unit(&mut unit, &mut m);
    assert_eq!(amount_of_kind(unit.cargo.as_slice(), ItemType::Iron), 4);
    assert_eq!(amount_of_kind(unit.cargo.as_slice(), ItemType::Copper), 0);
    assert_eq!(amount_of_kind(m.get(ax(0, 0)).unwrap().stored.as_slice(), ItemType::Copper), 9);
}

#[test]
fn construction_pays_then_progresses_up_to_its_time() {
    let mut m = map_of(vec![
        (ax(0, 0), block(BuildBlockType::Housing, Vec::new(), false)),
        (ax(1, 0), block(BuildBlockType::Warehouse, vec![iron(10)], true)),
    ]);
    advance_construction(&mut m, ax(0, 0), &[iron(4)], 300);
    let site = m.get(ax(0, 0)).unwrap();
    assert!(site.build_paid);
    assert_eq!(site.build_progress, 300);
    assert_eq!(iron_at(&m, ax(1, 0)), 6);
    advance_construction(&mut m, ax(0, 0), &[iron(4)], 900);
    assert_eq!(m.get(ax(0, 0)).unwrap().build_progress, 1000);
    assert_eq!(iron_at(&m, ax(1, 0)), 6);
}

#[test]
fn construction_waits_for_materials() {
    let mut m = map_of(vec![(ax(0, 0), block(BuildBlockType::Housing, Vec::new(), false))]);
    advance_construction(&mut m, ax(0, 0), &[iron(4)], 300);
    let site = m.get(ax(0, 0)).unwrap();
    assert!(!site.build_paid);
    assert_eq!(site.build_progress, 0);
    advance_construction(&mut m, ax(0, 0), &[], 300);
    assert!(m.get(ax(0, 0)).unwrap().build_paid);
    assert_eq!(m.get(ax(0, 0)).unwrap().build_progress, 300);
}

#[test]
fn supply_run_from_the_base_goes_straight_to_the_site() {
    let mut m = map_of(vec![
        (ax(0, 0), block(BuildBlockType::Base, vec![iron(50)], true)),
        (ax(3, 0), block(BuildBlockType::Housing, Vec::new(), false)),
    ]);
    let sites = vec![(ax(3, 0), vec![iron(5)])];
    let plan = plan_supply_run(&m, &sites, ax(0, 0)).unwrap();
    assert_eq!(plan.target, ax(3, 0));
    assert_eq!(plan.source, ax(0, 0));
    assert_eq!(plan.missing, vec![ItemType::Iron]);
    assert_eq!(plan.path, vec![ax(0, 0), ax(1, 0), ax(2, 0), ax(3, 0)]);
    let unit = start_supply_unit(plan, &mut m, ax(0, 0));
    assert!(unit.auto_supply);
    assert_eq!(unit.station_out, ax(3, 0));
    assert_eq!(amount_of_kind(unit.cargo.as_slice(), ItemType::Iron), 30);
    assert_eq!(iron_at(&m, ax(0, 0)), 20);
    assert!(keep_unit(&unit, &m, ax(0, 0)));
}

#[test]
fn supply_run_through_a_warehouse_and_the_nearest_site_wins() {
    let m = map_of(vec![
        (ax(0, 0), block(BuildBlockType::Base, Vec::new(), true)),
        (ax(0, 4), block(BuildBlockType::Warehouse, vec![iron(20)], true)),
        (ax(2, 3), block(BuildBlockType::Housing, Vec::new(), false)),
        (ax(-3, 6), block(BuildBlockType::Housing, Vec::new(), false)),
    ]);
    let sites = vec![(ax(-3, 6), vec![iron(5)]), (ax(2, 3), vec![iron(5)])];
    let plan = plan_supply_run(&m, &sites, ax(0, 0)).unwrap();
    assert_eq!(plan.target, ax(2, 3));
    assert_eq!(plan.source, ax(0, 4));
    assert_eq!(plan.path[0], ax(0, 0));
    assert_eq!(plan.path[4], ax(0, 4));
    assert_eq!(*plan.path.last().unwrap(), ax(2, 3));
    assert_eq!(plan.path.len(), 4 + 2 + 1);
    let paid_only = vec![(ax(0, 0), vec![iron(5)])];
    assert!(plan_supply_run(&m, &paid_only, ax(0, 0)).is_none());
}

#[test]
fn finished_supply_units_retire_at_the_base() {
    let m = map_of(vec![
        (ax(0, 0), block(BuildBlockType::Base, Vec::new(), true)),
        (ax(1, 0), block(BuildBlockType::Housing, Vec::new(), true)),
    ]);
    let mut unit = unit_on(vec![ax(0, 0), ax(1, 0)], ax(0, 0), ax(1, 0));
    assert!(keep_unit(&unit, &m, ax(0, 0)));
    unit.auto_supply = true;
    assert!(!keep_unit(&unit, &m, ax(0, 0)));
    unit.index = 1;
    assert!(keep_unit(&unit, &m, ax(0, 0)));
}

#[test]
fn placing_blocks_and_rotations() {
    let t = tiles(vec![(ax(1, 0), TileType::Iron, 3), (ax(2, 0), TileType::Water, 3)]);
    let mut m = map_of(vec![(ax(0, 0), block(BuildBlockType::Base, Vec::new(), true))]);
    assert!(!can_place_block(&m, &t, ax(0, 0), BuildBlockType::Housing, MapOutline::Hexagon, 5, 0));
    assert!(can_place_block(&m, &t, ax(1, 0), BuildBlockType::Mine, MapOutline::Hexagon, 5, 0));
    assert!(!can_place_block(&m, &t, ax(2, 0), BuildBlockType::Mine, MapOutline::Hexagon, 5, 0));
    assert!(can_place_block(&m, &t, ax(2, 0), BuildBlockType::Route, MapOutline::Hexagon, 5, 0));
    assert!(!can_place_block(&m, &t, ax(9, 0), BuildBlockType::Route, MapOutline::Hexagon, 5, 0));
    assert_eq!(placement_rotation(BuildBlockType::Route, 4), 0);
    assert_eq!(placement_rotation(BuildBlockType::Mine, 4), 4);
    assert_eq!(next_rotation(5), 0);
    assert_eq!(next_rotation(2), 3);
    assert!(m.remove(ax(0, 0)).is_some());
    assert!(m.remove(ax(0, 0)).is_none());
    assert!(!m.contains_key(ax(0, 0)));
}

#[test]
fn route_path_takes_the_shortest_way() {
    let m = map_of(vec![
        (ax(0, 1), block(BuildBlockType::Route, Vec::new(), true)),
        (ax(1, 1), block(BuildBlockType::Route, Vec::new(), true)),
        (ax(2, 1), block(BuildBlockType::Route, Vec::new(), true)),
        (ax(1, 0), block(BuildBlockType::Route, Vec::new(), true)),
        (ax(2, 0), block(BuildBlockType::Route, Vec::new(), true)),
    ]);
    let path = find_route_path(ax(0, 0), ax(3, 0), &m).unwrap();
    assert_eq!(path.len(), 4);
    assert_eq!(path[0], ax(0, 0));
    assert_eq!(path[3], ax(3, 0));
    for w in path.windows(2) {
        assert_eq!(hex_distance(w[0], w[1]), 1);
    }
}

#[test]
fn blocks_insert_replace_and_lookup() {
    let mut m = BlockMap::new();
    m.insert(ax(2, 2), block(BuildBlockType::Warehouse, vec![iron(3)], true));
    m.insert(ax(1, 1), block(BuildBlockType::Mine, Vec::new(), false));
    m.insert(ax(2, 2), block(BuildBlockType::Factory, vec![iron(9)], true));
    assert_eq!(m.entries.len(), 2);
    assert_eq!(m.get(ax(2, 2)).unwrap().kind, BuildBlockType::Factory);
    assert_eq!(iron_at(&m, ax(2, 2)), 9);
    assert_eq!(m.get(ax(1, 1)).unwrap().kind, BuildBlockType::Mine);
    assert!(m.get(ax(0, 0)).is_none());
    let removed = m.remove(ax(1, 1)).unwrap();
    assert_eq!(removed.kind, BuildBlockType::Mine);
    assert_eq!(m.entries.len(), 1);
}

#[test]
fn a_missing_base_is_placed_stocked() {
    let mut m = map_of(vec![(ax(3, 3), block(BuildBlockType::Route, Vec::new(), true))]);
    let mut fresh = block(BuildBlockType::Base, Vec::new(), false);
    fresh.capacity = 2000;
    assert!(ensure_base(&mut m, ax(3, 3), fresh.clone()));
    let base = m.get(ax(3, 3)).unwrap();
    assert_eq!(base.kind, BuildBlockType::Base);
    assert!(base.build_paid);
    assert_eq!(base.build_time, 0);
    assert_eq!(
        base.stored,
        vec![
            ItemStack { kind: ItemType::Gangue, amount: 1800 },
            iron(80),
            ItemStack { kind: ItemType::Copper, amount: 40 },
            ItemStack { kind: ItemType::Lead, amount: 20 },
            ItemStack { kind: ItemType::Zinc, amount: 10 },
        ]
    );
    assert!(!ensure_base(&mut m, ax(3, 3), fresh));
}

#[test]
fn a_small_base_is_stocked_up_to_its_capacity() {
    let mut m = BlockMap::new();
    let mut fresh = block(BuildBlockType::Base, Vec::new(), false);
    fresh.capacity = 1850;
    assert!(ensure_base(&mut m, ax(0, 0), fresh));
    let base = m.get(ax(0, 0)).unwrap();
    assert_eq!(base.stored, vec![ItemStack { kind: ItemType::Gangue, amount: 1800 }, iron(50)]);
}

#[test]
fn a_unit_with_one_station_loads_then_unloads_there() {
    let mut m = map_of(vec![(ax(1, 0), block(BuildBlockType::Warehouse, vec![iron(40)], true))]);
    let mut unit = unit_on(vec![ax(0, 0), ax(1, 0)], ax(1, 0), ax(1, 0));
    step_unit(&mut unit, &mut m);
    assert_eq!(storage_total(unit.cargo.as_slice()), 0);
    assert_eq!(iron_at(&m, ax(1, 0)), 40);
}

#[test]
fn consuming_leaves_neighbouring_sites_alone() {
    let mut m = map_of(vec![
        (ax(0, 0), block(BuildBlockType::Housing, vec![iron(1)], false)),
        (ax(1, 0), block(BuildBlockType::Warehouse, vec![iron(8)], false)),
        (ax(0, 1), block(BuildBlockType::Warehouse, vec![iron(4)], true)),
    ]);
    assert!(consume_requirements_near(&mut m, ax(0, 0), &[iron(3)]));
    assert_eq!(iron_at(&m, ax(1, 0)), 8);
    assert_eq!(iron_at(&m, ax(0, 1)), 2);
    assert_eq!(m.get(ax(0, 0)).unwrap().stored.len(), 0);
}
