//! Construction on the sector map: paying for a building site and letting
//! its work advance, planning supply runs to sites that lack materials, and
//! starting the unit that carries them.

use vstd::prelude::*;
use crate::hex::{Axial, find_direct_path, greedy_path, hex_dist, hex_distance, in_step_range};
use crate::sector::{BlockMap, BlockView, blocks_total, blocks_wf, index_of, keys_unique, lemma_index_of, spec_is_under_construction};
use crate::storage::{ItemStack, ItemType, add_item, drain, stacks_total, stacks_wf};
use crate::supply::{
    consume_all_near, consume_requirements_near, lemma_consume_all_near, missing_kinds,
    missing_requirements_near, nearest_supply_with_items, spec_has_requirements_near, spec_nearest_supply,
    supply_candidate,
};
use crate::units::{Unit, exchanged, load_at};

verus! {

/// Blocks with the same hexes and stores in the same places are equally
/// well-formed.
proof fn lemma_same_stores(v: Seq<(Axial, BlockView)>, w: Seq<(Axial, BlockView)>)
    requires
        v.len() == w.len(),
        forall|j: int| 0 <= j < v.len() ==> (#[trigger] w[j]).0 == v[j].0 && w[j].1.stored == v[j].1.stored,
    ensures
        blocks_total(w) == blocks_total(v),
        blocks_wf(v) ==> blocks_wf(w),
    decreases v.len(),
{
    if v.len() > 0 {
        let dv = v.drop_last();
        let dw = w.drop_last();
        assert forall|j: int| 0 <= j < dv.len() implies (#[trigger] dw[j]).0 == dv[j].0 && dw[j].1.stored == dv[j].1.stored by {
            assert(dw[j] == w[j] && dv[j] == v[j]);
        }
        lemma_same_stores(dv, dw);
        assert(w.last() == w[w.len() - 1] && v.last() == v[v.len() - 1]);
    }
    if blocks_wf(v) {
        assert forall|a: int, b: int| 0 <= a < b < w.len() implies #[trigger] w[a].0 != #[trigger] w[b].0 by {
            assert(w[a].0 == v[a].0 && w[b].0 == v[b].0);
        }
        assert forall|j: int| 0 <= j < w.len() implies crate::storage::stacks_wf(#[trigger] w[j].1.stored) by {
            assert(w[j].1.stored == v[j].1.stored);
        }
    }
}

/// A site's progress after `dt` more milliseconds of work, never past its
/// build time.
pub open spec fn progressed(progress: u32, time: u32, dt: u32) -> u32 {
    if progress + dt > time { time } else { (progress + dt) as u32 }
}

/// The blocks after one frame of work on the site at `hex` (with the given
/// requirements), as `advance_construction` leaves them.
pub open spec fn spec_advance_construction(v: Seq<(Axial, BlockView)>, hex: Axial, reqs: Seq<ItemStack>, dt: u32) -> Seq<(Axial, BlockView)> {
    let i = index_of(v, hex);
    if i < 0 {
        v
    } else {
        let b = v[i].1;
        let can_pay = reqs.len() == 0 || spec_has_requirements_near(v, hex, reqs);
        let v1 = if !b.build_paid && reqs.len() > 0 && can_pay { consume_all_near(v, hex, reqs) } else { v };
        let paid = b.build_paid || can_pay;
        let b1 = v1[i].1;
        v1.update(i, (hex, BlockView {
            build_paid: paid,
            build_progress: if paid { progressed(b1.build_progress, b1.build_time, dt) } else { b1.build_progress },
            ..b1
        }))
    }
}

/// One frame of work on the building site at `hex`: a site not yet paid for
/// takes its requirements from its own store and its finished neighbours
/// when they cover them all (at once when it has none) and is then paid
/// for; a paid site's progress grows by `dt_ms`, never past its build time.
#[verifier::spinoff_prover]
pub fn advance_construction(blocks: &mut BlockMap, hex: Axial, reqs: &[ItemStack], dt_ms: u32)
    requires
        old(blocks).wf(),
        in_step_range(hex),
    ensures
        final(blocks).wf(),
        final(blocks).view_entries() == spec_advance_construction(old(blocks).view_entries(), hex, reqs@, dt_ms),
{
    let ghost v = blocks.view_entries();
    proof {
        lemma_index_of(v, hex);
    }
    let idx0 = match blocks.find(hex) {
        Some(i) => i,
        None => return,
    };
    let needs_pay = !blocks.entries[idx0].1.build_paid;
    let mut paid = !needs_pay;
    if needs_pay {
        if reqs.len() == 0 {
            paid = true;
        } else {
            paid = consume_requirements_near(blocks, hex, reqs);
        }
    }
    proof {
        if needs_pay && reqs.len() == 0 {
            assert(spec_has_requirements_near(v, hex, reqs@));
        }
        lemma_consume_all_near(v, hex, reqs@);
    }
    let ghost v1 = blocks.view_entries();
    assert(v1.len() == v.len() && v1[idx0 as int].0 == hex);
    proof {
        lemma_index_of(v1, hex);
    }
    let ghost ent0 = blocks.entries@;
    let (h, mut block) = blocks.entries.remove(idx0);
    if paid {
        block.build_paid = true;
        let sum = block.build_progress.saturating_add(dt_ms);
        block.build_progress = if sum > block.build_time { block.build_time } else { sum };
    }
    blocks.entries.insert(idx0, (h, block));
    proof {
        assert(blocks.entries@ =~= ent0.update(idx0 as int, (h, block)));
        let w = blocks.view_entries();
        assert(w =~= v1.update(idx0 as int, (hex, block@)));
        lemma_same_stores(v1, w);
    }
}

} // verus!

verus! {

/// A supply run: the site to supply, where to load, the kinds the site
/// lacks, and the unit's path from the base through the loading place to
/// the site.
#[derive(Clone, Debug)]
pub struct SupplyPlan {
    pub target: Axial,
    pub source: Axial,
    pub missing: Vec<ItemType>,
    pub path: Vec<Axial>,
}

/// The path of a supply run from `base`: straight to the site when loading
/// at the base, else to the loading place and on to the site; none when a
/// leg is longer than 4096 steps.
pub open spec fn run_path(base: Axial, source: Axial, target: Axial) -> Option<Seq<Axial>> {
    if source == base {
        if hex_dist(base, target) <= 4096 { Some(greedy_path(base, target)) } else { None }
    } else if hex_dist(base, source) <= 4096 && hex_dist(source, target) <= 4096 {
        Some(greedy_path(base, source) + greedy_path(source, target).skip(1))
    } else {
        None
    }
}

/// The supply run a site would get, with the distance from its loading
/// place: none when the site is gone or paid for, has no requirements or
/// lacks nothing, when nothing holds what it lacks, or when no path is found.
pub open spec fn site_plan(v: Seq<(Axial, BlockView)>, site: (Axial, Seq<ItemStack>), base: Axial)
    -> Option<(int, Axial, Axial, Seq<ItemType>, Seq<Axial>)>
{
    let t = site.0;
    let i = index_of(v, t);
    if i < 0 || v[i].1.build_paid || site.1.len() == 0 {
        None
    } else {
        let missing = missing_kinds(v, t, site.1);
        if missing.len() == 0 {
            None
        } else {
            match spec_nearest_supply(v, t, missing) {
                None => None,
                Some(src) => match run_path(base, src, t) {
                    None => None,
                    Some(p) => Some((hex_dist(src, t), t, src, missing, p)),
                },
            }
        }
    }
}

/// The run for the first site, in the given order, among those whose
/// loading place is nearest.
pub open spec fn best_plan(v: Seq<(Axial, BlockView)>, sites: Seq<(Axial, Seq<ItemStack>)>, base: Axial)
    -> Option<(int, Axial, Axial, Seq<ItemType>, Seq<Axial>)>
    decreases sites.len(),
{
    if sites.len() == 0 {
        None
    } else {
        let b = best_plan(v, sites.drop_last(), base);
        match site_plan(v, sites.last(), base) {
            None => b,
            Some(c) => if b is None || c.0 < b.unwrap().0 { Some(c) } else { b },
        }
    }
}

/// Hexes the planner may meet: neighbours fit in `i32` and so do the
/// distances between any two of them.
pub open spec fn plan_range_ok(v: Seq<(Axial, BlockView)>, sites: Seq<(Axial, Seq<ItemStack>)>, base: Axial) -> bool {
    &&& in_step_range(base)
    &&& forall|j: int| 0 <= j < v.len() ==> in_step_range(#[trigger] v[j].0)
    &&& forall|j: int| 0 <= j < sites.len() ==> in_step_range(#[trigger] sites[j].0)
    &&& forall|j: int| 0 <= j < v.len() ==> hex_dist(base, #[trigger] v[j].0) < i32::MAX
    &&& forall|j: int, m: int| 0 <= j < v.len() && 0 <= m < sites.len() ==> hex_dist(#[trigger] v[j].0, #[trigger] sites[m].0) < i32::MAX
}

/// The sites and their requirements as plain values.
pub open spec fn sites_view(sites: Seq<(Axial, Vec<ItemStack>)>) -> Seq<(Axial, Seq<ItemStack>)> {
    sites.map_values(|s: (Axial, Vec<ItemStack>)| (s.0, s.1@))
}

/// A plan stands for a spec plan.
pub open spec fn plan_matches(p: Option<SupplyPlan>, q: Option<(int, Axial, Axial, Seq<ItemType>, Seq<Axial>)>) -> bool {
    match p {
        None => q is None,
        Some(x) => q matches Some(y) && x.target == y.1 && x.source == y.2 && x.missing@ == y.3 && x.path@ == y.4,
    }
}

fn plan_for_site(blocks: &BlockMap, target: Axial, reqs: &Vec<ItemStack>, base_hex: Axial)
    -> (r: Option<(i32, SupplyPlan)>)
    requires
        blocks.wf(),
        in_step_range(target),
        in_step_range(base_hex),
        forall|j: int| 0 <= j < blocks.view_entries().len() ==> in_step_range(#[trigger] blocks.view_entries()[j].0),
        forall|j: int| 0 <= j < blocks.view_entries().len() ==> hex_dist(base_hex, #[trigger] blocks.view_entries()[j].0) < i32::MAX,
        forall|j: int| 0 <= j < blocks.view_entries().len() ==> hex_dist(#[trigger] blocks.view_entries()[j].0, target) < i32::MAX,
    ensures
        match r {
            None => site_plan(blocks.view_entries(), (target, reqs@), base_hex) is None,
            Some(x) => site_plan(blocks.view_entries(), (target, reqs@), base_hex) matches Some(y)
                && x.0 == y.0 && plan_matches(Some(x.1), Some(y)),
        },
{
    let ghost v = blocks.view_entries();
    proof {
        lemma_index_of(v, target);
    }
    let block = match blocks.get(target) {
        Some(b) => b,
        None => return None,
    };
    if block.build_paid || reqs.len() == 0 {
        return None;
    }
    let missing = missing_requirements_near(blocks, target, reqs.as_slice());
    if missing.len() == 0 {
        return None;
    }
    proof {
        assert forall|j: int| 0 <= j < v.len()
            && (supply_candidate(#[trigger] v[j], missing@, crate::sector::BuildBlockType::Warehouse)
                || supply_candidate(v[j], missing@, crate::sector::BuildBlockType::Base))
            implies hex_dist(v[j].0, target) <= i32::MAX by {}
    }
    let source = match nearest_supply_with_items(blocks, target, missing.as_slice()) {
        Some(s) => s,
        None => return None,
    };
    proof {
        lemma_nearest_is_block(v, target, missing@);
        lemma_index_of(v, source);
        assert(in_step_range(v[index_of(v, source)].0));
        assert(hex_dist(base_hex, v[index_of(v, source)].0) < i32::MAX);
        assert(hex_dist(v[index_of(v, source)].0, target) < i32::MAX);
        crate::hex::lemma_hex_dist_metric(base_hex, source, target);
        crate::hex::lemma_hex_dist_metric(source, target, base_hex);
    }
    let path = if source == base_hex {
        match find_direct_path(base_hex, target) {
            Some(p) => p,
            None => return None,
        }
    } else {
        let first = match find_direct_path(base_hex, source) {
            Some(p) => p,
            None => return None,
        };
        let second = match find_direct_path(source, target) {
            Some(p) => p,
            None => return None,
        };
        let mut combined = first;
        let ghost c0 = combined@;
        let mut k: usize = 1;
        while k < second.len()
            invariant
                1 <= k <= second.len() || second.len() == 0,
                combined@ == c0 + second@.subrange(1, k as int),
            decreases second.len() - k,
        {
            combined.push(second[k]);
            proof {
                assert(second@.subrange(1, k + 1) =~= second@.subrange(1, k as int).push(second@[k as int]));
            }
            k = k + 1;
        }
        proof {
            crate::hex::lemma_hex_dist_metric(source, target, target);
            assert(second@.subrange(1, second@.len() as int) =~= second@.skip(1));
        }
        combined
    };
    let dist = hex_distance(source, target);
    Some((dist, SupplyPlan { target, source, missing, path }))
}

/// The place a supply run is sent to load holds a block.
proof fn lemma_nearest_is_block(v: Seq<(Axial, BlockView)>, target: Axial, needed: Seq<ItemType>)
    requires
        keys_unique(v),
    ensures
        spec_nearest_supply(v, target, needed) matches Some(s) ==> index_of(v, s) >= 0,
{
    crate::supply::lemma_best_supply(v, target, needed, crate::sector::BuildBlockType::Warehouse);
    crate::supply::lemma_best_supply(v, target, needed, crate::sector::BuildBlockType::Base);
    if let Some(s) = spec_nearest_supply(v, target, needed) {
        let k = if crate::supply::best_supply(v, target, needed, crate::sector::BuildBlockType::Warehouse) is Some {
            crate::sector::BuildBlockType::Warehouse
        } else {
            crate::sector::BuildBlockType::Base
        };
        let j = choose|j: int| 0 <= j < v.len() && #[trigger] v[j].0 == s && supply_candidate(v[j], needed, k);
        lemma_index_of(v, s);
    }
}

/// Chooses the supply run to start: for each site in turn (with its
/// requirements) that is not yet paid for and lacks some required kind, the
/// nearest place holding some of what it lacks (a warehouse before the
/// base) and a path from the base through that place; among all, the run
/// whose loading place is nearest to its site, the first on ties.
#[verifier::spinoff_prover]
pub fn plan_supply_run(blocks: &BlockMap, sites: &Vec<(Axial, Vec<ItemStack>)>, base_hex: Axial) -> (plan: Option<SupplyPlan>)
    requires
        blocks.wf(),
        plan_range_ok(blocks.view_entries(), sites_view(sites@), base_hex),
    ensures
        plan_matches(plan, best_plan(blocks.view_entries(), sites_view(sites@), base_hex)),
{
    let ghost v = blocks.view_entries();
    let ghost sv = sites_view(sites@);
    let mut best: Option<(i32, SupplyPlan)> = None;
    let mut i: usize = 0;
    while i < sites.len()
        invariant
            i <= sites.len(),
            v == blocks.view_entries(),
            sv == sites_view(sites@),
            blocks.wf(),
            plan_range_ok(v, sv, base_hex),
            match best {
                None => best_plan(v, sv.take(i as int), base_hex) is None,
                Some(x) => best_plan(v, sv.take(i as int), base_hex) matches Some(y)
                    && x.0 == y.0 && plan_matches(Some(x.1), Some(y)),
            },
        decreases sites.len() - i,
    {
        let target = sites[i].0;
        proof {
            assert(sv.take(i + 1).drop_last() =~= sv.take(i as int));
            assert(sv.take(i + 1).last() == sv[i as int]);
            assert(sv[i as int] == (target, sites@[i as int].1@));
            assert(in_step_range(sv[i as int].0));
            assert forall|j: int| 0 <= j < v.len() implies hex_dist(#[trigger] v[j].0, target) < i32::MAX by {
                assert(hex_dist(v[j].0, sv[i as int].0) < i32::MAX);
            }
        }
        let candidate = plan_for_site(blocks, target, &sites[i].1, base_hex);
        match candidate {
            None => {},
            Some(c) => {
                let better = match &best {
                    None => true,
                    Some(b) => c.0 < b.0,
                };
                if better {
                    best = Some(c);
                }
            },
        }
        i = i + 1;
    }
    assert(sv.take(i as int) =~= sv);
    match best {
        Some(b) => Some(b.1),
        None => None,
    }
}

} // verus!

verus! {

/// Starts the unit of a supply run: a supply unit of capacity 30 at the
/// start of the run's path, heading forward, empty, based at `base_hex`,
/// loading at the run's source and unloading at its site, carrying only
/// the kinds the site lacks. When the run loads at the base, the unit loads
/// there at once.
pub fn start_supply_unit(plan: SupplyPlan, blocks: &mut BlockMap, base_hex: Axial) -> (unit: Unit)
    requires
        old(blocks).wf(),
    ensures
        final(blocks).wf(),
        unit.path@ == plan.path@,
        unit.index == 0,
        unit.forward,
        unit.capacity == 30,
        unit.depot == base_hex,
        unit.station_in == plan.source,
        unit.station_out == plan.target,
        unit.auto_supply,
        unit.supply_types@ == plan.missing@,
        stacks_wf(unit.cargo@),
        exchanged(old(blocks).view_entries(), final(blocks).view_entries(), Seq::empty(), unit.cargo@, base_hex),
        plan.source != base_hex ==> final(blocks).view_entries() == old(blocks).view_entries() && unit.cargo@.len() == 0,
        plan.source == base_hex && index_of(old(blocks).view_entries(), base_hex) >= 0 ==> {
            let v = old(blocks).view_entries();
            let i = index_of(v, base_hex);
            &&& final(blocks).view_entries()[i].1.stored == drain(v[i].1.stored, 30, Some(plan.missing@))
            &&& unit.cargo@ == crate::storage::fill(Seq::empty(), crate::storage::moved(v[i].1.stored, 30, Some(plan.missing@)))
        },
{
    let mut unit = Unit {
        path: plan.path,
        index: 0,
        forward: true,
        capacity: 30,
        cargo: Vec::new(),
        depot: base_hex,
        station_in: plan.source,
        station_out: plan.target,
        auto_supply: true,
        supply_types: plan.missing,
    };
    proof {
        assert(stacks_total(unit.cargo@) == 0);
        crate::sector::lemma_blocks_total_bounds(blocks.view_entries(), 0);
    }
    if plan.source == base_hex {
        load_at(blocks, base_hex, &mut unit.cargo, 30, true, unit.supply_types.as_slice());
    }
    unit
}

/// Whether a unit stays in service: any unit that is not a supply unit; a
/// supply unit while its site still waits to be paid for, or else until it
/// stands on the base.
pub open spec fn spec_keep_unit(v: Seq<(Axial, BlockView)>, unit: Unit, base_hex: Axial) -> bool {
    let i = index_of(v, unit.station_out);
    if !unit.auto_supply {
        true
    } else if i >= 0 && spec_is_under_construction(v[i].1) && !v[i].1.build_paid {
        true
    } else {
        !(unit.index < unit.path@.len() && unit.path@[unit.index as int] == base_hex)
    }
}

/// Whether a unit stays in service.
pub fn keep_unit(unit: &Unit, blocks: &BlockMap, base_hex: Axial) -> (keep: bool)
    requires
        blocks.wf(),
    ensures
        keep == spec_keep_unit(blocks.view_entries(), *unit, base_hex),
{
    if !unit.auto_supply {
        return true;
    }
    proof {
        lemma_index_of(blocks.view_entries(), unit.station_out);
    }
    let needs_supply = match blocks.get(unit.station_out) {
        Some(block) => crate::sector::is_under_construction(block) && !block.build_paid,
        None => false,
    };
    if needs_supply {
        return true;
    }
    !(unit.index < unit.path.len() && unit.path[unit.index] == base_hex)
}

} // verus!

verus! {

/// Whether a block of `kind` may be placed on `hex`: the hex is on the map
/// and free, and a mine needs an ore tile with something left.
pub open spec fn spec_can_place_block(
    v: Seq<(Axial, BlockView)>,
    t: Seq<(Axial, crate::sector::TileData)>,
    hex: Axial,
    kind: crate::sector::BuildBlockType,
    outline: crate::map_common::MapOutline,
    hex_radius: i32,
    tri_length: i32,
) -> bool {
    &&& crate::map_common::spec_in_bounds(hex, outline, hex_radius, tri_length)
    &&& index_of(v, hex) < 0
    &&& (kind != crate::sector::BuildBlockType::Mine || crate::mining::spec_tile_can_be_mined(crate::mining::tile_at(t, hex)))
}

/// No block of any kind may be placed on a hex that already holds a block,
/// and apart from a mine's need for ore the kind makes no difference: two
/// kinds other than a mine are placeable on exactly the same hexes.
pub proof fn lemma_no_block_over_another(
    v: Seq<(Axial, BlockView)>,
    t: Seq<(Axial, crate::sector::TileData)>,
    hex: Axial,
    kind: crate::sector::BuildBlockType,
    other: crate::sector::BuildBlockType,
    outline: crate::map_common::MapOutline,
    hex_radius: i32,
    tri_length: i32,
)
    requires
        keys_unique(v),
    ensures
        (exists|j: int| 0 <= j < v.len() && #[trigger] v[j].0 == hex)
            ==> !spec_can_place_block(v, t, hex, kind, outline, hex_radius, tri_length),
        kind != crate::sector::BuildBlockType::Mine && other != crate::sector::BuildBlockType::Mine
            ==> spec_can_place_block(v, t, hex, kind, outline, hex_radius, tri_length)
                == spec_can_place_block(v, t, hex, other, outline, hex_radius, tri_length),
        spec_can_place_block(v, t, hex, kind, outline, hex_radius, tri_length)
            ==> crate::map_common::spec_in_bounds(hex, outline, hex_radius, tri_length),
{
    lemma_index_of(v, hex);
}

/// Whether a block of `kind` may be placed on `hex`.
pub fn can_place_block(
    blocks: &BlockMap,
    tiles: &crate::mining::TileMap,
    hex: Axial,
    kind: crate::sector::BuildBlockType,
    outline: crate::map_common::MapOutline,
    hex_radius: i32,
    tri_length: i32,
) -> (ok: bool)
    requires
        blocks.wf(),
        outline == crate::map_common::MapOutline::Hexagon ==> hex_dist(hex, Axial { q: 0, r: 0 }) <= i32::MAX,
        outline == crate::map_common::MapOutline::Triangle && hex.q >= 0 && hex.r >= 0 ==> hex.q + hex.r <= i32::MAX,
    ensures
        ok == spec_can_place_block(blocks.view_entries(), tiles.entries@, hex, kind, outline, hex_radius, tri_length),
{
    crate::map_common::in_bounds(hex, outline, hex_radius, tri_length) && !blocks.contains_key(hex) && (
    kind != crate::sector::BuildBlockType::Mine || crate::mining::tile_can_be_mined(tiles.get(hex)))
}

/// The rotation a new block takes: routes have none.
pub fn placement_rotation(kind: crate::sector::BuildBlockType, rotation: u8) -> (r: u8)
    ensures
        r == if kind == crate::sector::BuildBlockType::Route { 0 } else { rotation },
{
    if kind == crate::sector::BuildBlockType::Route { 0 } else { rotation }
}

/// The next of the six rotations.
pub fn next_rotation(rotation: u8) -> (r: u8)
    requires
        rotation < u8::MAX,
    ensures
        r == (rotation + 1) % 6,
{
    (rotation + 1) % 6
}

} // verus!

verus! {

/// A store after `add_item` adds up to `amount` of a kind below `cap`.
pub open spec fn add_result(s: Seq<ItemStack>, kind: ItemType, amount: int, cap: int) -> Seq<ItemStack> {
    let a = crate::storage::accepted(stacks_total(s), amount, cap);
    if a > 0 { crate::storage::stacks_add(s, kind, a) } else { s }
}

/// The store of a new base: 1800 gangue, 80 iron, 40 copper, 20 lead and
/// 10 zinc added in turn, as far as its capacity allows.
pub open spec fn base_stock(s: Seq<ItemStack>, cap: int) -> Seq<ItemStack> {
    add_result(
        add_result(
            add_result(add_result(add_result(s, ItemType::Gangue, 1800, cap), ItemType::Iron, 80, cap), ItemType::Copper, 40, cap),
            ItemType::Lead,
            20,
            cap,
        ),
        ItemType::Zinc,
        10,
        cap,
    )
}

/// The base a map starts with, made from a freshly placed base block:
/// finished and paid for, and stocked.
pub open spec fn stocked_base(fresh: BlockView) -> BlockView {
    BlockView {
        build_time: 0,
        build_progress: 0,
        build_paid: true,
        stored: base_stock(fresh.stored, fresh.capacity as int),
        ..fresh
    }
}

/// Makes sure a base stands on `base_hex`: when no base is there, `fresh`
/// (a newly placed base block) goes there finished, paid for and stocked,
/// replacing whatever stood there, and true comes back; otherwise nothing
/// changes and false comes back.
pub fn ensure_base(blocks: &mut BlockMap, base_hex: Axial, fresh: crate::sector::PlacedBlock) -> (placed: bool)
    requires
        old(blocks).wf(),
        stacks_wf(fresh.stored@),
        blocks_total(old(blocks).view_entries()) + stacks_total(fresh.stored@) + 1960 <= i32::MAX,
    ensures
        final(blocks).wf(),
        placed == !(crate::sector::block_at(old(blocks).view_entries(), base_hex) matches Some(b)
            && b.kind == crate::sector::BuildBlockType::Base),
        !placed ==> final(blocks).view_entries() == old(blocks).view_entries(),
        placed ==> final(blocks).view_entries() == if index_of(old(blocks).view_entries(), base_hex) >= 0 {
            old(blocks).view_entries().update(index_of(old(blocks).view_entries(), base_hex), (base_hex, stocked_base(fresh@)))
        } else {
            old(blocks).view_entries().push((base_hex, stocked_base(fresh@)))
        },
        placed ==> crate::sector::block_at(final(blocks).view_entries(), base_hex) == Some(stocked_base(fresh@)),
        placed ==> forall|h: Axial| h != base_hex ==> #[trigger] crate::sector::block_at(final(blocks).view_entries(), h)
            == crate::sector::block_at(old(blocks).view_entries(), h),
{
    proof {
        lemma_index_of(blocks.view_entries(), base_hex);
    }
    let is_base = match blocks.get(base_hex) {
        Some(b) => b.kind == crate::sector::BuildBlockType::Base,
        None => false,
    };
    if is_base {
        return false;
    }
    let mut base = fresh;
    base.build_time = 0;
    base.build_progress = 0;
    base.build_paid = true;
    let cap = base.capacity;
    let ghost s0 = base.stored@;
    proof {
        crate::storage::lemma_wf_bounds(s0, 0);
    }
    add_item(&mut base.stored, ItemType::Gangue, 1800, cap);
    add_item(&mut base.stored, ItemType::Iron, 80, cap);
    add_item(&mut base.stored, ItemType::Copper, 40, cap);
    add_item(&mut base.stored, ItemType::Lead, 20, cap);
    add_item(&mut base.stored, ItemType::Zinc, 10, cap);
    assert(base.stored@ == base_stock(s0, cap as int));
    proof {
        crate::sector::lemma_blocks_total_bounds(blocks.view_entries(), index_of(blocks.view_entries(), base_hex));
        crate::storage::lemma_wf_bounds(base.stored@, 0);
    }
    blocks.insert(base_hex, base);
    true
}

} // verus!
