//! Planet map: resource kinds, deposits, building kinds and their tables,
//! building storage, mining areas, and the building registry of a planet.

use vstd::prelude::*;
use std::collections::HashMap;
use vstd::std_specs::hash::spec_hash_map_iter;
use vstd::std_specs::iter::IteratorSpec;
use crate::hex::Axial;
use crate::text::{digits, hex_padded2, push_decimal, push_hex_padded2, string_push};
use vstd::string::StringExecFns;

verus! {

broadcast use vstd::std_specs::hash::group_hash_axioms;

/// A resource found in planet deposits and kept in building storage.
#[derive(Clone, Copy, Debug, PartialEq, Eq, Structural, Hash)]
pub enum PlanetResourceKind {
    Iron,
    Copper,
    Gold,
    Lead,
    Zinc,
    Aluminum,
    Lithium,
    Phosphate,
    Stone,
    FreshWater,
    Salt,
}

/// Number of resource kinds; building storage holds one amount per kind.
pub const RESOURCE_KIND_COUNT: usize = 11;

/// The stable numeric id of a resource kind (its position in declaration order).
pub open spec fn spec_resource_id(kind: PlanetResourceKind) -> int {
    match kind {
        PlanetResourceKind::Iron => 0,
        PlanetResourceKind::Copper => 1,
        PlanetResourceKind::Gold => 2,
        PlanetResourceKind::Lead => 3,
        PlanetResourceKind::Zinc => 4,
        PlanetResourceKind::Aluminum => 5,
        PlanetResourceKind::Lithium => 6,
        PlanetResourceKind::Phosphate => 7,
        PlanetResourceKind::Stone => 8,
        PlanetResourceKind::FreshWater => 9,
        PlanetResourceKind::Salt => 10,
    }
}

/// The resource kind with a given id, if the id names one.
pub open spec fn spec_resource_from_id(id: int) -> Option<PlanetResourceKind> {
    if id == 0 {
        Some(PlanetResourceKind::Iron)
    } else if id == 1 {
        Some(PlanetResourceKind::Copper)
    } else if id == 2 {
        Some(PlanetResourceKind::Gold)
    } else if id == 3 {
        Some(PlanetResourceKind::Lead)
    } else if id == 4 {
        Some(PlanetResourceKind::Zinc)
    } else if id == 5 {
        Some(PlanetResourceKind::Aluminum)
    } else if id == 6 {
        Some(PlanetResourceKind::Lithium)
    } else if id == 7 {
        Some(PlanetResourceKind::Phosphate)
    } else if id == 8 {
        Some(PlanetResourceKind::Stone)
    } else if id == 9 {
        Some(PlanetResourceKind::FreshWater)
    } else if id == 10 {
        Some(PlanetResourceKind::Salt)
    } else {
        None
    }
}

/// Numeric id of a resource kind, as stored in saved buildings.
pub fn resource_kind_to_id(kind: PlanetResourceKind) -> (id: u8)
    ensures
        id == spec_resource_id(kind),
        id < RESOURCE_KIND_COUNT,
{
    match kind {
        PlanetResourceKind::Iron => 0,
        PlanetResourceKind::Copper => 1,
        PlanetResourceKind::Gold => 2,
        PlanetResourceKind::Lead => 3,
        PlanetResourceKind::Zinc => 4,
        PlanetResourceKind::Aluminum => 5,
        PlanetResourceKind::Lithium => 6,
        PlanetResourceKind::Phosphate => 7,
        PlanetResourceKind::Stone => 8,
        PlanetResourceKind::FreshWater => 9,
        PlanetResourceKind::Salt => 10,
    }
}

/// The resource kind with a given numeric id; `None` for an unknown id.
pub fn resource_kind_from_id(id: u8) -> (kind: Option<PlanetResourceKind>)
    ensures
        kind == spec_resource_from_id(id as int),
{
    match id {
        0 => Some(PlanetResourceKind::Iron),
        1 => Some(PlanetResourceKind::Copper),
        2 => Some(PlanetResourceKind::Gold),
        3 => Some(PlanetResourceKind::Lead),
        4 => Some(PlanetResourceKind::Zinc),
        5 => Some(PlanetResourceKind::Aluminum),
        6 => Some(PlanetResourceKind::Lithium),
        7 => Some(PlanetResourceKind::Phosphate),
        8 => Some(PlanetResourceKind::Stone),
        9 => Some(PlanetResourceKind::FreshWater),
        10 => Some(PlanetResourceKind::Salt),
        _ => None,
    }
}

/// Converting a kind to its id and back gives the kind again, and every id
/// that names a kind converts back to that id.
pub proof fn lemma_resource_id_round_trip(kind: PlanetResourceKind, id: int)
    ensures
        spec_resource_from_id(spec_resource_id(kind)) == Some(kind),
        0 <= spec_resource_id(kind) < RESOURCE_KIND_COUNT,
        spec_resource_from_id(id) is Some <==> 0 <= id < RESOURCE_KIND_COUNT,
        spec_resource_from_id(id) matches Some(k) ==> spec_resource_id(k) == id,
{
}

/// Display name of a resource.
pub fn resource_label(kind: PlanetResourceKind) -> (label: &'static str)
    ensures
        label@ == spec_resource_label(kind),
{
    match kind {
        PlanetResourceKind::Iron => "Iron",
        PlanetResourceKind::Copper => "Copper",
        PlanetResourceKind::Gold => "Gold",
        PlanetResourceKind::Lead => "Lead",
        PlanetResourceKind::Zinc => "Zinc",
        PlanetResourceKind::Aluminum => "Aluminum",
        PlanetResourceKind::Lithium => "Lithium",
        PlanetResourceKind::Phosphate => "Phosphate",
        PlanetResourceKind::Stone => "Stone",
        PlanetResourceKind::FreshWater => "FreshWater",
        PlanetResourceKind::Salt => "Salt",
    }
}

/// Display name of a resource, as a character sequence.
pub open spec fn spec_resource_label(kind: PlanetResourceKind) -> Seq<char> {
    match kind {
        PlanetResourceKind::Iron => "Iron"@,
        PlanetResourceKind::Copper => "Copper"@,
        PlanetResourceKind::Gold => "Gold"@,
        PlanetResourceKind::Lead => "Lead"@,
        PlanetResourceKind::Zinc => "Zinc"@,
        PlanetResourceKind::Aluminum => "Aluminum"@,
        PlanetResourceKind::Lithium => "Lithium"@,
        PlanetResourceKind::Phosphate => "Phosphate"@,
        PlanetResourceKind::Stone => "Stone"@,
        PlanetResourceKind::FreshWater => "FreshWater"@,
        PlanetResourceKind::Salt => "Salt"@,
    }
}

/// Kind of building that can be placed on a planet cell.
#[derive(Clone, Copy, Debug, PartialEq, Eq, Structural, Hash)]
pub enum PlanetBuildingKind {
    Base,
    Builder,
    Housing,
    Factory,
    Mine,
    Warehouse,
    Refuel,
    Logistics,
    Route,
}

impl PlanetBuildingKind {
    /// Display name of the building kind.
    pub fn label(self) -> (label: &'static str)
        ensures
            label@ == spec_building_label(self),
    {
        match self {
            PlanetBuildingKind::Base => "Base",
            PlanetBuildingKind::Builder => "Builder",
            PlanetBuildingKind::Housing => "Housing",
            PlanetBuildingKind::Factory => "Factory",
            PlanetBuildingKind::Mine => "Mine",
            PlanetBuildingKind::Warehouse => "Warehouse",
            PlanetBuildingKind::Refuel => "Refuel",
            PlanetBuildingKind::Logistics => "Logistics",
            PlanetBuildingKind::Route => "Route",
        }
    }
}

/// Display name of a building kind, as a character sequence.
pub open spec fn spec_building_label(kind: PlanetBuildingKind) -> Seq<char> {
    match kind {
        PlanetBuildingKind::Base => "Base"@,
        PlanetBuildingKind::Builder => "Builder"@,
        PlanetBuildingKind::Housing => "Housing"@,
        PlanetBuildingKind::Factory => "Factory"@,
        PlanetBuildingKind::Mine => "Mine"@,
        PlanetBuildingKind::Warehouse => "Warehouse"@,
        PlanetBuildingKind::Refuel => "Refuel"@,
        PlanetBuildingKind::Logistics => "Logistics"@,
        PlanetBuildingKind::Route => "Route"@,
    }
}

/// Storage capacity of a building kind, in resource units.
pub open spec fn spec_storage_capacity(kind: PlanetBuildingKind) -> int {
    match kind {
        PlanetBuildingKind::Base => 1600,
        PlanetBuildingKind::Builder => 500,
        PlanetBuildingKind::Housing => 350,
        PlanetBuildingKind::Factory => 1000,
        PlanetBuildingKind::Mine => 600,
        PlanetBuildingKind::Warehouse => 4000,
        PlanetBuildingKind::Refuel => 300,
        PlanetBuildingKind::Logistics => 900,
        PlanetBuildingKind::Route => 200,
    }
}

/// Storage capacity of a building kind, in resource units.
pub fn building_storage_capacity(kind: PlanetBuildingKind) -> (cap: u32)
    ensures
        cap == spec_storage_capacity(kind),
{
    match kind {
        PlanetBuildingKind::Base => 1_600,
        PlanetBuildingKind::Builder => 500,
        PlanetBuildingKind::Housing => 350,
        PlanetBuildingKind::Factory => 1_000,
        PlanetBuildingKind::Mine => 600,
        PlanetBuildingKind::Warehouse => 4_000,
        PlanetBuildingKind::Refuel => 300,
        PlanetBuildingKind::Logistics => 900,
        PlanetBuildingKind::Route => 200,
    }
}

/// Construction time of a building kind, in milliseconds.
pub open spec fn spec_build_time(kind: PlanetBuildingKind) -> int {
    match kind {
        PlanetBuildingKind::Base => 0,
        PlanetBuildingKind::Builder => 5000,
        PlanetBuildingKind::Housing => 6000,
        PlanetBuildingKind::Factory => 8000,
        PlanetBuildingKind::Mine => 9000,
        PlanetBuildingKind::Warehouse => 7000,
        PlanetBuildingKind::Refuel => 6000,
        PlanetBuildingKind::Logistics => 8000,
        PlanetBuildingKind::Route => 500,
    }
}

/// The build tool a number key selects on the planet: `1` clears the tool,
/// `2` is the base, `3` the mine, and the other digits pick housing,
/// factory, mine, warehouse, refuel, logistics and route for `4` to `9`
/// and `0`. `None` for anything but a digit.
pub open spec fn spec_tool_for_digit(digit: u8) -> Option<Option<PlanetBuildingKind>> {
    if digit == 1 {
        Some(None)
    } else if digit == 2 {
        Some(Some(PlanetBuildingKind::Base))
    } else if digit == 3 || digit == 6 {
        Some(Some(PlanetBuildingKind::Mine))
    } else if digit == 4 {
        Some(Some(PlanetBuildingKind::Housing))
    } else if digit == 5 {
        Some(Some(PlanetBuildingKind::Factory))
    } else if digit == 7 {
        Some(Some(PlanetBuildingKind::Warehouse))
    } else if digit == 8 {
        Some(Some(PlanetBuildingKind::Refuel))
    } else if digit == 9 {
        Some(Some(PlanetBuildingKind::Logistics))
    } else if digit == 0 {
        Some(Some(PlanetBuildingKind::Route))
    } else {
        None
    }
}

/// The build tool a number key selects on the planet; `None` when the key
/// is no digit, `Some(None)` when it clears the tool.
pub fn planet_tool_for_digit(digit: u8) -> (tool: Option<Option<PlanetBuildingKind>>)
    ensures
        tool == spec_tool_for_digit(digit),
{
    match digit {
        1 => Some(None),
        2 => Some(Some(PlanetBuildingKind::Base)),
        3 | 6 => Some(Some(PlanetBuildingKind::Mine)),
        4 => Some(Some(PlanetBuildingKind::Housing)),
        5 => Some(Some(PlanetBuildingKind::Factory)),
        7 => Some(Some(PlanetBuildingKind::Warehouse)),
        8 => Some(Some(PlanetBuildingKind::Refuel)),
        9 => Some(Some(PlanetBuildingKind::Logistics)),
        0 => Some(Some(PlanetBuildingKind::Route)),
        _ => None,
    }
}

/// Construction time of a building kind, in milliseconds.
pub fn planet_build_time(kind: PlanetBuildingKind) -> (ms: u32)
    ensures
        ms == spec_build_time(kind),
{
    match kind {
        PlanetBuildingKind::Base => 0,
        PlanetBuildingKind::Builder => 5_000,
        PlanetBuildingKind::Housing => 6_000,
        PlanetBuildingKind::Factory => 8_000,
        PlanetBuildingKind::Mine => 9_000,
        PlanetBuildingKind::Warehouse => 7_000,
        PlanetBuildingKind::Refuel => 6_000,
        PlanetBuildingKind::Logistics => 8_000,
        PlanetBuildingKind::Route => 500,
    }
}

/// An amount of one resource, named by its numeric id.
#[derive(Clone, Copy, Debug, PartialEq, Eq, Structural)]
pub struct PlanetResourceStack {
    pub resource_id: u8,
    pub amount: u32,
}

/// A stack of the given resource kind.
pub open spec fn stack_of(kind: PlanetResourceKind, amount: int) -> PlanetResourceStack {
    PlanetResourceStack { resource_id: spec_resource_id(kind) as u8, amount: amount as u32 }
}

/// Construction materials of a building kind.
pub open spec fn spec_build_requirements(kind: PlanetBuildingKind) -> Seq<PlanetResourceStack> {
    match kind {
        PlanetBuildingKind::Base => seq![],
        PlanetBuildingKind::Builder => seq![
            stack_of(PlanetResourceKind::Stone, 8),
            stack_of(PlanetResourceKind::Iron, 4),
            stack_of(PlanetResourceKind::Copper, 2),
        ],
        PlanetBuildingKind::Housing => seq![
            stack_of(PlanetResourceKind::Stone, 10),
            stack_of(PlanetResourceKind::Copper, 4),
        ],
        PlanetBuildingKind::Factory => seq![
            stack_of(PlanetResourceKind::Iron, 12),
            stack_of(PlanetResourceKind::Copper, 8),
        ],
        PlanetBuildingKind::Mine => seq![
            stack_of(PlanetResourceKind::Stone, 12),
            stack_of(PlanetResourceKind::Iron, 6),
            stack_of(PlanetResourceKind::Copper, 4),
        ],
        PlanetBuildingKind::Warehouse => seq![
            stack_of(PlanetResourceKind::Stone, 12),
            stack_of(PlanetResourceKind::Iron, 6),
        ],
        PlanetBuildingKind::Refuel => seq![
            stack_of(PlanetResourceKind::Stone, 6),
            stack_of(PlanetResourceKind::Iron, 8),
            stack_of(PlanetResourceKind::Copper, 4),
        ],
        PlanetBuildingKind::Logistics => seq![
            stack_of(PlanetResourceKind::Iron, 10),
            stack_of(PlanetResourceKind::Copper, 6),
        ],
        PlanetBuildingKind::Route => seq![stack_of(PlanetResourceKind::Stone, 3)],
    }
}

fn stack(kind: PlanetResourceKind, amount: u32) -> (s: PlanetResourceStack)
    ensures
        s == stack_of(kind, amount as int),
{
    PlanetResourceStack { resource_id: resource_kind_to_id(kind), amount }
}

/// Construction materials of a building kind.
pub fn planet_build_requirements(kind: PlanetBuildingKind) -> (reqs: Vec<PlanetResourceStack>)
    ensures
        reqs@ == spec_build_requirements(kind),
{
    let reqs = match kind {
        PlanetBuildingKind::Base => vec![],
        PlanetBuildingKind::Builder => vec![
            stack(PlanetResourceKind::Stone, 8),
            stack(PlanetResourceKind::Iron, 4),
            stack(PlanetResourceKind::Copper, 2),
        ],
        PlanetBuildingKind::Housing => vec![
            stack(PlanetResourceKind::Stone, 10),
            stack(PlanetResourceKind::Copper, 4),
        ],
        PlanetBuildingKind::Factory => vec![
            stack(PlanetResourceKind::Iron, 12),
            stack(PlanetResourceKind::Copper, 8),
        ],
        PlanetBuildingKind::Mine => vec![
            stack(PlanetResourceKind::Stone, 12),
            stack(PlanetResourceKind::Iron, 6),
            stack(PlanetResourceKind::Copper, 4),
        ],
        PlanetBuildingKind::Warehouse => vec![
            stack(PlanetResourceKind::Stone, 12),
            stack(PlanetResourceKind::Iron, 6),
        ],
        PlanetBuildingKind::Refuel => vec![
            stack(PlanetResourceKind::Stone, 6),
            stack(PlanetResourceKind::Iron, 8),
            stack(PlanetResourceKind::Copper, 4),
        ],
        PlanetBuildingKind::Logistics => vec![
            stack(PlanetResourceKind::Iron, 10),
            stack(PlanetResourceKind::Copper, 6),
        ],
        PlanetBuildingKind::Route => vec![stack(PlanetResourceKind::Stone, 3)],
    };
    assert(reqs@ =~= spec_build_requirements(kind));
    reqs
}


/// Amount of each resource kind held by a building, indexed by resource id.
pub type ResourceStorage = [u32; 11];

/// Sum of a sequence of amounts.
pub open spec fn amounts_sum(s: Seq<u32>) -> int
    decreases s.len(),
{
    if s.len() == 0 {
        0
    } else {
        amounts_sum(s.drop_last()) + s.last()
    }
}

/// A sum of amounts is never negative and is at least each of its terms.
pub proof fn lemma_amounts_sum_bounds(s: Seq<u32>, i: int)
    ensures
        amounts_sum(s) >= 0,
        0 <= i < s.len() ==> s[i] <= amounts_sum(s),
    decreases s.len(),
{
    if s.len() > 0 {
        lemma_amounts_sum_bounds(s.drop_last(), i);
    }
}

/// Changing one amount changes the sum by the same difference.
pub proof fn lemma_amounts_sum_update(s: Seq<u32>, i: int, v: u32)
    requires
        0 <= i < s.len(),
    ensures
        amounts_sum(s.update(i, v)) == amounts_sum(s) - s[i] + v,
    decreases s.len(),
{
    if i < s.len() - 1 {
        assert(s.update(i, v).drop_last() =~= s.drop_last().update(i, v));
        lemma_amounts_sum_update(s.drop_last(), i, v);
    } else {
        assert(s.update(i, v).drop_last() =~= s.drop_last());
    }
}

/// Total units held in a storage.
pub open spec fn storage_used(st: ResourceStorage) -> int {
    amounts_sum(st@)
}

/// Total units held in a storage, computed.
pub fn storage_used_total(st: &ResourceStorage) -> (used: u32)
    requires
        storage_used(*st) <= u32::MAX,
    ensures
        used == storage_used(*st),
{
    let mut used: u32 = 0;
    let mut i: usize = 0;
    while i < RESOURCE_KIND_COUNT
        invariant
            0 <= i <= RESOURCE_KIND_COUNT,
            st@.len() == RESOURCE_KIND_COUNT,
            storage_used(*st) <= u32::MAX,
            used == amounts_sum(st@.take(i as int)),
        decreases RESOURCE_KIND_COUNT - i,
    {
        assert(st@.take(i + 1).drop_last() =~= st@.take(i as int));
        proof {
            lemma_amounts_sum_bounds(st@.skip(i as int), 0);
            lemma_amounts_sum_split(st@, i + 1);
            lemma_amounts_sum_bounds(st@.skip(i + 1), 0);
        }
        used = used + st[i];
        i = i + 1;
    }
    assert(st@.take(RESOURCE_KIND_COUNT as int) =~= st@);
    used
}

/// The sum of a sequence is the sum of a prefix plus the sum of the rest.
pub proof fn lemma_amounts_sum_split(s: Seq<u32>, k: int)
    requires
        0 <= k <= s.len(),
    ensures
        amounts_sum(s) == amounts_sum(s.take(k)) + amounts_sum(s.skip(k)),
    decreases s.len(),
{
    if k < s.len() {
        lemma_amounts_sum_split(s.drop_last(), k);
        assert(s.drop_last().take(k) =~= s.take(k));
        assert(s.skip(k).drop_last() =~= s.drop_last().skip(k));
    } else {
        assert(s.take(k) =~= s);
        assert(s.skip(k) =~= Seq::<u32>::empty());
    }
}

/// Adds `amount` units of a resource to a storage.
pub fn add_storage_amount(storage: &mut ResourceStorage, kind: PlanetResourceKind, amount: u32)
    requires
        old(storage)[spec_resource_id(kind)] + amount <= u32::MAX,
    ensures
        final(storage)@ == old(storage)@.update(
            spec_resource_id(kind),
            (old(storage)[spec_resource_id(kind)] + amount) as u32,
        ),
{
    if amount == 0 {
        assert(storage@ =~= storage@.update(spec_resource_id(kind), storage[spec_resource_id(kind)]));
        return;
    }
    let id = resource_kind_to_id(kind) as usize;
    let v = storage[id] + amount;
    storage[id] = v;
}


/// A resource deposit in a planet cell.
#[derive(Clone, Copy, Debug, PartialEq, Eq, Structural)]
pub struct PlanetDeposit {
    pub kind: PlanetResourceKind,
    pub initial_amount: u32,
    pub remaining_amount: u32,
    pub grade_permille: u16,
}

/// Surface class of a planet cell.
#[derive(Clone, Copy, Debug, PartialEq, Eq, Structural)]
pub enum PlanetSurfaceClass {
    Land,
    Coast,
    Water,
}

/// Display name of a surface class.
pub open spec fn spec_surface_label(surface: PlanetSurfaceClass) -> Seq<char> {
    match surface {
        PlanetSurfaceClass::Land => "Land"@,
        PlanetSurfaceClass::Coast => "Coast"@,
        PlanetSurfaceClass::Water => "Water"@,
    }
}

/// Display name of a surface class.
pub fn surface_label(surface: PlanetSurfaceClass) -> (label: &'static str)
    ensures
        label@ == spec_surface_label(surface),
{
    match surface {
        PlanetSurfaceClass::Land => "Land",
        PlanetSurfaceClass::Coast => "Coast",
        PlanetSurfaceClass::Water => "Water",
    }
}

/// What the simulation knows of one planet cell.
#[derive(Clone, Debug)]
pub struct PlanetCellState {
    pub surface: PlanetSurfaceClass,
    pub deposits: Vec<PlanetDeposit>,
    pub buildable: bool,
}

/// The simulated planet: one state per grid cell, indexed by cell number.
#[derive(Clone, Debug)]
pub struct PlanetSimWorld {
    pub cells: Vec<PlanetCellState>,
}

/// The cell `i` of a world exists and may carry a building.
pub open spec fn spec_can_build(cells: Seq<PlanetCellState>, i: int) -> bool {
    0 <= i < cells.len() && cells[i].buildable
}

impl PlanetSimWorld {
    /// Whether a building may be placed on the cell.
    pub fn can_build(&self, cell_index: u32) -> (ok: bool)
        ensures
            ok == spec_can_build(self.cells@, cell_index as int),
    {
        let i = cell_index as usize;
        i < self.cells.len() && self.cells[i].buildable
    }
}

/// Units still left in a list of deposits.
pub open spec fn deposits_remaining(ds: Seq<PlanetDeposit>) -> int
    decreases ds.len(),
{
    if ds.len() == 0 {
        0
    } else {
        deposits_remaining(ds.drop_last()) + ds.last().remaining_amount
    }
}

/// Units still left in the given cells; cell numbers outside the world count nothing.
pub open spec fn cells_remaining(cells: Seq<PlanetCellState>, targets: Seq<u32>) -> int
    decreases targets.len(),
{
    if targets.len() == 0 {
        0
    } else {
        cells_remaining(cells, targets.drop_last()) + (if targets.last() < cells.len() {
            deposits_remaining(cells[targets.last() as int].deposits@)
        } else {
            0
        })
    }
}

proof fn lemma_deposits_remaining_nonneg(ds: Seq<PlanetDeposit>)
    ensures
        deposits_remaining(ds) >= 0,
    decreases ds.len(),
{
    if ds.len() > 0 {
        lemma_deposits_remaining_nonneg(ds.drop_last());
    }
}

proof fn lemma_cells_remaining_prefix(cells: Seq<PlanetCellState>, targets: Seq<u32>, k: int)
    requires
        0 <= k <= targets.len(),
    ensures
        0 <= cells_remaining(cells, targets.take(k)) <= cells_remaining(cells, targets),
    decreases targets.len(),
{
    if targets.len() > 0 {
        if k < targets.len() {
            assert(targets.drop_last().take(k) =~= targets.take(k));
            lemma_cells_remaining_prefix(cells, targets.drop_last(), k);
        } else {
            assert(targets.take(k) =~= targets);
            lemma_cells_remaining_prefix(cells, targets.drop_last(), k - 1);
            assert(targets.drop_last().take(k - 1) =~= targets.drop_last());
        }
        if targets.last() < cells.len() {
            lemma_deposits_remaining_nonneg(cells[targets.last() as int].deposits@);
        }
    } else {
        assert(targets.take(k) =~= targets);
    }
}

proof fn lemma_deposits_remaining_prefix(ds: Seq<PlanetDeposit>, k: int)
    requires
        0 <= k <= ds.len(),
    ensures
        0 <= deposits_remaining(ds.take(k)) <= deposits_remaining(ds),
    decreases ds.len(),
{
    if ds.len() > 0 {
        if k < ds.len() {
            assert(ds.drop_last().take(k) =~= ds.take(k));
            lemma_deposits_remaining_prefix(ds.drop_last(), k);
        } else {
            assert(ds.take(k) =~= ds);
            lemma_deposits_remaining_prefix(ds.drop_last(), k - 1);
            assert(ds.drop_last().take(k - 1) =~= ds.drop_last());
        }
    } else {
        assert(ds.take(k) =~= ds);
    }
}

/// Units still left in the deposits of one cell.
fn cell_remaining(cell: &PlanetCellState, limit: u32) -> (total: u32)
    requires
        deposits_remaining(cell.deposits@) <= limit,
    ensures
        total == deposits_remaining(cell.deposits@),
{
    let mut total: u32 = 0;
    let mut j: usize = 0;
    while j < cell.deposits.len()
        invariant
            j <= cell.deposits.len(),
            deposits_remaining(cell.deposits@) <= limit,
            total == deposits_remaining(cell.deposits@.take(j as int)),
        decreases cell.deposits.len() - j,
    {
        proof {
            assert(cell.deposits@.take(j + 1).drop_last() =~= cell.deposits@.take(j as int));
            lemma_deposits_remaining_prefix(cell.deposits@, j + 1);
        }
        total = total + cell.deposits[j].remaining_amount;
        j = j + 1;
    }
    assert(cell.deposits@.take(j as int) =~= cell.deposits@);
    total
}

/// The interior of a base, which only bases have. What it holds is edited
/// by the base-interior editor and is kept outside this library; a
/// building carries this marker exactly while it has an interior.
#[derive(Clone, Copy, Debug, PartialEq, Eq, Structural)]
pub struct BaseInterior {}

/// State of a building placed on a planet cell. Times are in milliseconds.
#[derive(Clone, Debug)]
pub struct PlanetBuildingState {
    pub kind: PlanetBuildingKind,
    pub mine_extra: Vec<u32>,
    pub storage: ResourceStorage,
    pub build_progress: u32,
    pub build_time: u32,
    pub build_paid: bool,
    pub build_claimed: bool,
    pub builder_units_desired: i32,
    pub builder_units_created: i32,
    pub auto_units_enabled: bool,
    pub auto_pick_source: bool,
    pub auto_pick_build: bool,
    pub auto_pick_refuel: bool,
    pub interior: Option<BaseInterior>,
}

/// A building is under construction while its build time has not elapsed.
pub open spec fn spec_under_construction(b: PlanetBuildingState) -> bool {
    b.build_time > 0 && b.build_progress < b.build_time
}

/// Whether a building is still under construction.
pub fn planet_is_under_construction(building: &PlanetBuildingState) -> (res: bool)
    ensures
        res == spec_under_construction(*building),
{
    building.build_time > 0 && building.build_progress < building.build_time
}

/// The cells a mine extracts from: its own cell first, then its extra cells in order.
pub open spec fn spec_mine_targets(cell_index: u32, b: PlanetBuildingState) -> Seq<u32> {
    seq![cell_index] + b.mine_extra@
}

/// The cells a mine extracts from: its own cell first, then its extra cells in order.
pub fn mine_target_cells(cell_index: u32, building: &PlanetBuildingState) -> (targets: Vec<u32>)
    ensures
        targets@ == spec_mine_targets(cell_index, *building),
{
    let mut targets: Vec<u32> = Vec::new();
    targets.push(cell_index);
    let mut i: usize = 0;
    while i < building.mine_extra.len()
        invariant
            i <= building.mine_extra.len(),
            targets@ =~= seq![cell_index] + building.mine_extra@.take(i as int),
        decreases building.mine_extra.len() - i,
    {
        targets.push(building.mine_extra[i]);
        i = i + 1;
    }
    assert(building.mine_extra@.take(i as int) =~= building.mine_extra@);
    targets
}

/// Units left in all the cells a mine covers; 0 when there is no world.
pub open spec fn spec_mine_total_remaining(
    world: Option<&PlanetSimWorld>,
    cell_index: u32,
    b: PlanetBuildingState,
) -> int {
    match world {
        None => 0,
        Some(w) => cells_remaining(w.cells@, spec_mine_targets(cell_index, b)),
    }
}

/// Units left in all the cells a mine covers; 0 when there is no world.
pub fn mine_total_remaining(
    sim_world: Option<&PlanetSimWorld>,
    cell_index: u32,
    building: &PlanetBuildingState,
) -> (total: u32)
    requires
        spec_mine_total_remaining(sim_world, cell_index, *building)
            <= u32::MAX,
    ensures
        total == spec_mine_total_remaining(sim_world, cell_index, *building),
{
    let world = match sim_world {
        None => return 0,
        Some(w) => w,
    };
    let targets = mine_target_cells(cell_index, building);
    let ghost all = targets@;
    let ghost grand = cells_remaining(world.cells@, all);
    let mut total: u32 = 0;
    let mut i: usize = 0;
    while i < targets.len()
        invariant
            i <= targets.len(),
            all == targets@,
            grand == cells_remaining(world.cells@, all),
            grand <= u32::MAX,
            total == cells_remaining(world.cells@, all.take(i as int)),
        decreases targets.len() - i,
    {
        proof {
            assert(all.take(i + 1).drop_last() =~= all.take(i as int));
            lemma_cells_remaining_prefix(world.cells@, all, i + 1);
            lemma_cells_remaining_prefix(world.cells@, all, i as int);
        }
        let t = targets[i] as usize;
        if t < world.cells.len() {
            let c = cell_remaining(&world.cells[t], (u32::MAX - total) as u32);
            total = total + c;
        }
        i = i + 1;
    }
    assert(all.take(i as int) =~= all);
    total
}


/// Both cells still hold some of one same resource kind.
pub open spec fn spec_shared_deposit_kind(a: PlanetCellState, b: PlanetCellState) -> bool {
    exists|i: int, j: int|
        0 <= i < a.deposits@.len() && 0 <= j < b.deposits@.len()
            && #[trigger] a.deposits@[i].remaining_amount > 0
            && #[trigger] b.deposits@[j].remaining_amount > 0
            && b.deposits@[j].kind == a.deposits@[i].kind
}

/// Sharing a deposit kind goes both ways and needs a live deposit on each
/// side: a cell whose deposits are all exhausted shares no kind with any
/// cell, and two live deposits of one kind always make the cells share it.
pub proof fn lemma_shared_deposit_kind_needs_live_deposits(a: PlanetCellState, b: PlanetCellState)
    ensures
        spec_shared_deposit_kind(a, b) == spec_shared_deposit_kind(b, a),
        spec_shared_deposit_kind(a, b) ==> exists|i: int, j: int|
            0 <= i < a.deposits@.len() && 0 <= j < b.deposits@.len() && #[trigger] a.deposits@[i].remaining_amount > 0
                && #[trigger] b.deposits@[j].remaining_amount > 0 && a.deposits@[i].kind == b.deposits@[j].kind,
        (forall|j: int| 0 <= j < b.deposits@.len() ==> #[trigger] b.deposits@[j].remaining_amount == 0)
            ==> !spec_shared_deposit_kind(a, b) && !spec_shared_deposit_kind(b, a),
        forall|i: int, j: int|
            0 <= i < a.deposits@.len() && 0 <= j < b.deposits@.len() && #[trigger] a.deposits@[i].remaining_amount > 0
                && #[trigger] b.deposits@[j].remaining_amount > 0 && a.deposits@[i].kind == b.deposits@[j].kind
                ==> spec_shared_deposit_kind(a, b),
{
    if spec_shared_deposit_kind(a, b) {
        let (i, j) = choose|i: int, j: int|
            0 <= i < a.deposits@.len() && 0 <= j < b.deposits@.len()
                && #[trigger] a.deposits@[i].remaining_amount > 0
                && #[trigger] b.deposits@[j].remaining_amount > 0
                && b.deposits@[j].kind == a.deposits@[i].kind;
        assert(b.deposits@[j].remaining_amount > 0 && a.deposits@[i].remaining_amount > 0);
    }
    if spec_shared_deposit_kind(b, a) {
        let (i, j) = choose|i: int, j: int|
            0 <= i < b.deposits@.len() && 0 <= j < a.deposits@.len()
                && #[trigger] b.deposits@[i].remaining_amount > 0
                && #[trigger] a.deposits@[j].remaining_amount > 0
                && a.deposits@[j].kind == b.deposits@[i].kind;
        assert(a.deposits@[j].remaining_amount > 0 && b.deposits@[i].remaining_amount > 0);
    }
}

/// Whether two cells still hold some of one same resource kind.
pub fn shared_deposit_kind(a: &PlanetCellState, b: &PlanetCellState) -> (res: bool)
    ensures
        res == spec_shared_deposit_kind(*a, *b),
{
    let mut i: usize = 0;
    while i < a.deposits.len()
        invariant
            i <= a.deposits.len(),
            forall|i2: int, j2: int|
                0 <= i2 < i && 0 <= j2 < b.deposits@.len() ==> !(
                #[trigger] a.deposits@[i2].remaining_amount > 0
                    && #[trigger] b.deposits@[j2].remaining_amount > 0
                    && b.deposits@[j2].kind == a.deposits@[i2].kind),
        decreases a.deposits.len() - i,
    {
        let left = a.deposits[i];
        if left.remaining_amount > 0 {
            let mut j: usize = 0;
            while j < b.deposits.len()
                invariant
                    i < a.deposits.len(),
                    j <= b.deposits.len(),
                    left == a.deposits@[i as int],
                    left.remaining_amount > 0,
                    forall|j2: int|
                        0 <= j2 < j ==> !(#[trigger] b.deposits@[j2].remaining_amount > 0
                            && b.deposits@[j2].kind == left.kind),
                decreases b.deposits.len() - j,
            {
                let right = b.deposits[j];
                if right.remaining_amount > 0 && right.kind == left.kind {
                    assert(a.deposits@[i as int].remaining_amount > 0
                        && b.deposits@[j as int].remaining_amount > 0);
                    return true;
                }
                j = j + 1;
            }
        }
        i = i + 1;
    }
    false
}

/// Whether `v` holds `x`.
pub fn contains_u32(v: &Vec<u32>, x: u32) -> (res: bool)
    ensures
        res == v@.contains(x),
{
    let mut i: usize = 0;
    while i < v.len()
        invariant
            i <= v.len(),
            forall|k: int| 0 <= k < i ==> v@[k] != x,
        decreases v.len() - i,
    {
        if v[i] == x {
            assert(v@[i as int] == x);
            return true;
        }
        i = i + 1;
    }
    false
}

/// The sequence is strictly increasing.
pub open spec fn strictly_increasing(s: Seq<u32>) -> bool {
    forall|i: int, j: int| 0 <= i < j < s.len() ==> s[i] < s[j]
}

/// Adds `x` to a strictly increasing list, keeping it strictly increasing.
#[verifier::spinoff_prover]
pub fn insert_sorted_unique(v: &mut Vec<u32>, x: u32)
    requires
        strictly_increasing(old(v)@),
    ensures
        strictly_increasing(final(v)@),
        forall|y: u32| final(v)@.contains(y) <==> (old(v)@.contains(y) || y == x),
{
    let mut p: usize = 0;
    while p < v.len() && v[p] < x
        invariant
            p <= v.len(),
            v@ == old(v)@,
            forall|k: int| 0 <= k < p ==> v@[k] < x,
        decreases v.len() - p,
    {
        p = p + 1;
    }
    if p < v.len() && v[p] == x {
        assert(v@[p as int] == x);
        assert(v@.contains(x));
        assert forall|y: u32| v@.contains(y) <==> (old(v)@.contains(y) || y == x) by {}
        return;
    }
    let ghost before = v@;
    assert(before == old(v)@);
    v.insert(p, x);
    assert(v@ == before.insert(p as int, x));
    assert forall|i: int, j: int| 0 <= i < j < v@.len() implies v@[i] < v@[j] by {
        if j < p {
        } else if i < p && j == p {
        } else if i < p {
            assert(before[j - 1] > before[i]);
        } else if i == p {
            assert(p < before.len() ==> before[p as int] >= x);
            assert(before[j - 1] >= before[p as int]);
        } else {
            assert(before[j - 1] > before[i - 1]);
        }
    }
    proof {
        lemma_insert_contains(before, p as int, x);
    }
}

/// Inserting `x` into a sequence adds exactly `x` to what it contains.
proof fn lemma_insert_contains(before: Seq<u32>, p: int, x: u32)
    requires
        0 <= p <= before.len(),
    ensures
        forall|y: u32| #[trigger] before.insert(p, x).contains(y) <==> (before.contains(y) || y == x),
{
    let v = before.insert(p, x);
    assert forall|y: u32| #[trigger] v.contains(y) <==> (before.contains(y) || y == x) by {
        if before.contains(y) {
            let k = choose|k: int| 0 <= k < before.len() && before[k] == y;
            if k < p {
                assert(v[k] == y);
            } else {
                assert(v[k + 1] == y);
            }
        }
        if y == x {
            assert(v[p] == x);
        }
        if v.contains(y) {
            let k = choose|k: int| 0 <= k < v.len() && v[k] == y;
            if k < p {
                assert(before[k] == y);
            } else if k > p {
                assert(before[k - 1] == y);
            }
        }
    }
}

/// Neighbour `n` of some cell already covered by a mine (listed in
/// `existing`), among the first `k` covered cells, or among the first `j`
/// neighbours of covered cell number `k`.
pub open spec fn neighbor_seen(
    neighbors: Seq<Vec<u32>>,
    existing: Seq<u32>,
    k: int,
    j: int,
    n: u32,
) -> bool {
    ||| exists|k2: int, j2: int|
        0 <= k2 < k && (existing[k2] as int) < neighbors.len() && 0 <= j2 < neighbors[existing[k2] as int]@.len()
            && #[trigger] neighbors[existing[k2] as int]@[j2] == n
    ||| (0 <= k < existing.len() && (existing[k] as int) < neighbors.len() && exists|j2: int|
        0 <= j2 < j && j2 < neighbors[existing[k] as int]@.len()
            && #[trigger] neighbors[existing[k] as int]@[j2] == n)
}

/// Two strictly increasing sequences with the same elements are equal.
pub proof fn lemma_sorted_sets_equal(a: Seq<u32>, b: Seq<u32>)
    requires
        strictly_increasing(a),
        strictly_increasing(b),
        forall|x: u32| a.contains(x) <==> b.contains(x),
    ensures
        a == b,
    decreases a.len() + b.len(),
{
    if a.len() == 0 {
        if b.len() > 0 {
            assert(b.contains(b[0]));
        }
        assert(a =~= b);
    } else if b.len() == 0 {
        assert(a.contains(a[0]));
    } else {
        // The first elements are the smallest of each, so they agree.
        assert(a.contains(a[0]));
        assert(b.contains(b[0]));
        let ka = choose|k: int| 0 <= k < a.len() && a[k] == b[0];
        let kb = choose|k: int| 0 <= k < b.len() && b[k] == a[0];
        assert(a[0] == b[0]) by {
            if ka > 0 {
                assert(a[0] < a[ka]);
            }
            if kb > 0 {
                assert(b[0] < b[kb]);
            }
        }
        let a1 = a.drop_first();
        let b1 = b.drop_first();
        assert forall|x: u32| a1.contains(x) <==> b1.contains(x) by {
            if a1.contains(x) {
                let k = choose|k: int| 0 <= k < a1.len() && a1[k] == x;
                assert(a[k + 1] == x && a[0] < a[k + 1]);
                assert(b.contains(x));
                let j = choose|j: int| 0 <= j < b.len() && b[j] == x;
                assert(j != 0);
                assert(b1[j - 1] == x);
            }
            if b1.contains(x) {
                let k = choose|k: int| 0 <= k < b1.len() && b1[k] == x;
                assert(b[k + 1] == x && b[0] < b[k + 1]);
                assert(a.contains(x));
                let j = choose|j: int| 0 <= j < a.len() && a[j] == x;
                assert(j != 0);
                assert(a1[j - 1] == x);
            }
        }
        lemma_sorted_sets_equal(a1, b1);
        assert(a =~= b) by {
            assert forall|i: int| 0 <= i < a.len() implies a[i] == b[i] by {
                if i > 0 {
                    assert(a[i] == a1[i - 1]);
                }
            }
        }
    }
}

/// Looking at one more neighbour of covered cell `k` adds exactly that neighbour.
pub proof fn lemma_neighbor_seen_step(
    neighbors: Seq<Vec<u32>>,
    existing: Seq<u32>,
    k: int,
    j: int,
    x: u32,
)
    requires
        0 <= k < existing.len(),
        (existing[k] as int) < neighbors.len(),
        0 <= j < neighbors[existing[k] as int]@.len(),
    ensures
        neighbor_seen(neighbors, existing, k, j + 1, x) <==> (neighbor_seen(neighbors, existing, k, j, x)
            || neighbors[existing[k] as int]@[j] == x),
{
    let row = neighbors[existing[k] as int]@;
    if neighbor_seen(neighbors, existing, k, j + 1, x) && row[j] != x {
        if !(exists|k2: int, j2: int|
            0 <= k2 < k && (existing[k2] as int) < neighbors.len() && 0 <= j2
                < neighbors[existing[k2] as int]@.len() && #[trigger] neighbors[existing[k2] as int]@[j2]
                == x) {
            let j2 = choose|j2: int|
                0 <= j2 < j + 1 && j2 < neighbors[existing[k] as int]@.len()
                    && #[trigger] neighbors[existing[k] as int]@[j2] == x;
            assert(j2 < j);
        }
    }
    if row[j] == x {
        assert(neighbors[existing[k] as int]@[j] == x);
    }
}

/// Having looked at every neighbour of covered cell `k` is the same as having
/// moved on to covered cell `k + 1`.
pub proof fn lemma_neighbor_seen_next(
    neighbors: Seq<Vec<u32>>,
    existing: Seq<u32>,
    k: int,
    x: u32,
)
    requires
        0 <= k < existing.len(),
    ensures
        neighbor_seen(neighbors, existing, k + 1, 0, x) <==> neighbor_seen(
            neighbors,
            existing,
            k,
            if (existing[k] as int) < neighbors.len() {
                neighbors[existing[k] as int]@.len() as int
            } else {
                0
            },
            x,
        ),
{
    let j = if (existing[k] as int) < neighbors.len() {
        neighbors[existing[k] as int]@.len() as int
    } else {
        0
    };
    if neighbor_seen(neighbors, existing, k, j, x) {
        if !(exists|k2: int, j2: int|
            0 <= k2 < k && (existing[k2] as int) < neighbors.len() && 0 <= j2
                < neighbors[existing[k2] as int]@.len() && #[trigger] neighbors[existing[k2] as int]@[j2]
                == x) {
            let j2 = choose|j2: int|
                0 <= j2 < j && j2 < neighbors[existing[k] as int]@.len()
                    && #[trigger] neighbors[existing[k] as int]@[j2] == x;
            assert(neighbors[existing[k] as int]@[j2] == x);
        }
    }
    if neighbor_seen(neighbors, existing, k + 1, 0, x) {
        let (k2, j2) = choose|k2: int, j2: int|
            0 <= k2 < k + 1 && (existing[k2] as int) < neighbors.len() && 0 <= j2
                < neighbors[existing[k2] as int]@.len() && #[trigger] neighbors[existing[k2] as int]@[j2]
                == x;
        if k2 == k {
            assert(neighbors[existing[k] as int]@[j2] == x);
        }
    }
}

/// A cell a mine may expand to: a neighbour of a covered cell, not covered
/// yet, inside the world, and sharing a live resource kind with the mine's
/// own cell.
pub open spec fn spec_expandable(
    cells: Seq<PlanetCellState>,
    neighbors: Seq<Vec<u32>>,
    existing: Seq<u32>,
    base: PlanetCellState,
    n: u32,
) -> bool {
    &&& !existing.contains(n)
    &&& (n as int) < cells.len()
    &&& spec_shared_deposit_kind(base, cells[n as int])
    &&& neighbor_seen(neighbors, existing, existing.len() as int, 0, n)
}

/// The cells a mine at `cell_index` may expand to, in increasing order
/// without repeats; none when the mine's cell is outside the world or has
/// no deposits.
pub open spec fn spec_expandable_mine_cells_ok(
    world: PlanetSimWorld,
    neighbors: Seq<Vec<u32>>,
    cell_index: u32,
    b: PlanetBuildingState,
    out: Seq<u32>,
) -> bool {
    if (cell_index as int) >= world.cells@.len() || world.cells@[cell_index as int].deposits@.len() == 0 {
        out.len() == 0
    } else {
        &&& strictly_increasing(out)
        &&& forall|x: u32| out.contains(x) <==> spec_expandable(
            world.cells@,
            neighbors,
            spec_mine_targets(cell_index, b),
            world.cells@[cell_index as int],
            x,
        )
    }
}

/// A mine only expands over cells of the world that it does not cover yet
/// and that still hold a live deposit of a kind the mine's own cell still
/// holds live.
pub proof fn lemma_expandable_cells_share_live_deposits(
    world: PlanetSimWorld,
    neighbors: Seq<Vec<u32>>,
    cell_index: u32,
    b: PlanetBuildingState,
    out: Seq<u32>,
)
    requires
        spec_expandable_mine_cells_ok(world, neighbors, cell_index, b, out),
    ensures
        forall|x: u32| #[trigger] out.contains(x) ==> {
            let cells = world.cells@;
            &&& (x as int) < cells.len()
            &&& x != cell_index
            &&& !b.mine_extra@.contains(x)
            &&& exists|i: int, j: int|
                0 <= i < cells[cell_index as int].deposits@.len() && 0 <= j < cells[x as int].deposits@.len()
                    && #[trigger] cells[cell_index as int].deposits@[i].remaining_amount > 0
                    && #[trigger] cells[x as int].deposits@[j].remaining_amount > 0
                    && cells[cell_index as int].deposits@[i].kind == cells[x as int].deposits@[j].kind
        },
{
    assert forall|x: u32| #[trigger] out.contains(x) implies {
        let cells = world.cells@;
        &&& (x as int) < cells.len()
        &&& x != cell_index
        &&& !b.mine_extra@.contains(x)
        &&& exists|i: int, j: int|
            0 <= i < cells[cell_index as int].deposits@.len() && 0 <= j < cells[x as int].deposits@.len()
                && #[trigger] cells[cell_index as int].deposits@[i].remaining_amount > 0
                && #[trigger] cells[x as int].deposits@[j].remaining_amount > 0
                && cells[cell_index as int].deposits@[i].kind == cells[x as int].deposits@[j].kind
    } by {
        let cells = world.cells@;
        let ex = spec_mine_targets(cell_index, b);
        assert(spec_expandable(cells, neighbors, ex, cells[cell_index as int], x));
        assert(ex[0] == cell_index);
        if b.mine_extra@.contains(x) {
            let k = choose|k: int| 0 <= k < b.mine_extra@.len() && b.mine_extra@[k] == x;
            assert(ex[k + 1] == x);
        }
        lemma_shared_deposit_kind_needs_live_deposits(cells[cell_index as int], cells[x as int]);
    }
}

/// The cells a mine may expand to, in increasing order without repeats.
#[verifier::spinoff_prover]
pub fn expandable_mine_cells(
    sim_world: &PlanetSimWorld,
    neighbors: &[Vec<u32>],
    cell_index: u32,
    building: &PlanetBuildingState,
) -> (out: Vec<u32>)
    ensures
        spec_expandable_mine_cells_ok(*sim_world, neighbors@, cell_index, *building, out@),
{
    let mut out: Vec<u32> = Vec::new();
    let ci = cell_index as usize;
    if ci >= sim_world.cells.len() {
        return out;
    }
    let base_cell = &sim_world.cells[ci];
    if base_cell.deposits.len() == 0 {
        return out;
    }
    let existing = mine_target_cells(cell_index, building);
    let ghost ex = existing@;
    let ghost nb = neighbors@;
    let ghost cells = sim_world.cells@;
    let mut k: usize = 0;
    while k < existing.len()
        invariant
            k <= existing.len(),
            ex == existing@,
            nb == neighbors@,
            cells == sim_world.cells@,
            ci < cells.len(),
            *base_cell == cells[ci as int],
            strictly_increasing(out@),
            forall|x: u32| #![trigger out@.contains(x)] out@.contains(x) <==> (!ex.contains(x) && (x as int) < cells.len()
                && spec_shared_deposit_kind(*base_cell, cells[x as int])
                && neighbor_seen(nb, ex, k as int, 0, x)),
        decreases existing.len() - k,
    {
        let current = existing[k] as usize;
        if current < neighbors.len() {
            let adjacent = &neighbors[current];
            let mut j: usize = 0;
            while j < adjacent.len()
                invariant
                    k < existing.len(),
                    j <= adjacent.len(),
                    ex == existing@,
                    nb == neighbors@,
                    cells == sim_world.cells@,
                    current == ex[k as int],
                    current < nb.len(),
                    *adjacent == nb[current as int],
                    ci < cells.len(),
                    *base_cell == cells[ci as int],
                    strictly_increasing(out@),
                    forall|x: u32| #![trigger out@.contains(x)] out@.contains(x) <==> (!ex.contains(x) && (x as int) < cells.len()
                        && spec_shared_deposit_kind(*base_cell, cells[x as int])
                        && neighbor_seen(nb, ex, k as int, j as int, x)),
                decreases adjacent.len() - j,
            {
                let n = adjacent[j];
                let ghost before = out@;
                let mut added = false;
                if !contains_u32(&existing, n) {
                    let ni = n as usize;
                    if ni < sim_world.cells.len() && shared_deposit_kind(base_cell, &sim_world.cells[ni]) {
                        insert_sorted_unique(&mut out, n);
                        added = true;
                    }
                }
                assert(added == (!ex.contains(n) && (n as int) < cells.len()
                    && spec_shared_deposit_kind(*base_cell, cells[n as int])));
                assert(forall|y: u32| out@.contains(y) <==> (before.contains(y) || (added && y == n)));
                assert(n == nb[ex[k as int] as int]@[j as int]);
                assert forall|x: u32| #![trigger out@.contains(x)] out@.contains(x) <==> (!ex.contains(x) && (x as int) < cells.len()
                    && spec_shared_deposit_kind(*base_cell, cells[x as int])
                    && neighbor_seen(nb, ex, k as int, j + 1, x)) by {
                    lemma_neighbor_seen_step(nb, ex, k as int, j as int, x);
                    assert(before.contains(x) <==> (!ex.contains(x) && (x as int) < cells.len()
                        && spec_shared_deposit_kind(*base_cell, cells[x as int])
                        && neighbor_seen(nb, ex, k as int, j as int, x)));
                }
                j = j + 1;
            }
            assert forall|x: u32| neighbor_seen(nb, ex, k as int, j as int, x) <==> neighbor_seen(nb, ex, k + 1, 0, x) by {
                lemma_neighbor_seen_next(nb, ex, k as int, x);
            }
        } else {
            assert forall|x: u32| neighbor_seen(nb, ex, k as int, 0, x) <==> neighbor_seen(nb, ex, k + 1, 0, x) by {
                lemma_neighbor_seen_next(nb, ex, k as int, x);
            }
        }
        k = k + 1;
    }
    out
}


/// Units of one resource kind left in a list of deposits.
pub open spec fn deposits_kind_remaining(ds: Seq<PlanetDeposit>, kind: PlanetResourceKind) -> int
    decreases ds.len(),
{
    if ds.len() == 0 {
        0
    } else {
        deposits_kind_remaining(ds.drop_last(), kind) + (if ds.last().kind == kind {
            ds.last().remaining_amount as int
        } else {
            0
        })
    }
}

/// Units of one resource kind left in the given cells; cell numbers outside
/// the world count nothing.
pub open spec fn cells_kind_remaining(
    cells: Seq<PlanetCellState>,
    targets: Seq<u32>,
    kind: PlanetResourceKind,
) -> int
    decreases targets.len(),
{
    if targets.len() == 0 {
        0
    } else {
        cells_kind_remaining(cells, targets.drop_last(), kind) + (if targets.last() < cells.len() {
            deposits_kind_remaining(cells[targets.last() as int].deposits@, kind)
        } else {
            0
        })
    }
}

proof fn lemma_deposits_kind_prefix(ds: Seq<PlanetDeposit>, kind: PlanetResourceKind, k: int)
    requires
        0 <= k <= ds.len(),
    ensures
        0 <= deposits_kind_remaining(ds.take(k), kind) <= deposits_kind_remaining(ds, kind),
    decreases ds.len(),
{
    if ds.len() > 0 {
        if k < ds.len() {
            assert(ds.drop_last().take(k) =~= ds.take(k));
            lemma_deposits_kind_prefix(ds.drop_last(), kind, k);
        } else {
            assert(ds.take(k) =~= ds);
            lemma_deposits_kind_prefix(ds.drop_last(), kind, k - 1);
            assert(ds.drop_last().take(k - 1) =~= ds.drop_last());
        }
    } else {
        assert(ds.take(k) =~= ds);
    }
}

proof fn lemma_cells_kind_prefix(
    cells: Seq<PlanetCellState>,
    targets: Seq<u32>,
    kind: PlanetResourceKind,
    k: int,
)
    requires
        0 <= k <= targets.len(),
    ensures
        0 <= cells_kind_remaining(cells, targets.take(k), kind) <= cells_kind_remaining(cells, targets, kind),
    decreases targets.len(),
{
    if targets.len() > 0 {
        if k < targets.len() {
            assert(targets.drop_last().take(k) =~= targets.take(k));
            lemma_cells_kind_prefix(cells, targets.drop_last(), kind, k);
        } else {
            assert(targets.take(k) =~= targets);
            lemma_cells_kind_prefix(cells, targets.drop_last(), kind, k - 1);
            assert(targets.drop_last().take(k - 1) =~= targets.drop_last());
        }
        if targets.last() < cells.len() {
            lemma_deposits_kind_prefix(cells[targets.last() as int].deposits@, kind, 0);
        }
    } else {
        assert(targets.take(k) =~= targets);
    }
}

/// The per-kind totals of the resource ids from `id` on, as (kind, units)
/// pairs in increasing id order, leaving out kinds with nothing left.
pub open spec fn totals_from(cells: Seq<PlanetCellState>, targets: Seq<u32>, id: int) -> Seq<(PlanetResourceKind, u32)>
    decreases RESOURCE_KIND_COUNT - id,
{
    if id < 0 || id >= RESOURCE_KIND_COUNT {
        seq![]
    } else {
        let kind = spec_resource_from_id(id).unwrap();
        let total = cells_kind_remaining(cells, targets, kind);
        if total > 0 {
            seq![(kind, total as u32)] + totals_from(cells, targets, id + 1)
        } else {
            totals_from(cells, targets, id + 1)
        }
    }
}

/// Units left of each resource kind over the cells a mine covers, as
/// (kind, units) pairs in increasing id order, leaving out kinds with
/// nothing left; empty when there is no world.
pub open spec fn spec_mine_resource_totals(
    world: Option<&PlanetSimWorld>,
    cell_index: u32,
    b: PlanetBuildingState,
) -> Seq<(PlanetResourceKind, u32)> {
    match world {
        None => seq![],
        Some(w) => totals_from(w.cells@, spec_mine_targets(cell_index, b), 0),
    }
}

/// Units left of each resource kind over the cells a mine covers, in
/// increasing id order, leaving out kinds with nothing left.
pub fn mine_resource_totals(
    sim_world: Option<&PlanetSimWorld>,
    cell_index: u32,
    building: &PlanetBuildingState,
) -> (totals: Vec<(PlanetResourceKind, u32)>)
    requires
        sim_world matches Some(w) ==> forall|kind: PlanetResourceKind|
            #[trigger] cells_kind_remaining(w.cells@, spec_mine_targets(cell_index, *building), kind)
                <= u32::MAX,
    ensures
        totals@ == spec_mine_resource_totals(sim_world, cell_index, *building),
{
    let world = match sim_world {
        None => return Vec::new(),
        Some(w) => w,
    };
    let targets = mine_target_cells(cell_index, building);
    let ghost all = targets@;
    let ghost cells = world.cells@;
    let mut acc: [u32; 11] = [0u32; 11];
    let mut i: usize = 0;
    while i < targets.len()
        invariant
            i <= targets.len(),
            all == targets@,
            cells == world.cells@,
            forall|kind: PlanetResourceKind| #[trigger] cells_kind_remaining(cells, all, kind) <= u32::MAX,
            forall|id: int| 0 <= id < RESOURCE_KIND_COUNT ==> #[trigger] acc[id]
                == cells_kind_remaining(cells, all.take(i as int), spec_resource_from_id(id).unwrap()),
        decreases targets.len() - i,
    {
        assert(all.take(i + 1).drop_last() =~= all.take(i as int));
        let t = targets[i] as usize;
        if t < world.cells.len() {
            let deposits = &world.cells[t].deposits;
            let mut j: usize = 0;
            while j < deposits.len()
                invariant
                    i < targets.len(),
                    all == targets@,
                    cells == world.cells@,
                    t == all[i as int],
                    t < cells.len(),
                    *deposits == cells[t as int].deposits,
                    j <= deposits.len(),
                    forall|kind: PlanetResourceKind| #[trigger] cells_kind_remaining(cells, all, kind) <= u32::MAX,
                    forall|id: int| 0 <= id < RESOURCE_KIND_COUNT ==> #[trigger] acc[id]
                        == cells_kind_remaining(cells, all.take(i as int), spec_resource_from_id(id).unwrap())
                            + deposits_kind_remaining(deposits@.take(j as int), spec_resource_from_id(id).unwrap()),
                decreases deposits.len() - j,
            {
                let d = deposits[j];
                let id = resource_kind_to_id(d.kind) as usize;
                proof {
                    assert(deposits@.take(j + 1).drop_last() =~= deposits@.take(j as int));
                    lemma_resource_id_round_trip(d.kind, 0);
                    lemma_deposits_kind_prefix(deposits@, d.kind, j + 1);
                    lemma_cells_kind_prefix(cells, all, d.kind, i + 1);
                }
                proof {
                    assert(all.take(i + 1).last() == t);
                    assert(all.take(i + 1).drop_last() =~= all.take(i as int));
                    assert(cells_kind_remaining(cells, all.take(i + 1), d.kind)
                        == cells_kind_remaining(cells, all.take(i as int), d.kind)
                            + deposits_kind_remaining(deposits@, d.kind));
                    assert(deposits@.take(j + 1).last() == d);
                    assert(acc[id as int] == cells_kind_remaining(cells, all.take(i as int), d.kind)
                        + deposits_kind_remaining(deposits@.take(j as int), d.kind));
                    assert(cells_kind_remaining(cells, all, d.kind) <= u32::MAX);
                }
                if d.remaining_amount > 0 {
                    acc[id] = acc[id] + d.remaining_amount;
                }
                assert forall|id2: int| 0 <= id2 < RESOURCE_KIND_COUNT implies #[trigger] acc[id2]
                    == cells_kind_remaining(cells, all.take(i as int), spec_resource_from_id(id2).unwrap())
                        + deposits_kind_remaining(deposits@.take(j + 1), spec_resource_from_id(id2).unwrap()) by {
                    lemma_resource_id_round_trip(d.kind, id2);
                }
                j = j + 1;
            }
            assert(deposits@.take(j as int) =~= deposits@);
        }
        i = i + 1;
    }
    assert(all.take(i as int) =~= all);
    let mut out: Vec<(PlanetResourceKind, u32)> = Vec::new();
    let mut id: usize = RESOURCE_KIND_COUNT;
    while id > 0
        invariant
            id <= RESOURCE_KIND_COUNT,
            forall|id2: int| 0 <= id2 < RESOURCE_KIND_COUNT ==> #[trigger] acc[id2]
                == cells_kind_remaining(cells, all, spec_resource_from_id(id2).unwrap()),
            out@ == totals_from(cells, all, id as int),
        decreases id,
    {
        id = id - 1;
        let kind = resource_kind_from_id(id as u8).unwrap();
        let total = acc[id];
        if total > 0 {
            out.insert(0, (kind, total));
        }
    }
    out
}

/// The units of a list of (kind, units) pairs added up.
pub open spec fn pairs_sum(s: Seq<(PlanetResourceKind, u32)>) -> int
    decreases s.len(),
{
    if s.len() == 0 {
        0
    } else {
        s[0].1 + pairs_sum(s.drop_first())
    }
}

/// Units left in a list of deposits of the kinds with ids from `id` on.
spec fn deposits_kinds_from(ds: Seq<PlanetDeposit>, id: int) -> int
    decreases RESOURCE_KIND_COUNT - id,
{
    if id < 0 || id >= RESOURCE_KIND_COUNT {
        0
    } else {
        deposits_kind_remaining(ds, spec_resource_from_id(id).unwrap()) + deposits_kinds_from(ds, id + 1)
    }
}

/// Units left in the given cells of the kinds with ids from `id` on.
spec fn cells_kinds_from(cells: Seq<PlanetCellState>, targets: Seq<u32>, id: int) -> int
    decreases RESOURCE_KIND_COUNT - id,
{
    if id < 0 || id >= RESOURCE_KIND_COUNT {
        0
    } else {
        cells_kind_remaining(cells, targets, spec_resource_from_id(id).unwrap()) + cells_kinds_from(
            cells,
            targets,
            id + 1,
        )
    }
}

proof fn lemma_deposits_kinds_from_step(ds: Seq<PlanetDeposit>, id: int)
    requires
        0 <= id,
    ensures
        ds.len() == 0 ==> deposits_kinds_from(ds, id) == 0,
        ds.len() > 0 ==> deposits_kinds_from(ds, id) == deposits_kinds_from(ds.drop_last(), id) + (if spec_resource_id(
            ds.last().kind,
        ) >= id {
            ds.last().remaining_amount as int
        } else {
            0
        }),
    decreases RESOURCE_KIND_COUNT - id,
{
    if id < RESOURCE_KIND_COUNT {
        lemma_deposits_kinds_from_step(ds, id + 1);
        if ds.len() > 0 {
            lemma_resource_id_round_trip(ds.last().kind, id);
        }
    } else if ds.len() > 0 {
        lemma_resource_id_round_trip(ds.last().kind, id);
    }
}

proof fn lemma_deposits_kinds_total(ds: Seq<PlanetDeposit>)
    ensures
        deposits_kinds_from(ds, 0) == deposits_remaining(ds),
    decreases ds.len(),
{
    lemma_deposits_kinds_from_step(ds, 0);
    if ds.len() > 0 {
        lemma_deposits_kinds_total(ds.drop_last());
        lemma_resource_id_round_trip(ds.last().kind, 0);
    }
}

proof fn lemma_cells_kinds_from_step(cells: Seq<PlanetCellState>, targets: Seq<u32>, id: int)
    requires
        0 <= id,
    ensures
        targets.len() == 0 ==> cells_kinds_from(cells, targets, id) == 0,
        targets.len() > 0 ==> cells_kinds_from(cells, targets, id) == cells_kinds_from(
            cells,
            targets.drop_last(),
            id,
        ) + (if targets.last() < cells.len() {
            deposits_kinds_from(cells[targets.last() as int].deposits@, id)
        } else {
            0
        }),
    decreases RESOURCE_KIND_COUNT - id,
{
    if id < RESOURCE_KIND_COUNT {
        lemma_cells_kinds_from_step(cells, targets, id + 1);
    }
}

proof fn lemma_cells_kinds_total(cells: Seq<PlanetCellState>, targets: Seq<u32>)
    ensures
        cells_kinds_from(cells, targets, 0) == cells_remaining(cells, targets),
    decreases targets.len(),
{
    lemma_cells_kinds_from_step(cells, targets, 0);
    if targets.len() > 0 {
        lemma_cells_kinds_total(cells, targets.drop_last());
        if targets.last() < cells.len() {
            lemma_deposits_kinds_total(cells[targets.last() as int].deposits@);
        }
    }
}

proof fn lemma_totals_from_sum(cells: Seq<PlanetCellState>, targets: Seq<u32>, id: int)
    requires
        0 <= id,
        forall|kind: PlanetResourceKind| #[trigger] cells_kind_remaining(cells, targets, kind) <= u32::MAX,
    ensures
        pairs_sum(totals_from(cells, targets, id)) == cells_kinds_from(cells, targets, id),
    decreases RESOURCE_KIND_COUNT - id,
{
    if id < RESOURCE_KIND_COUNT {
        lemma_totals_from_sum(cells, targets, id + 1);
        let kind = spec_resource_from_id(id).unwrap();
        lemma_cells_kind_prefix(cells, targets, kind, 0);
        let total = cells_kind_remaining(cells, targets, kind);
        if total > 0 {
            let rest = totals_from(cells, targets, id + 1);
            assert((seq![(kind, total as u32)] + rest).drop_first() =~= rest);
        }
    }
}

/// The per-kind totals of a mine add up to the units left in all the cells
/// it covers, whenever each per-kind total fits in a `u32`.
pub proof fn lemma_mine_totals_add_up(world: Option<&PlanetSimWorld>, cell_index: u32, b: PlanetBuildingState)
    requires
        world matches Some(w) ==> forall|kind: PlanetResourceKind|
            #[trigger] cells_kind_remaining(w.cells@, spec_mine_targets(cell_index, b), kind) <= u32::MAX,
    ensures
        pairs_sum(spec_mine_resource_totals(world, cell_index, b)) == spec_mine_total_remaining(
            world,
            cell_index,
            b,
        ),
{
    if let Some(w) = world {
        let targets = spec_mine_targets(cell_index, b);
        lemma_totals_from_sum(w.cells@, targets, 0);
        lemma_cells_kinds_total(w.cells@, targets);
    }
}


/// What a base's interior editor is waiting for the player to pick.
#[derive(Clone, Copy, Debug, PartialEq, Eq, Structural)]
pub enum InteriorPickMode {
    ArmOutputs(Axial),
    ArmInputs(Axial),
}

/// The cells a planet unit is tied to: the building it belongs to, the
/// cells it serves and the cell it is heading for, with the cells of its
/// path and its place on that path.
#[derive(Clone, Debug)]
pub struct PlanetUnit {
    pub depot: u32,
    pub nodes: Vec<u32>,
    pub path: Vec<u32>,
    pub index: usize,
    pub current_target: Option<u32>,
}

/// A unit depends on a cell when the cell is its depot, one of the cells it
/// serves, or the cell it is heading for.
pub open spec fn unit_references(u: PlanetUnit, c: u32) -> bool {
    u.depot == c || u.nodes@.contains(c) || u.current_target == Some(c)
}

/// Whether a unit depends on a cell.
pub fn unit_references_cell(u: &PlanetUnit, c: u32) -> (res: bool)
    ensures
        res == unit_references(*u, c),
{
    u.depot == c || contains_u32(&u.nodes, c) || u.current_target == Some(c)
}

/// The units that do not depend on cell `c`, in order.
pub open spec fn units_without(us: Seq<PlanetUnit>, c: u32) -> Seq<PlanetUnit>
    decreases us.len(),
{
    if us.len() == 0 {
        us
    } else if unit_references(us.last(), c) {
        units_without(us.drop_last(), c)
    } else {
        units_without(us.drop_last(), c).push(us.last())
    }
}

/// The buildings of a planet and the simulation state they act on. Mine
/// progress is counted in thousandths of a unit.
pub struct PlanetState {
    pub sim_world: Option<PlanetSimWorld>,
    pub sim_neighbors: Option<Vec<Vec<u32>>>,
    pub buildings: HashMap<u32, PlanetBuildingState>,
    pub buildings_dirty: bool,
    pub units: Vec<PlanetUnit>,
    pub units_dirty: bool,
    pub mine_progress: HashMap<u32, u32>,
    pub editing_base_cell: Option<u32>,
    pub interior_pick_mode: Option<InteriorPickMode>,
    pub builder_unit_log: Vec<String>,
}

/// The storage a freshly placed building starts with: a base comes stocked,
/// every other building starts empty.
pub open spec fn spec_initial_storage(kind: PlanetBuildingKind) -> Seq<u32> {
    if kind == PlanetBuildingKind::Base {
        seq![80u32, 40, 0, 20, 10, 0, 0, 0, 1800, 0, 0]
    } else {
        seq![0u32, 0, 0, 0, 0, 0, 0, 0, 0, 0, 0]
    }
}

/// A freshly placed building of the given kind.
pub open spec fn spec_new_building(kind: PlanetBuildingKind, b: PlanetBuildingState) -> bool {
    let is_base = kind == PlanetBuildingKind::Base;
    &&& b.kind == kind
    &&& b.mine_extra@.len() == 0
    &&& b.storage@ == spec_initial_storage(kind)
    &&& b.build_time == spec_build_time(kind)
    &&& b.build_progress == (if is_base { spec_build_time(kind) } else { 0 })
    &&& b.build_paid == is_base
    &&& !b.build_claimed
    &&& b.builder_units_desired == 0
    &&& b.builder_units_created == 0
    &&& b.auto_units_enabled
    &&& !b.auto_pick_source
    &&& !b.auto_pick_build
    &&& !b.auto_pick_refuel
    &&& (b.interior is Some) == is_base
}

/// The same building except for a different list of extra mine cells.
pub open spec fn same_except_mine_extra(a: PlanetBuildingState, b: PlanetBuildingState) -> bool {
    &&& a.kind == b.kind
    &&& a.storage == b.storage
    &&& a.build_progress == b.build_progress
    &&& a.build_time == b.build_time
    &&& a.build_paid == b.build_paid
    &&& a.build_claimed == b.build_claimed
    &&& a.builder_units_desired == b.builder_units_desired
    &&& a.builder_units_created == b.builder_units_created
    &&& a.auto_units_enabled == b.auto_units_enabled
    &&& a.auto_pick_source == b.auto_pick_source
    &&& a.auto_pick_build == b.auto_pick_build
    &&& a.auto_pick_refuel == b.auto_pick_refuel
    &&& a.interior == b.interior
}

/// The same building except for its storage.
pub open spec fn same_except_storage(a: PlanetBuildingState, b: PlanetBuildingState) -> bool {
    &&& a.kind == b.kind
    &&& a.mine_extra@ == b.mine_extra@
    &&& a.build_progress == b.build_progress
    &&& a.build_time == b.build_time
    &&& a.build_paid == b.build_paid
    &&& a.build_claimed == b.build_claimed
    &&& a.builder_units_desired == b.builder_units_desired
    &&& a.builder_units_created == b.builder_units_created
    &&& a.auto_units_enabled == b.auto_units_enabled
    &&& a.auto_pick_source == b.auto_pick_source
    &&& a.auto_pick_build == b.auto_pick_build
    &&& a.auto_pick_refuel == b.auto_pick_refuel
    &&& a.interior == b.interior
}

/// Units a building can still take: its capacity less what it holds, never below zero.
pub open spec fn spec_space_left(b: PlanetBuildingState) -> int {
    if storage_used(b.storage) >= spec_storage_capacity(b.kind) {
        0
    } else {
        spec_storage_capacity(b.kind) - storage_used(b.storage)
    }
}

impl PlanetState {
    /// Every building's storage total fits in a `u32`.
    pub open spec fn wf(&self) -> bool {
        forall|c: u32| #[trigger] self.buildings@.contains_key(c) ==> storage_used(self.buildings@[c].storage) <= u32::MAX
    }

    /// The cell exists in the simulated world and may carry a building.
    pub open spec fn spec_can_build_on_sim_cell(&self, cell_index: u32) -> bool {
        match self.sim_world {
            None => false,
            Some(w) => spec_can_build(w.cells@, cell_index as int),
        }
    }

    /// A building of `kind` may go on the cell: it is free, buildable, and a
    /// mine needs a deposit with something left.
    pub open spec fn spec_can_place_building(&self, cell_index: u32, kind: PlanetBuildingKind) -> bool {
        &&& !self.buildings@.contains_key(cell_index)
        &&& self.spec_can_build_on_sim_cell(cell_index)
        &&& (kind == PlanetBuildingKind::Mine ==> exists|i: int|
            0 <= i < self.sim_world.unwrap().cells@[cell_index as int].deposits@.len()
                && #[trigger] self.sim_world.unwrap().cells@[cell_index as int].deposits@[i].remaining_amount > 0)
    }

    /// An empty planet: no world yet, no buildings, nothing being edited.
    pub fn new() -> (s: Self)
        ensures
            s.sim_world is None,
            s.sim_neighbors is None,
            s.buildings@ == Map::<u32, PlanetBuildingState>::empty(),
            !s.buildings_dirty,
            s.editing_base_cell is None,
            s.interior_pick_mode is None,
            s.builder_unit_log@.len() == 0,
            s.units@.len() == 0,
            !s.units_dirty,
            s.mine_progress@ == Map::<u32, u32>::empty(),
            s.wf(),
    {
        PlanetState {
            sim_world: None,
            sim_neighbors: None,
            buildings: HashMap::new(),
            buildings_dirty: false,
            units: Vec::new(),
            units_dirty: false,
            mine_progress: HashMap::new(),
            editing_base_cell: None,
            interior_pick_mode: None,
            builder_unit_log: Vec::new(),
        }
    }

    /// Whether the cell exists in the simulated world and may carry a building.
    pub fn can_build_on_sim_cell(&self, cell_index: u32) -> (ok: bool)
        ensures
            ok == self.spec_can_build_on_sim_cell(cell_index),
    {
        match &self.sim_world {
            Some(world) => world.can_build(cell_index),
            None => false,
        }
    }

    /// Whether a building of `kind` may go on the cell.
    pub fn can_place_building(&self, cell_index: u32, kind: PlanetBuildingKind) -> (ok: bool)
        ensures
            ok == self.spec_can_place_building(cell_index, kind),
    {
        if self.buildings.contains_key(&cell_index) {
            return false;
        }
        if !self.can_build_on_sim_cell(cell_index) {
            return false;
        }
        if kind != PlanetBuildingKind::Mine {
            return true;
        }
        match &self.sim_world {
            None => false,
            Some(world) => {
                let cell = &world.cells[cell_index as usize];
                let mut i: usize = 0;
                while i < cell.deposits.len()
                    invariant
                        i <= cell.deposits.len(),
                        self.sim_world == Some(*world),
                        (cell_index as int) < world.cells@.len(),
                        *cell == world.cells@[cell_index as int],
                        !self.buildings@.contains_key(cell_index),
                        self.spec_can_build_on_sim_cell(cell_index),
                        forall|k: int| 0 <= k < i ==> !(#[trigger] cell.deposits@[k].remaining_amount > 0),
                    decreases cell.deposits.len() - i,
                {
                    if cell.deposits[i].remaining_amount > 0 {
                        assert(cell.deposits@[i as int].remaining_amount > 0);
                        return true;
                    }
                    i = i + 1;
                }
                false
            },
        }
    }

    /// Places a new building when the cell allows it; a base starts finished
    /// and stocked, other buildings start unpaid at zero progress.
    pub fn place_building(&mut self, cell_index: u32, kind: PlanetBuildingKind) -> (placed: bool)
        requires
            old(self).wf(),
        ensures
            placed == old(self).spec_can_place_building(cell_index, kind),
            placed ==> final(self).buildings@.dom() == old(self).buildings@.dom().insert(cell_index),
            placed ==> forall|c: u32| c != cell_index && #[trigger] old(self).buildings@.contains_key(c)
                ==> final(self).buildings@[c] == old(self).buildings@[c],
            placed ==> spec_new_building(kind, final(self).buildings@[cell_index]),
            placed ==> final(self).buildings_dirty,
            !placed ==> final(self).buildings@ == old(self).buildings@,
            !placed ==> final(self).buildings_dirty == old(self).buildings_dirty,
            final(self).sim_world == old(self).sim_world,
            final(self).sim_neighbors == old(self).sim_neighbors,
            final(self).editing_base_cell == old(self).editing_base_cell,
            final(self).interior_pick_mode == old(self).interior_pick_mode,
            final(self).builder_unit_log == old(self).builder_unit_log,
            final(self).units@ == old(self).units@,
            final(self).units_dirty == old(self).units_dirty,
            final(self).mine_progress@ == old(self).mine_progress@,
            final(self).wf(),
    {
        if !self.can_place_building(cell_index, kind) {
            return false;
        }
        let mut storage: ResourceStorage = [0u32; 11];
        let build_time = planet_build_time(kind);
        let mut build_paid = false;
        let mut build_progress: u32 = 0;
        if kind == PlanetBuildingKind::Base {
            build_paid = true;
            build_progress = build_time;
            add_storage_amount(&mut storage, PlanetResourceKind::Stone, 1_800);
            add_storage_amount(&mut storage, PlanetResourceKind::Iron, 80);
            add_storage_amount(&mut storage, PlanetResourceKind::Copper, 40);
            add_storage_amount(&mut storage, PlanetResourceKind::Lead, 20);
            add_storage_amount(&mut storage, PlanetResourceKind::Zinc, 10);
        }
        assert(storage@ =~= spec_initial_storage(kind));
        assert(storage_used(storage) <= u32::MAX) by {
            reveal_with_fuel(amounts_sum, 12);
        }
        let building = PlanetBuildingState {
            kind,
            mine_extra: Vec::new(),
            storage,
            build_progress,
            build_time,
            build_paid,
            build_claimed: false,
            builder_units_desired: 0,
            builder_units_created: 0,
            auto_units_enabled: true,
            auto_pick_source: false,
            auto_pick_build: false,
            auto_pick_refuel: false,
            interior: if kind == PlanetBuildingKind::Base { Some(BaseInterior {}) } else { None },
        };
        self.buildings.insert(cell_index, building);
        self.buildings_dirty = true;
        true
    }

    /// Removes the building on the cell, if any. Removing it also stops
    /// editing it if it was the base being edited, drops the cell's mine
    /// progress, and takes away every unit that depends on the cell (marking
    /// the units changed when any goes).
    pub fn remove_building(&mut self, cell_index: u32) -> (removed: bool)
        requires
            old(self).wf(),
        ensures
            removed == old(self).buildings@.contains_key(cell_index),
            final(self).buildings@ == old(self).buildings@.remove(cell_index),
            final(self).editing_base_cell == (if removed && old(self).editing_base_cell == Some(cell_index) {
                None
            } else {
                old(self).editing_base_cell
            }),
            final(self).buildings_dirty == (removed || old(self).buildings_dirty),
            final(self).mine_progress@ == (if removed {
                old(self).mine_progress@.remove(cell_index)
            } else {
                old(self).mine_progress@
            }),
            final(self).units@ == (if removed { units_without(old(self).units@, cell_index) } else { old(self).units@ }),
            final(self).units_dirty == (old(self).units_dirty
                || (removed && units_without(old(self).units@, cell_index).len() != old(self).units@.len())),
            final(self).sim_world == old(self).sim_world,
            final(self).sim_neighbors == old(self).sim_neighbors,
            final(self).interior_pick_mode == old(self).interior_pick_mode,
            final(self).builder_unit_log == old(self).builder_unit_log,
            final(self).wf(),
    {
        let removed = self.buildings.remove(&cell_index).is_some();
        if removed {
            if self.editing_base_cell == Some(cell_index) {
                self.editing_base_cell = None;
            }
            self.mine_progress.remove(&cell_index);
            let mut units: Vec<PlanetUnit> = Vec::new();
            std::mem::swap(&mut units, &mut self.units);
            let before = units.len();
            let ghost orig = units@;
            let ghost mut j: int = 0;
            let mut i: usize = 0;
            proof {
                assert(orig.take(0) =~= Seq::<PlanetUnit>::empty());
                assert(orig.skip(0) =~= orig);
                assert(units@ =~= units_without(orig.take(0), cell_index) + orig.skip(0));
            }
            while i < units.len()
                invariant
                    0 <= j <= orig.len(),
                    i == units_without(orig.take(j), cell_index).len(),
                    units@ == units_without(orig.take(j), cell_index) + orig.skip(j),
                decreases orig.len() - j,
            {
                proof {
                    assert(orig.take(j + 1).drop_last() =~= orig.take(j));
                    assert(orig.take(j + 1).last() == orig[j]);
                    assert(units@[i as int] == orig[j]);
                    assert(orig.skip(j).drop_first() =~= orig.skip(j + 1));
                }
                if unit_references_cell(&units[i], cell_index) {
                    units.remove(i);
                    proof {
                        assert(units@ =~= units_without(orig.take(j + 1), cell_index) + orig.skip(j + 1));
                        j = j + 1;
                    }
                } else {
                    proof {
                        assert(units@ =~= units_without(orig.take(j + 1), cell_index) + orig.skip(j + 1));
                        j = j + 1;
                    }
                    i = i + 1;
                }
            }
            proof {
                if j < orig.len() {
                    assert(units@.len() > i);
                }
                assert(orig.take(j) =~= orig);
                assert(orig.skip(j) =~= Seq::<PlanetUnit>::empty());
                assert(units@ =~= units_without(orig, cell_index));
            }
            let after = units.len();
            self.units = units;
            if after != before {
                self.units_dirty = true;
            }
            self.buildings_dirty = true;
        }
        removed
    }

    /// Units the building on the cell can still take; 0 when there is none.
    pub fn storage_space_left(&self, cell_index: u32) -> (free: u32)
        requires
            self.wf(),
        ensures
            free == (if self.buildings@.contains_key(cell_index) {
                spec_space_left(self.buildings@[cell_index])
            } else {
                0
            }),
    {
        match self.buildings.get(&cell_index) {
            None => 0,
            Some(building) => {
                let capacity = building_storage_capacity(building.kind);
                let used = storage_used_total(&building.storage);
                capacity.saturating_sub(used)
            },
        }
    }

    /// Stores up to `amount` units of a resource in the building on the cell,
    /// as far as its free space allows, and returns how many were stored.
    pub fn push_to_building_storage(
        &mut self,
        cell_index: u32,
        resource: PlanetResourceKind,
        amount: u32,
    ) -> (stored: u32)
        requires
            old(self).wf(),
        ensures
            !old(self).buildings@.contains_key(cell_index) ==> stored == 0 && final(self).buildings@
                == old(self).buildings@,
            old(self).buildings@.contains_key(cell_index) ==> {
                let b = old(self).buildings@[cell_index];
                let nb = final(self).buildings@[cell_index];
                &&& stored == (if amount < spec_space_left(b) { amount as int } else { spec_space_left(b) })
                &&& final(self).buildings@.dom() == old(self).buildings@.dom()
                &&& forall|c: u32| c != cell_index && #[trigger] old(self).buildings@.contains_key(c)
                    ==> final(self).buildings@[c] == old(self).buildings@[c]
                &&& same_except_storage(nb, b)
                &&& nb.storage@ == b.storage@.update(
                    spec_resource_id(resource),
                    (b.storage[spec_resource_id(resource)] + stored) as u32,
                )
            },
            final(self).buildings_dirty == old(self).buildings_dirty,
            final(self).sim_world == old(self).sim_world,
            final(self).sim_neighbors == old(self).sim_neighbors,
            final(self).editing_base_cell == old(self).editing_base_cell,
            final(self).interior_pick_mode == old(self).interior_pick_mode,
            final(self).builder_unit_log == old(self).builder_unit_log,
            final(self).units@ == old(self).units@,
            final(self).units_dirty == old(self).units_dirty,
            final(self).mine_progress@ == old(self).mine_progress@,
            final(self).wf(),
    {
        let mut building = match self.buildings.remove(&cell_index) {
            None => return 0,
            Some(b) => b,
        };
        let ghost b0 = building;
        let ghost m0 = old(self).buildings@;
        assert(m0.contains_key(cell_index) && m0[cell_index] == b0);
        let capacity = building_storage_capacity(building.kind);
        let used = storage_used_total(&building.storage);
        let free = capacity.saturating_sub(used);
        let stored = if amount < free { amount } else { free };
        let id = resource_kind_to_id(resource);
        proof {
            lemma_amounts_sum_bounds(building.storage@, id as int);
        }
        if stored > 0 {
            add_storage_amount(&mut building.storage, resource, stored);
        } else {
            assert(building.storage@ =~= building.storage@.update(id as int, building.storage[id as int]));
        }
        proof {
            lemma_amounts_sum_update(b0.storage@, id as int, (b0.storage[id as int] + stored) as u32);
        }
        self.buildings.insert(cell_index, building);
        assert(self.buildings@ =~= m0.insert(cell_index, building));
        stored
    }

    /// The cells the mine on `cell_index` may expand to, when it is a mine
    /// and the world and its neighbour lists are known.
    pub open spec fn spec_expansion_ok(&self, cell_index: u32, out: Seq<u32>) -> bool {
        &&& self.buildings@.contains_key(cell_index)
        &&& self.buildings@[cell_index].kind == PlanetBuildingKind::Mine
        &&& self.sim_world is Some
        &&& self.sim_neighbors is Some
        &&& spec_expandable_mine_cells_ok(
            self.sim_world.unwrap(),
            self.sim_neighbors.unwrap()@,
            cell_index,
            self.buildings@[cell_index],
            out,
        )
    }

    /// Adds to a mine every neighbouring cell that shares one of its live
    /// resource kinds; false when nothing could be added.
    pub fn expand_mine_area(&mut self, cell_index: u32) -> (expanded: bool)
        requires
            old(self).wf(),
        ensures
            expanded <==> exists|out: Seq<u32>| old(self).spec_expansion_ok(cell_index, out) && out.len() > 0,
            expanded ==> exists|out: Seq<u32>| {
                &&& old(self).spec_expansion_ok(cell_index, out)
                &&& final(self).buildings@.dom() == old(self).buildings@.dom()
                &&& same_except_mine_extra(final(self).buildings@[cell_index], old(self).buildings@[cell_index])
                &&& final(self).buildings@[cell_index].mine_extra@ == old(self).buildings@[cell_index].mine_extra@ + out
            },
            expanded ==> forall|c: u32| c != cell_index && #[trigger] old(self).buildings@.contains_key(c)
                ==> final(self).buildings@[c] == old(self).buildings@[c],
            expanded ==> final(self).buildings_dirty,
            !expanded ==> final(self).buildings@ == old(self).buildings@,
            !expanded ==> final(self).buildings_dirty == old(self).buildings_dirty,
            final(self).sim_world == old(self).sim_world,
            final(self).sim_neighbors == old(self).sim_neighbors,
            final(self).editing_base_cell == old(self).editing_base_cell,
            final(self).interior_pick_mode == old(self).interior_pick_mode,
            final(self).builder_unit_log == old(self).builder_unit_log,
            final(self).units@ == old(self).units@,
            final(self).units_dirty == old(self).units_dirty,
            final(self).mine_progress@ == old(self).mine_progress@,
            final(self).wf(),
    {
        let to_add = match self.buildings.get(&cell_index) {
            None => return false,
            Some(building) => {
                if building.kind != PlanetBuildingKind::Mine {
                    return false;
                }
                match (&self.sim_world, &self.sim_neighbors) {
                    (Some(world), Some(neighbors)) => expandable_mine_cells(
                        world,
                        neighbors.as_slice(),
                        cell_index,
                        building,
                    ),
                    _ => return false,
                }
            },
        };
        proof {
            assert(self.spec_expansion_ok(cell_index, to_add@));
            assert forall|out: Seq<u32>| self.spec_expansion_ok(cell_index, out) implies out =~= to_add@ by {
                lemma_sorted_sets_equal(out, to_add@);
            }
        }
        if to_add.len() == 0 {
            return false;
        }
        let ghost m0 = self.buildings@;
        let mut building = self.buildings.remove(&cell_index).unwrap();
        let ghost b0 = building;
        let ghost extra0 = b0.mine_extra@;
        proof {
            let w = self.sim_world.unwrap();
            let nbs = self.sim_neighbors.unwrap()@;
            assert(b0 == m0[cell_index]);
            assert(to_add@.contains(to_add@[0]));
            assert forall|x: u32| #[trigger] to_add@.contains(x) implies !extra0.contains(x) by {
                assert(spec_expandable(w.cells@, nbs, spec_mine_targets(cell_index, b0), w.cells@[cell_index as int], x));
                if extra0.contains(x) {
                    let k = choose|k: int| 0 <= k < extra0.len() && extra0[k] == x;
                    assert(spec_mine_targets(cell_index, b0)[k + 1] == x);
                }
            }
        }
        let mut i: usize = 0;
        while i < to_add.len()
            invariant
                i <= to_add.len(),
                same_except_mine_extra(building, b0),
                building.mine_extra@ =~= extra0 + to_add@.take(i as int),
                strictly_increasing(to_add@),
                forall|x: u32| #[trigger] to_add@.contains(x) ==> !extra0.contains(x),
            decreases to_add.len() - i,
        {
            let n = to_add[i];
            proof {
                assert(to_add@.contains(n));
                assert forall|k: int| 0 <= k < building.mine_extra@.len() implies building.mine_extra@[k] != n by {
                    if k >= extra0.len() {
                        assert(to_add@[k - extra0.len()] < to_add@[i as int]);
                    }
                }
            }
            if !contains_u32(&building.mine_extra, n) {
                building.mine_extra.push(n);
            }
            i = i + 1;
        }
        assert(to_add@.take(i as int) =~= to_add@);
        self.buildings.insert(cell_index, building);
        self.buildings_dirty = true;
        proof {
            assert(old(self).spec_expansion_ok(cell_index, to_add@));
            assert(self.buildings@ =~= m0.insert(cell_index, building));
        }
        true
    }

    /// Starts editing the interior of the base on the cell; false when the
    /// cell holds no base.
    pub fn begin_base_interior_edit(&mut self, cell_index: u32) -> (started: bool)
        ensures
            started == (old(self).buildings@.contains_key(cell_index)
                && old(self).buildings@[cell_index].kind == PlanetBuildingKind::Base),
            final(self).editing_base_cell == (if started { Some(cell_index) } else { old(self).editing_base_cell }),
            final(self).buildings@ == old(self).buildings@,
            final(self).buildings_dirty == old(self).buildings_dirty,
            final(self).interior_pick_mode == old(self).interior_pick_mode,
            final(self).sim_world == old(self).sim_world,
            final(self).sim_neighbors == old(self).sim_neighbors,
            final(self).builder_unit_log == old(self).builder_unit_log,
            final(self).units@ == old(self).units@,
            final(self).units_dirty == old(self).units_dirty,
            final(self).mine_progress@ == old(self).mine_progress@,
    {
        match self.buildings.get(&cell_index) {
            None => false,
            Some(building) => {
                if building.kind != PlanetBuildingKind::Base {
                    return false;
                }
                self.editing_base_cell = Some(cell_index);
                true
            },
        }
    }

    /// Stops editing any base interior and drops any pending pick.
    pub fn clear_base_interior_edit(&mut self)
        ensures
            final(self).editing_base_cell is None,
            final(self).interior_pick_mode is None,
            final(self).buildings@ == old(self).buildings@,
            final(self).buildings_dirty == old(self).buildings_dirty,
            final(self).sim_world == old(self).sim_world,
            final(self).sim_neighbors == old(self).sim_neighbors,
            final(self).builder_unit_log == old(self).builder_unit_log,
            final(self).units@ == old(self).units@,
            final(self).units_dirty == old(self).units_dirty,
            final(self).mine_progress@ == old(self).mine_progress@,
    {
        self.editing_base_cell = None;
        self.interior_pick_mode = None;
    }

    /// The cell of the base whose interior is being edited.
    pub fn active_base_cell(&self) -> (cell: Option<u32>)
        ensures
            cell == self.editing_base_cell,
    {
        self.editing_base_cell
    }

    /// What the interior editor waits for the player to pick.
    pub fn interior_pick_mode(&self) -> (mode: Option<InteriorPickMode>)
        ensures
            mode == self.interior_pick_mode,
    {
        self.interior_pick_mode
    }

    /// Waits for the player to pick the outputs of the arm on `arm_hex`.
    pub fn begin_arm_output_pick(&mut self, arm_hex: Axial)
        ensures
            final(self).interior_pick_mode == Some(InteriorPickMode::ArmOutputs(arm_hex)),
            final(self).editing_base_cell == old(self).editing_base_cell,
            final(self).buildings@ == old(self).buildings@,
            final(self).buildings_dirty == old(self).buildings_dirty,
            final(self).sim_world == old(self).sim_world,
            final(self).sim_neighbors == old(self).sim_neighbors,
            final(self).builder_unit_log == old(self).builder_unit_log,
            final(self).units@ == old(self).units@,
            final(self).units_dirty == old(self).units_dirty,
            final(self).mine_progress@ == old(self).mine_progress@,
    {
        self.interior_pick_mode = Some(InteriorPickMode::ArmOutputs(arm_hex));
    }

    /// Waits for the player to pick the inputs of the arm on `arm_hex`.
    pub fn begin_arm_input_pick(&mut self, arm_hex: Axial)
        ensures
            final(self).interior_pick_mode == Some(InteriorPickMode::ArmInputs(arm_hex)),
            final(self).editing_base_cell == old(self).editing_base_cell,
            final(self).buildings@ == old(self).buildings@,
            final(self).buildings_dirty == old(self).buildings_dirty,
            final(self).sim_world == old(self).sim_world,
            final(self).sim_neighbors == old(self).sim_neighbors,
            final(self).builder_unit_log == old(self).builder_unit_log,
            final(self).units@ == old(self).units@,
            final(self).units_dirty == old(self).units_dirty,
            final(self).mine_progress@ == old(self).mine_progress@,
    {
        self.interior_pick_mode = Some(InteriorPickMode::ArmInputs(arm_hex));
    }

    /// Drops any pending interior pick.
    pub fn clear_interior_pick_mode(&mut self)
        ensures
            final(self).interior_pick_mode is None,
            final(self).editing_base_cell == old(self).editing_base_cell,
            final(self).buildings@ == old(self).buildings@,
            final(self).buildings_dirty == old(self).buildings_dirty,
            final(self).sim_world == old(self).sim_world,
            final(self).sim_neighbors == old(self).sim_neighbors,
            final(self).builder_unit_log == old(self).builder_unit_log,
            final(self).units@ == old(self).units@,
            final(self).units_dirty == old(self).units_dirty,
            final(self).mine_progress@ == old(self).mine_progress@,
    {
        self.interior_pick_mode = None;
    }

    /// Replaces all buildings with the ones the saved records describe; a
    /// later record for the same cell replaces an earlier one.
    #[verifier::spinoff_prover]
    pub fn apply_buildings_snapshot(&mut self, records: &Vec<PlanetBuildingRecord>)
        ensures
            spec_loaded_buildings(records@, final(self).buildings@),
            !final(self).buildings_dirty,
            final(self).sim_world == old(self).sim_world,
            final(self).sim_neighbors == old(self).sim_neighbors,
            final(self).editing_base_cell == old(self).editing_base_cell,
            final(self).interior_pick_mode == old(self).interior_pick_mode,
            final(self).builder_unit_log == old(self).builder_unit_log,
            final(self).units@ == old(self).units@,
            final(self).units_dirty == old(self).units_dirty,
            final(self).mine_progress@ == old(self).mine_progress@,
    {
        self.buildings.clear();
        let mut i: usize = 0;
        while i < records.len()
            invariant
                i <= records.len(),
                spec_loaded_buildings(records@.take(i as int), self.buildings@),
                self.sim_world == old(self).sim_world,
                self.sim_neighbors == old(self).sim_neighbors,
                self.editing_base_cell == old(self).editing_base_cell,
                self.interior_pick_mode == old(self).interior_pick_mode,
                self.builder_unit_log == old(self).builder_unit_log,
                self.units@ == old(self).units@,
                self.units_dirty == old(self).units_dirty,
                self.mine_progress@ == old(self).mine_progress@,
            decreases records.len() - i,
        {
            let building = building_from_record(&records[i]);
            let cell = records[i].cell_index;
            let ghost m0 = self.buildings@;
            self.buildings.insert(cell, building);
            proof {
                let recs = records@.take(i + 1);
                let prev = records@.take(i as int);
                assert forall|c: u32| #[trigger] self.buildings@.contains_key(c) <==> exists|j: int|
                    0 <= j < recs.len() && recs[j].cell_index == c by {
                    if c == cell {
                        assert(recs[i as int].cell_index == c);
                    } else if m0.contains_key(c) {
                        let j = choose|j: int| 0 <= j < prev.len() && prev[j].cell_index == c;
                        assert(recs[j].cell_index == c);
                    } else if exists|j: int| 0 <= j < recs.len() && recs[j].cell_index == c {
                        let j = choose|j: int| 0 <= j < recs.len() && recs[j].cell_index == c;
                        assert(prev[j].cell_index == c);
                    }
                }
                assert forall|c: u32| #[trigger] self.buildings@.contains_key(c) implies exists|j: int|
                    spec_last_record_for(recs, c, j) && spec_building_from_record(recs[j], self.buildings@[c]) by {
                    if c == cell {
                        assert(spec_last_record_for(recs, c, i as int));
                    } else {
                        let j = choose|j: int|
                            spec_last_record_for(prev, c, j) && spec_building_from_record(prev[j], m0[c]);
                        assert(spec_last_record_for(recs, c, j));
                    }
                }
            }
            i = i + 1;
        }
        assert(records@.take(i as int) =~= records@);
        self.buildings_dirty = false;
    }

    /// The saved form of all buildings, one record per building.
    #[verifier::spinoff_prover]
    pub fn buildings_snapshot(&self) -> (recs: Vec<PlanetBuildingRecord>)
        ensures
            spec_saved_buildings(self.buildings@, recs@),
    {
        let mut out: Vec<PlanetBuildingRecord> = Vec::new();
        let ghost m = self.buildings@;
        let iter0 = self.buildings.iter();
        let ghost v = iter0.remaining();
        assert(v.no_duplicates());
        assert(v == spec_hash_map_iter(&self.buildings).remaining());
        for entry in it: iter0
            invariant
                m == self.buildings@,
                out@.len() == it.index(),
                it.seq() == v,
                v == spec_hash_map_iter(&self.buildings).remaining(),
                forall|i: int| 0 <= i < it.index() ==> (#[trigger] out@[i]).cell_index == *it.seq()[i].0
                    && spec_record_from_building(out@[i].cell_index, m[out@[i].cell_index], out@[i]),
        {
            let (cell, building) = entry;
            proof {
                let idx = it.index();
                assert(m.contains_key(*v[idx].0));
            }
            out.push(record_from_building(*cell, building));
        }
        proof {
            let recs = out@;
            assert(recs.len() == v.len());
            assert forall|i: int, j: int| 0 <= i < j < recs.len() implies #[trigger] recs[i].cell_index
                != #[trigger] recs[j].cell_index by {
                if recs[i].cell_index == recs[j].cell_index {
                    assert(m.contains_key(*v[i].0) && m[*v[i].0] == *v[i].1);
                    assert(m.contains_key(*v[j].0) && m[*v[j].0] == *v[j].1);
                    assert(v[i] == v[j]);
                }
            }
            assert forall|c: u32| #[trigger] m.contains_key(c) implies exists|i: int|
                0 <= i < recs.len() && recs[i].cell_index == c by {
                assert(v.contains((&c, &m[c])));
                let i = choose|i: int| 0 <= i < v.len() && v[i] == (&c, &m[c]);
                assert(recs[i].cell_index == c);
            }
        }
        out
    }

    /// Appends a line to the builder-unit log unless it repeats the last
    /// line, keeping only the newest 48 lines.
    pub fn push_builder_unit_log(&mut self, entry: String)
        ensures
            final(self).builder_unit_log@ == spec_push_log_line(old(self).builder_unit_log@, entry, 48, true),
            final(self).units@ == old(self).units@,
            final(self).units_dirty == old(self).units_dirty,
            final(self).mine_progress@ == old(self).mine_progress@,
            final(self).buildings@ == old(self).buildings@,
            final(self).buildings_dirty == old(self).buildings_dirty,
            final(self).editing_base_cell == old(self).editing_base_cell,
            final(self).interior_pick_mode == old(self).interior_pick_mode,
            final(self).sim_world == old(self).sim_world,
            final(self).sim_neighbors == old(self).sim_neighbors,
    {
        let n = self.builder_unit_log.len();
        if n > 0 && self.builder_unit_log[n - 1] == entry {
            return;
        }
        push_bounded(&mut self.builder_unit_log, entry, 48);
    }

    /// Marks the buildings as changed since the last save.
    pub fn mark_buildings_dirty(&mut self)
        ensures
            final(self).buildings_dirty,
            final(self).buildings@ == old(self).buildings@,
            final(self).editing_base_cell == old(self).editing_base_cell,
            final(self).interior_pick_mode == old(self).interior_pick_mode,
            final(self).sim_world == old(self).sim_world,
            final(self).sim_neighbors == old(self).sim_neighbors,
            final(self).builder_unit_log == old(self).builder_unit_log,
            final(self).units@ == old(self).units@,
            final(self).units_dirty == old(self).units_dirty,
            final(self).mine_progress@ == old(self).mine_progress@,
    {
        self.buildings_dirty = true;
    }
}


/// One stored resource of a saved building.
#[derive(Clone, Copy, Debug, PartialEq, Eq, Structural)]
pub struct PlanetBuildingStorageRecord {
    pub resource_id: u8,
    pub amount: u32,
}

/// A building as saved to disk. Times are in milliseconds; a build time of
/// zero means "the default for the kind".
#[derive(Clone, Debug)]
pub struct PlanetBuildingRecord {
    pub cell_index: u32,
    pub kind: PlanetBuildingKind,
    pub mine_extra: Vec<u32>,
    pub storage: Vec<PlanetBuildingStorageRecord>,
    pub build_progress: u32,
    pub build_time: u32,
    pub build_paid: bool,
    pub build_claimed: bool,
    pub builder_units_desired: i32,
    pub builder_units_created: i32,
    pub auto_units_enabled: bool,
    pub auto_pick_source: bool,
    pub auto_pick_build: bool,
    pub auto_pick_refuel: bool,
}

/// An empty storage.
pub open spec fn empty_storage() -> Seq<u32> {
    seq![0u32, 0, 0, 0, 0, 0, 0, 0, 0, 0, 0]
}

/// The storage described by saved entries: entries with an unknown id or a
/// zero amount are ignored, and a later entry for the same resource
/// replaces an earlier one.
pub open spec fn storage_from_entries(entries: Seq<PlanetBuildingStorageRecord>) -> Seq<u32>
    decreases entries.len(),
{
    if entries.len() == 0 {
        empty_storage()
    } else {
        let prev = storage_from_entries(entries.drop_last());
        let e = entries.last();
        if (e.resource_id as int) < RESOURCE_KIND_COUNT && e.amount > 0 {
            prev.update(e.resource_id as int, e.amount)
        } else {
            prev
        }
    }
}

/// The saved entries of a storage from resource id `id` on: one entry per
/// resource with a non-zero amount, in increasing id order.
pub open spec fn entries_from_storage(st: Seq<u32>, id: int) -> Seq<PlanetBuildingStorageRecord>
    decreases RESOURCE_KIND_COUNT - id,
{
    if id < 0 || id >= RESOURCE_KIND_COUNT {
        seq![]
    } else if st[id] > 0 {
        seq![PlanetBuildingStorageRecord { resource_id: id as u8, amount: st[id] }] + entries_from_storage(st, id + 1)
    } else {
        entries_from_storage(st, id + 1)
    }
}

/// The build time a loaded building gets: the saved one, or the kind's
/// default when none was saved.
pub open spec fn loaded_build_time(r: PlanetBuildingRecord) -> int {
    if r.build_time == 0 { spec_build_time(r.kind) } else { r.build_time as int }
}

/// The building a saved record loads as: saved progress is capped at the
/// build time once the building is paid for.
pub open spec fn spec_building_from_record(r: PlanetBuildingRecord, b: PlanetBuildingState) -> bool {
    &&& b.kind == r.kind
    &&& b.mine_extra@ == r.mine_extra@
    &&& b.storage@ == storage_from_entries(r.storage@)
    &&& b.build_time == loaded_build_time(r)
    &&& b.build_progress == (if r.build_paid && r.build_progress > loaded_build_time(r) {
        loaded_build_time(r)
    } else {
        r.build_progress as int
    })
    &&& b.build_paid == r.build_paid
    &&& b.build_claimed == r.build_claimed
    &&& b.builder_units_desired == r.builder_units_desired
    &&& b.builder_units_created == r.builder_units_created
    &&& b.auto_units_enabled == r.auto_units_enabled
    &&& b.auto_pick_source == r.auto_pick_source
    &&& b.auto_pick_build == r.auto_pick_build
    &&& b.auto_pick_refuel == r.auto_pick_refuel
    &&& (b.interior is Some) == (r.kind == PlanetBuildingKind::Base)
}

/// The record a building on cell `c` saves as: only resources with a
/// non-zero amount are written.
pub open spec fn spec_record_from_building(c: u32, b: PlanetBuildingState, r: PlanetBuildingRecord) -> bool {
    &&& r.cell_index == c
    &&& r.kind == b.kind
    &&& r.mine_extra@ == b.mine_extra@
    &&& r.storage@ == entries_from_storage(b.storage@, 0)
    &&& r.build_progress == b.build_progress
    &&& r.build_time == b.build_time
    &&& r.build_paid == b.build_paid
    &&& r.build_claimed == b.build_claimed
    &&& r.builder_units_desired == b.builder_units_desired
    &&& r.builder_units_created == b.builder_units_created
    &&& r.auto_units_enabled == b.auto_units_enabled
    &&& r.auto_pick_source == b.auto_pick_source
    &&& r.auto_pick_build == b.auto_pick_build
    &&& r.auto_pick_refuel == b.auto_pick_refuel
}

/// Two buildings hold the same values.
pub open spec fn same_building(a: PlanetBuildingState, b: PlanetBuildingState) -> bool {
    same_except_mine_extra(a, b) && a.mine_extra@ == b.mine_extra@
}

/// Copies a list of cell numbers.
fn copy_cells(v: &Vec<u32>) -> (out: Vec<u32>)
    ensures
        out@ == v@,
{
    let mut out: Vec<u32> = Vec::new();
    let mut i: usize = 0;
    while i < v.len()
        invariant
            i <= v.len(),
            out@ =~= v@.take(i as int),
        decreases v.len() - i,
    {
        out.push(v[i]);
        i = i + 1;
    }
    assert(v@.take(i as int) =~= v@);
    out
}

/// The storage described by saved entries.
pub fn storage_from_records(entries: &Vec<PlanetBuildingStorageRecord>) -> (st: ResourceStorage)
    ensures
        st@ == storage_from_entries(entries@),
{
    let mut st: ResourceStorage = [0u32; 11];
    assert(st@ =~= storage_from_entries(entries@.take(0)));
    let mut i: usize = 0;
    while i < entries.len()
        invariant
            i <= entries.len(),
            st@ =~= storage_from_entries(entries@.take(i as int)),
        decreases entries.len() - i,
    {
        let e = entries[i];
        assert(entries@.take(i + 1).drop_last() =~= entries@.take(i as int));
        let valid = resource_kind_from_id(e.resource_id);
        if valid.is_some() && e.amount > 0 {
            st[e.resource_id as usize] = e.amount;
        }
        i = i + 1;
    }
    assert(entries@.take(i as int) =~= entries@);
    st
}

/// The saved entries of a storage: one per resource with a non-zero amount,
/// in increasing id order.
pub fn records_from_storage(st: &ResourceStorage) -> (entries: Vec<PlanetBuildingStorageRecord>)
    ensures
        entries@ == entries_from_storage(st@, 0),
{
    let mut entries: Vec<PlanetBuildingStorageRecord> = Vec::new();
    let mut id: usize = RESOURCE_KIND_COUNT;
    while id > 0
        invariant
            id <= RESOURCE_KIND_COUNT,
            st@.len() == RESOURCE_KIND_COUNT,
            entries@ == entries_from_storage(st@, id as int),
        decreases id,
    {
        id = id - 1;
        if st[id] > 0 {
            entries.insert(0, PlanetBuildingStorageRecord { resource_id: id as u8, amount: st[id] });
        }
    }
    entries
}

/// The building a saved record loads as.
pub fn building_from_record(record: &PlanetBuildingRecord) -> (b: PlanetBuildingState)
    ensures
        spec_building_from_record(*record, b),
{
    let storage = storage_from_records(&record.storage);
    let build_time = if record.build_time == 0 {
        planet_build_time(record.kind)
    } else {
        record.build_time
    };
    let build_progress = if record.build_paid && record.build_progress > build_time {
        build_time
    } else {
        record.build_progress
    };
    PlanetBuildingState {
        kind: record.kind,
        mine_extra: copy_cells(&record.mine_extra),
        storage,
        build_progress,
        build_time,
        build_paid: record.build_paid,
        build_claimed: record.build_claimed,
        builder_units_desired: record.builder_units_desired,
        builder_units_created: record.builder_units_created,
        auto_units_enabled: record.auto_units_enabled,
        auto_pick_source: record.auto_pick_source,
        auto_pick_build: record.auto_pick_build,
        auto_pick_refuel: record.auto_pick_refuel,
        interior: if record.kind == PlanetBuildingKind::Base { Some(BaseInterior {}) } else { None },
    }
}

/// The record a building on a cell saves as.
pub fn record_from_building(cell_index: u32, building: &PlanetBuildingState) -> (r: PlanetBuildingRecord)
    ensures
        spec_record_from_building(cell_index, *building, r),
{
    PlanetBuildingRecord {
        cell_index,
        kind: building.kind,
        mine_extra: copy_cells(&building.mine_extra),
        storage: records_from_storage(&building.storage),
        build_progress: building.build_progress,
        build_time: building.build_time,
        build_paid: building.build_paid,
        build_claimed: building.build_claimed,
        builder_units_desired: building.builder_units_desired,
        builder_units_created: building.builder_units_created,
        auto_units_enabled: building.auto_units_enabled,
        auto_pick_source: building.auto_pick_source,
        auto_pick_build: building.auto_pick_build,
        auto_pick_refuel: building.auto_pick_refuel,
    }
}


/// Record `j` is the last one saved for cell `c`.
pub open spec fn spec_last_record_for(recs: Seq<PlanetBuildingRecord>, c: u32, j: int) -> bool {
    &&& 0 <= j < recs.len()
    &&& recs[j].cell_index == c
    &&& forall|j2: int| j < j2 < recs.len() ==> #[trigger] recs[j2].cell_index != c
}

/// The buildings loaded from saved records: one per saved cell, loaded from
/// the last record for that cell.
pub open spec fn spec_loaded_buildings(recs: Seq<PlanetBuildingRecord>, m: Map<u32, PlanetBuildingState>) -> bool {
    &&& forall|c: u32| #[trigger] m.contains_key(c) <==> exists|j: int| 0 <= j < recs.len() && recs[j].cell_index == c
    &&& forall|c: u32| #[trigger] m.contains_key(c) ==> exists|j: int|
        spec_last_record_for(recs, c, j) && spec_building_from_record(recs[j], m[c])
}

/// The records saved for a set of buildings: one per building, no cell twice.
pub open spec fn spec_saved_buildings(m: Map<u32, PlanetBuildingState>, recs: Seq<PlanetBuildingRecord>) -> bool {
    &&& forall|i: int, j: int| 0 <= i < j < recs.len() ==> #[trigger] recs[i].cell_index != #[trigger] recs[j].cell_index
    &&& forall|i: int| 0 <= i < recs.len() ==> m.contains_key(#[trigger] recs[i].cell_index)
        && spec_record_from_building(recs[i].cell_index, m[recs[i].cell_index], recs[i])
    &&& forall|c: u32| #[trigger] m.contains_key(c) ==> exists|i: int| 0 <= i < recs.len() && recs[i].cell_index == c
}

/// A building whose saved form loads back unchanged: a zero build time is
/// the kind's default, a paid building's progress does not pass its build
/// time, and it has an interior exactly when it is a base.
pub open spec fn round_trips(b: PlanetBuildingState) -> bool {
    &&& b.build_time == 0 ==> spec_build_time(b.kind) == 0
    &&& b.build_paid ==> b.build_progress <= b.build_time
    &&& (b.interior is Some) == (b.kind == PlanetBuildingKind::Base)
}

/// Applies saved entries to a storage, first entry first.
pub open spec fn apply_entries(base: Seq<u32>, entries: Seq<PlanetBuildingStorageRecord>) -> Seq<u32>
    decreases entries.len(),
{
    if entries.len() == 0 {
        base
    } else {
        let e = entries[0];
        let next = if (e.resource_id as int) < RESOURCE_KIND_COUNT && e.amount > 0 {
            base.update(e.resource_id as int, e.amount)
        } else {
            base
        };
        apply_entries(next, entries.drop_first())
    }
}

proof fn lemma_apply_entries_len(base: Seq<u32>, entries: Seq<PlanetBuildingStorageRecord>)
    requires
        base.len() == RESOURCE_KIND_COUNT,
    ensures
        apply_entries(base, entries).len() == RESOURCE_KIND_COUNT,
    decreases entries.len(),
{
    if entries.len() > 0 {
        let f = entries[0];
        let next = if (f.resource_id as int) < RESOURCE_KIND_COUNT && f.amount > 0 {
            base.update(f.resource_id as int, f.amount)
        } else {
            base
        };
        lemma_apply_entries_len(next, entries.drop_first());
    }
}

proof fn lemma_apply_entries_push(base: Seq<u32>, entries: Seq<PlanetBuildingStorageRecord>, e: PlanetBuildingStorageRecord)
    requires
        base.len() == RESOURCE_KIND_COUNT,
    ensures
        apply_entries(base, entries.push(e)) == (if (e.resource_id as int) < RESOURCE_KIND_COUNT && e.amount > 0 {
            apply_entries(base, entries).update(e.resource_id as int, e.amount)
        } else {
            apply_entries(base, entries)
        }),
    decreases entries.len(),
{
    if entries.len() > 0 {
        let f = entries[0];
        let next = if (f.resource_id as int) < RESOURCE_KIND_COUNT && f.amount > 0 {
            base.update(f.resource_id as int, f.amount)
        } else {
            base
        };
        assert(entries.push(e)[0] == f);
        assert(entries.push(e).drop_first() =~= entries.drop_first().push(e));
        lemma_apply_entries_push(next, entries.drop_first(), e);
        lemma_apply_entries_len(next, entries.drop_first());
    } else {
        assert(entries.push(e)[0] == e);
        assert(entries.push(e).drop_first() =~= entries);
        let next = if (e.resource_id as int) < RESOURCE_KIND_COUNT && e.amount > 0 {
            base.update(e.resource_id as int, e.amount)
        } else {
            base
        };
        assert(apply_entries(base, entries.push(e)) == apply_entries(next, entries));
    }
}

proof fn lemma_storage_from_entries_front(entries: Seq<PlanetBuildingStorageRecord>)
    ensures
        storage_from_entries(entries) == apply_entries(empty_storage(), entries),
    decreases entries.len(),
{
    if entries.len() > 0 {
        lemma_storage_from_entries_front(entries.drop_last());
        lemma_apply_entries_push(empty_storage(), entries.drop_last(), entries.last());
        assert(entries.drop_last().push(entries.last()) =~= entries);
    }
}

proof fn lemma_apply_saved_entries(st: Seq<u32>, base: Seq<u32>, id: int)
    requires
        st.len() == RESOURCE_KIND_COUNT,
        base.len() == RESOURCE_KIND_COUNT,
        0 <= id <= RESOURCE_KIND_COUNT,
        forall|k: int| 0 <= k < id ==> base[k] == st[k],
        forall|k: int| id <= k < RESOURCE_KIND_COUNT ==> base[k] == 0,
    ensures
        apply_entries(base, entries_from_storage(st, id)) == st,
    decreases RESOURCE_KIND_COUNT - id,
{
    if id == RESOURCE_KIND_COUNT {
        assert(base =~= st);
    } else if st[id] > 0 {
        let e = PlanetBuildingStorageRecord { resource_id: id as u8, amount: st[id] };
        let entries = seq![e] + entries_from_storage(st, id + 1);
        assert(entries[0] == e);
        assert(entries.drop_first() =~= entries_from_storage(st, id + 1));
        lemma_apply_saved_entries(st, base.update(id, st[id]), id + 1);
    } else {
        lemma_apply_saved_entries(st, base, id + 1);
    }
}

/// Saving a storage and loading it back gives the same storage.
pub proof fn lemma_storage_round_trip(st: ResourceStorage)
    ensures
        storage_from_entries(entries_from_storage(st@, 0)) == st@,
{
    lemma_storage_from_entries_front(entries_from_storage(st@, 0));
    lemma_apply_saved_entries(st@, empty_storage(), 0);
}

/// Saving a building and loading the record back gives the same building,
/// for every building whose build time, progress and interior are in
/// normal form.
pub proof fn lemma_building_round_trip(c: u32, b: PlanetBuildingState, r: PlanetBuildingRecord, b2: PlanetBuildingState)
    requires
        round_trips(b),
        spec_record_from_building(c, b, r),
        spec_building_from_record(r, b2),
    ensures
        same_building(b2, b),
{
    lemma_storage_round_trip(b.storage);
    assert(b2.storage@ =~= b.storage@);
    assert(b2.storage == b.storage);
    if b.interior is Some {
        let (x, y) = (b2.interior.unwrap(), b.interior.unwrap());
        assert(x == y);
    }
}

/// Saving all buildings and loading the records back gives the same
/// buildings on the same cells, whenever every building is in normal form.
pub proof fn lemma_snapshot_round_trip(
    m: Map<u32, PlanetBuildingState>,
    recs: Seq<PlanetBuildingRecord>,
    m2: Map<u32, PlanetBuildingState>,
)
    requires
        forall|c: u32| #[trigger] m.contains_key(c) ==> round_trips(m[c]),
        spec_saved_buildings(m, recs),
        spec_loaded_buildings(recs, m2),
    ensures
        m2.dom() == m.dom(),
        forall|c: u32| #[trigger] m.contains_key(c) ==> same_building(m2[c], m[c]),
{
    assert forall|c: u32| m2.contains_key(c) <==> m.contains_key(c) by {
        if m2.contains_key(c) {
            let j = choose|j: int| 0 <= j < recs.len() && recs[j].cell_index == c;
            assert(m.contains_key(recs[j].cell_index));
        }
        if m.contains_key(c) {
            let i = choose|i: int| 0 <= i < recs.len() && recs[i].cell_index == c;
            assert(m2.contains_key(c));
        }
    }
    assert(m2.dom() =~= m.dom());
    assert forall|c: u32| #[trigger] m.contains_key(c) implies same_building(m2[c], m[c]) by {
        assert(m2.contains_key(c));
        let j = choose|j: int| spec_last_record_for(recs, c, j) && spec_building_from_record(recs[j], m2[c]);
        assert(m.contains_key(recs[j].cell_index));
        lemma_building_round_trip(c, m[c], recs[j], m2[c]);
    }
}


/// The log after adding a line: when `skip_repeat` holds and the line equals
/// the last one nothing changes; otherwise the line is appended and only the
/// newest `max` lines are kept.
pub open spec fn spec_push_log_line(log: Seq<String>, line: String, max: nat, skip_repeat: bool) -> Seq<String> {
    if skip_repeat && log.len() > 0 && log.last()@ == line@ {
        log
    } else {
        let p = log.push(line);
        if p.len() > max { p.skip(p.len() - max) } else { p }
    }
}

fn push_bounded(log: &mut Vec<String>, line: String, max: usize)
    requires
        max > 0,
    ensures
        final(log)@ == ({
            let p = old(log)@.push(line);
            if p.len() > max { p.skip(p.len() - max) } else { p }
        }),
{
    let ghost p = log@.push(line);
    log.push(line);
    let ghost mut dropped: int = 0;
    while log.len() > max
        invariant
            max > 0,
            0 <= dropped <= p.len(),
            log@ =~= p.skip(dropped),
            dropped > 0 ==> log@.len() >= max,
        decreases log.len(),
    {
        log.remove(0);
        proof {
            dropped = dropped + 1;
        }
    }
    assert(p.len() > max ==> dropped == p.len() - max);
    assert(p.len() <= max ==> dropped == 0);
}

/// Appends a line to a loading log, keeping only the newest 12 lines.
pub fn push_log(log_entries: &mut Vec<String>, line: String)
    ensures
        final(log_entries)@ == spec_push_log_line(old(log_entries)@, line, 12, false),
{
    push_bounded(log_entries, line, 12);
}

/// The number of the base face (1 to 20, or 0 when there are no faces) and
/// the number of the sub-face within it, for a face of a subdivided icosahedron.
pub open spec fn spec_face_group_info(face_index: int, total_faces: int) -> (int, int) {
    if total_faces == 0 {
        (0, 0)
    } else {
        let base_face_count = if total_faces < 20 { total_faces } else { 20 };
        let per_base = if total_faces / base_face_count > 1 { total_faces / base_face_count } else { 1 };
        let raw = face_index / per_base;
        let base_index = (if raw < base_face_count - 1 { raw } else { base_face_count - 1 }) + 1;
        (base_index, face_index % per_base)
    }
}

/// The base-face number and sub-face number of a face.
pub fn face_group_info(face_index: usize, total_faces: usize) -> (info: (usize, usize))
    ensures
        info.0 == spec_face_group_info(face_index as int, total_faces as int).0,
        info.1 == spec_face_group_info(face_index as int, total_faces as int).1,
        total_faces > 0 ==> 1 <= info.0 <= 20,
{
    if total_faces == 0 {
        return (0, 0);
    }
    let base_face_count = if total_faces < 20 { total_faces } else { 20 };
    let q = total_faces / base_face_count;
    let subfaces_per_base = if q > 1 { q } else { 1 };
    let raw = face_index / subfaces_per_base;
    let cap = base_face_count - 1;
    let base_index = (if raw < cap { raw } else { cap }) + 1;
    let subface_number = face_index % subfaces_per_base;
    (base_index, subface_number)
}

/// The Greek letter that names base face `i`; faces past the alphabet are Omega.
pub open spec fn spec_greek_letter(i: int) -> char {
    if i == 0 {
        '\u{3b1}'
    } else if i == 1 {
        '\u{3b2}'
    } else if i == 2 {
        '\u{3b3}'
    } else if i == 3 {
        '\u{3b4}'
    } else if i == 4 {
        '\u{3b5}'
    } else if i == 5 {
        '\u{3b6}'
    } else if i == 6 {
        '\u{3b7}'
    } else if i == 7 {
        '\u{3b8}'
    } else if i == 8 {
        '\u{3b9}'
    } else if i == 9 {
        '\u{3ba}'
    } else if i == 10 {
        '\u{3bb}'
    } else if i == 11 {
        '\u{3bc}'
    } else if i == 12 {
        '\u{3bd}'
    } else if i == 13 {
        '\u{3be}'
    } else if i == 14 {
        '\u{3bf}'
    } else if i == 15 {
        '\u{3c0}'
    } else if i == 16 {
        '\u{3c2}'
    } else if i == 17 {
        '\u{3c3}'
    } else if i == 18 {
        '\u{3c4}'
    } else if i == 19 {
        '\u{3c5}'
    } else if i == 20 {
        '\u{3c6}'
    } else if i == 21 {
        '\u{3c8}'
    } else {
        '\u{3a9}'
    }
}

/// The Greek letter that names a base face; faces past the alphabet are Omega.
pub fn greek_face_letter(face_index: usize) -> (c: char)
    ensures
        c == spec_greek_letter(face_index as int),
{
    match face_index {
        0 => '\u{3b1}',
        1 => '\u{3b2}',
        2 => '\u{3b3}',
        3 => '\u{3b4}',
        4 => '\u{3b5}',
        5 => '\u{3b6}',
        6 => '\u{3b7}',
        7 => '\u{3b8}',
        8 => '\u{3b9}',
        9 => '\u{3ba}',
        10 => '\u{3bb}',
        11 => '\u{3bc}',
        12 => '\u{3bd}',
        13 => '\u{3be}',
        14 => '\u{3bf}',
        15 => '\u{3c0}',
        16 => '\u{3c2}',
        17 => '\u{3c3}',
        18 => '\u{3c4}',
        19 => '\u{3c5}',
        20 => '\u{3c6}',
        21 => '\u{3c8}',
        _ => '\u{3a9}',
    }
}


/// Name of a face: its base face's Greek letter, followed, when asked for,
/// by the sub-face number as two-digit lower-case hexadecimal.
pub open spec fn spec_face_name(face_index: int, total_faces: int, include_subface: bool) -> Seq<char> {
    let info = spec_face_group_info(face_index, total_faces);
    seq![spec_greek_letter(info.0)] + (if include_subface {
        hex_padded2(info.1 as nat)
    } else {
        Seq::<char>::empty()
    })
}

/// Name of a face, with or without its sub-face number.
pub fn face_name(face_index: usize, total_faces: usize, include_subface: bool) -> (name: String)
    ensures
        name@ == spec_face_name(face_index as int, total_faces as int, include_subface),
{
    let (base_index, subface_number) = face_group_info(face_index, total_faces);
    let letter = greek_face_letter(base_index);
    let mut name = String::new();
    string_push(&mut name, letter);
    if include_subface {
        push_hex_padded2(&mut name, subface_number as u64);
    }
    assert(name@ =~= spec_face_name(face_index as int, total_faces as int, include_subface));
    name
}

/// One deposit as "Kind remaining/initial", with an optional grade suffix.
pub open spec fn deposit_text(d: PlanetDeposit, with_grade: bool) -> Seq<char> {
    spec_resource_label(d.kind) + " "@ + digits(d.remaining_amount as nat, 10) + "/"@ + digits(
        d.initial_amount as nat,
        10,
    ) + (if with_grade {
        " grade:"@ + digits(d.grade_permille as nat, 10)
    } else {
        Seq::<char>::empty()
    })
}

/// The deposits' texts joined with " | ".
pub open spec fn deposits_text(ds: Seq<PlanetDeposit>, with_grade: bool) -> Seq<char>
    decreases ds.len(),
{
    if ds.len() == 0 {
        Seq::<char>::empty()
    } else if ds.len() == 1 {
        deposit_text(ds[0], with_grade)
    } else {
        deposits_text(ds.drop_last(), with_grade) + " | "@ + deposit_text(ds.last(), with_grade)
    }
}

/// Summary of a cell's deposits, or "No deposits".
pub open spec fn spec_deposit_summary(cell: PlanetCellState, with_grade: bool) -> Seq<char> {
    if cell.deposits@.len() == 0 {
        "No deposits"@
    } else {
        deposits_text(cell.deposits@, with_grade)
    }
}

fn deposit_summary(cell: &PlanetCellState, with_grade: bool) -> (text: String)
    ensures
        text@ == spec_deposit_summary(*cell, with_grade),
{
    if cell.deposits.len() == 0 {
        return String::from_str("No deposits");
    }
    let mut text = String::new();
    let mut i: usize = 0;
    while i < cell.deposits.len()
        invariant
            i <= cell.deposits.len(),
            text@ == deposits_text(cell.deposits@.take(i as int), with_grade),
        decreases cell.deposits.len() - i,
    {
        let d = cell.deposits[i];
        assert(cell.deposits@.take(i + 1).drop_last() =~= cell.deposits@.take(i as int));
        assert(cell.deposits@.take(i + 1).last() == d);
        let ghost before = text@;
        if i > 0 {
            text.append(" | ");
        }
        text.append(resource_label(d.kind));
        text.append(" ");
        push_decimal(&mut text, d.remaining_amount as u64);
        text.append("/");
        push_decimal(&mut text, d.initial_amount as u64);
        if with_grade {
            text.append(" grade:");
            push_decimal(&mut text, d.grade_permille as u64);
        }
        if i == 0 {
            assert(cell.deposits@.take(1) =~= seq![d]);
            assert(text@ =~= deposits_text(cell.deposits@.take(i + 1), with_grade));
        } else {
            assert(text@ =~= before + " | "@ + deposit_text(d, with_grade));
        }
        i = i + 1;
    }
    assert(cell.deposits@.take(i as int) =~= cell.deposits@);
    text
}

/// Summary of a cell's deposits as "Kind remaining/initial" items joined
/// with " | ", or "No deposits".
pub fn cell_deposit_summary(cell: &PlanetCellState) -> (text: String)
    ensures
        text@ == spec_deposit_summary(*cell, false),
{
    deposit_summary(cell, false)
}

/// Like the cell summary, with each deposit's grade in permille added.
pub fn hover_deposit_summary(cell: &PlanetCellState) -> (text: String)
    ensures
        text@ == spec_deposit_summary(*cell, true),
{
    deposit_summary(cell, true)
}

} // verus!
