//! The sector map: resource tiles, block kinds, placed blocks and the block
//! map, loading and unloading units, and taking construction materials from
//! the finished blocks of the whole map.

use vstd::prelude::*;
use crate::hex::{Axial, between};
use crate::storage::{take_kind, ItemStack, ItemType, amount_of_kind, drain, fill, moved, kind_amount, lemma_drain_kind, lemma_drain_nothing_passes, lemma_wf_bounds, move_items, stacks_total, stacks_wf, storage_total};

verus! {

/// Resource found on a sector tile.
#[derive(Clone, Copy, Debug, PartialEq, Eq, Structural, Hash)]
pub enum TileType {
    Iron,
    Copper,
    Gold,
    Zinc,
    Lead,
    Water,
}

/// A resource tile and how much is left on it.
#[derive(Clone, Copy, Debug, PartialEq, Eq, Structural)]
pub struct TileData {
    pub kind: TileType,
    pub amount: i32,
}

/// Kind of block that can be built on the sector map.
#[derive(Clone, Copy, Debug, PartialEq, Eq, Structural, Hash)]
pub enum BuildBlockType {
    Base,
    Housing,
    Factory,
    Mine,
    Warehouse,
    Logistics,
    Route,
}

/// Display name of a block kind.
pub open spec fn spec_block_label(kind: BuildBlockType) -> Seq<char> {
    match kind {
        BuildBlockType::Base => "Base"@,
        BuildBlockType::Housing => "Housing"@,
        BuildBlockType::Factory => "Factory"@,
        BuildBlockType::Mine => "Mine"@,
        BuildBlockType::Warehouse => "Warehouse"@,
        BuildBlockType::Logistics => "Logistics"@,
        BuildBlockType::Route => "Route"@,
    }
}

/// Display name of a block kind.
pub fn block_label(kind: BuildBlockType) -> (label: &'static str)
    ensures
        label@ == spec_block_label(kind),
{
    match kind {
        BuildBlockType::Base => "Base",
        BuildBlockType::Housing => "Housing",
        BuildBlockType::Factory => "Factory",
        BuildBlockType::Mine => "Mine",
        BuildBlockType::Warehouse => "Warehouse",
        BuildBlockType::Logistics => "Logistics",
        BuildBlockType::Route => "Route",
    }
}

/// Display name of a tile resource.
pub open spec fn spec_tile_label(kind: TileType) -> Seq<char> {
    match kind {
        TileType::Iron => "Iron"@,
        TileType::Copper => "Copper"@,
        TileType::Gold => "Gold"@,
        TileType::Zinc => "Zinc"@,
        TileType::Lead => "Lead"@,
        TileType::Water => "Water"@,
    }
}

/// Display name of a tile resource.
pub fn tile_label(kind: TileType) -> (label: &'static str)
    ensures
        label@ == spec_tile_label(kind),
{
    match kind {
        TileType::Iron => "Iron",
        TileType::Copper => "Copper",
        TileType::Gold => "Gold",
        TileType::Zinc => "Zinc",
        TileType::Lead => "Lead",
        TileType::Water => "Water",
    }
}

/// The item a tile yields when mined.
pub open spec fn spec_item_from_tile(kind: TileType) -> ItemType {
    match kind {
        TileType::Iron => ItemType::Iron,
        TileType::Copper => ItemType::Copper,
        TileType::Gold => ItemType::Gold,
        TileType::Zinc => ItemType::Zinc,
        TileType::Lead => ItemType::Lead,
        TileType::Water => ItemType::Water,
    }
}

/// The item a tile yields when mined.
pub fn item_from_tile(kind: TileType) -> (item: ItemType)
    ensures
        item == spec_item_from_tile(kind),
{
    match kind {
        TileType::Iron => ItemType::Iron,
        TileType::Copper => ItemType::Copper,
        TileType::Gold => ItemType::Gold,
        TileType::Zinc => ItemType::Zinc,
        TileType::Lead => ItemType::Lead,
        TileType::Water => ItemType::Water,
    }
}

/// Mining yields the tile's own resource: the item bears the tile's name,
/// it is never gangue, and different tiles yield different items.
pub proof fn lemma_item_from_tile_is_the_tiles_resource(kind: TileType, other: TileType)
    ensures
        crate::storage::spec_item_label(spec_item_from_tile(kind)) == spec_tile_label(kind),
        spec_item_from_tile(kind) != ItemType::Gangue,
        spec_item_from_tile(kind) == spec_item_from_tile(other) ==> kind == other,
{
}

/// A block placed on a sector hex. Times are in milliseconds.
#[derive(Clone, Debug)]
pub struct PlacedBlock {
    pub kind: BuildBlockType,
    pub rotation: u8,
    pub stored: Vec<ItemStack>,
    pub capacity: i32,
    pub mine_extra: Vec<Axial>,
    pub build_paid: bool,
    pub build_progress: u32,
    pub build_time: u32,
}

/// The values of a placed block.
pub struct BlockView {
    pub kind: BuildBlockType,
    pub rotation: u8,
    pub stored: Seq<ItemStack>,
    pub capacity: i32,
    pub mine_extra: Seq<Axial>,
    pub build_paid: bool,
    pub build_progress: u32,
    pub build_time: u32,
}

impl View for PlacedBlock {
    type V = BlockView;

    open spec fn view(&self) -> BlockView {
        BlockView {
            kind: self.kind,
            rotation: self.rotation,
            stored: self.stored@,
            capacity: self.capacity,
            mine_extra: self.mine_extra@,
            build_paid: self.build_paid,
            build_progress: self.build_progress,
            build_time: self.build_time,
        }
    }
}

/// A block is under construction while its build time has not elapsed.
pub open spec fn spec_is_under_construction(b: BlockView) -> bool {
    b.build_time > 0 && b.build_progress < b.build_time
}

/// Whether a block is still under construction.
pub fn is_under_construction(block: &PlacedBlock) -> (res: bool)
    ensures
        res == spec_is_under_construction(block@),
{
    block.build_time > 0 && block.build_progress < block.build_time
}

/// The same block with a different store.
pub open spec fn with_stored(b: BlockView, s: Seq<ItemStack>) -> BlockView {
    BlockView { stored: s, ..b }
}

/// Moves items from a block into a unit's cargo, as many as the cargo has
/// room for below `capacity`, first stacks first.
pub fn load_unit_from_block(block: &mut PlacedBlock, cargo: &mut Vec<ItemStack>, capacity: i32)
    requires
        stacks_wf(old(block).stored@),
        stacks_wf(old(cargo)@),
        capacity - stacks_total(old(cargo)@) >= i32::MIN,
    ensures
        final(block)@ == with_stored(old(block)@, drain(old(block).stored@, capacity - stacks_total(old(cargo)@), None)),
        final(cargo)@ == fill(old(cargo)@, moved(old(block).stored@, capacity - stacks_total(old(cargo)@), None)),
        forall|k: ItemType| #[trigger] kind_amount(final(cargo)@, k) == kind_amount(old(cargo)@, k)
            + kind_amount(old(block).stored@, k) - kind_amount(final(block).stored@, k),
        stacks_total(final(cargo)@) == stacks_total(old(cargo)@) + stacks_total(old(block).stored@)
            - stacks_total(final(block).stored@),
        stacks_wf(final(block).stored@),
        stacks_wf(final(cargo)@),
{
    proof {
        lemma_wf_bounds(cargo@, 0);
    }
    let remaining = capacity - storage_total(cargo.as_slice());
    if remaining <= 0 {
        return;
    }
    move_items(&mut block.stored, cargo, capacity, None);
}

/// Moves items of the allowed kinds only from a block into a unit's cargo,
/// as many as the cargo has room for below `capacity`.
pub fn load_unit_from_block_filtered(
    block: &mut PlacedBlock,
    cargo: &mut Vec<ItemStack>,
    capacity: i32,
    allowed: &[ItemType],
)
    requires
        stacks_wf(old(block).stored@),
        stacks_wf(old(cargo)@),
        capacity - stacks_total(old(cargo)@) >= i32::MIN,
    ensures
        final(block)@ == with_stored(old(block)@, drain(old(block).stored@, capacity - stacks_total(old(cargo)@), Some(allowed@))),
        final(cargo)@ == fill(old(cargo)@, moved(old(block).stored@, capacity - stacks_total(old(cargo)@), Some(allowed@))),
        forall|k: ItemType| #[trigger] kind_amount(final(cargo)@, k) == kind_amount(old(cargo)@, k)
            + kind_amount(old(block).stored@, k) - kind_amount(final(block).stored@, k),
        stacks_total(final(cargo)@) == stacks_total(old(cargo)@) + stacks_total(old(block).stored@)
            - stacks_total(final(block).stored@),
        stacks_wf(final(block).stored@),
        stacks_wf(final(cargo)@),
{
    if allowed.len() == 0 {
        proof {
            lemma_drain_nothing_passes(old(block).stored@, capacity - stacks_total(old(cargo)@), allowed@);
        }
        return;
    }
    proof {
        lemma_wf_bounds(cargo@, 0);
    }
    let remaining = capacity - storage_total(cargo.as_slice());
    if remaining <= 0 {
        return;
    }
    move_items(&mut block.stored, cargo, capacity, Some(allowed));
}

/// Moves a unit's cargo into a block, as much as the block has room for
/// below its capacity, first stacks first.
pub fn unload_unit_to_block(cargo: &mut Vec<ItemStack>, block: &mut PlacedBlock)
    requires
        stacks_wf(old(block).stored@),
        stacks_wf(old(cargo)@),
    ensures
        final(cargo)@ == drain(old(cargo)@, old(block).capacity - stacks_total(old(block).stored@), None),
        final(block).stored@ == fill(old(block).stored@, moved(old(cargo)@, old(block).capacity - stacks_total(old(block).stored@), None)),
        final(block)@ == with_stored(old(block)@, final(block).stored@),
        forall|k: ItemType| #[trigger] kind_amount(final(block).stored@, k) == kind_amount(old(block).stored@, k)
            + kind_amount(old(cargo)@, k) - kind_amount(final(cargo)@, k),
        stacks_total(final(block).stored@) == stacks_total(old(block).stored@) + stacks_total(old(cargo)@)
            - stacks_total(final(cargo)@),
        stacks_wf(final(block).stored@),
        stacks_wf(final(cargo)@),
{
    let capacity = block.capacity;
    move_items(cargo, &mut block.stored, capacity, None);
}

} // verus!

verus! {

/// The blocks of a sector map, at most one per hex.
pub struct BlockMap {
    pub entries: Vec<(Axial, PlacedBlock)>,
}

/// Total of all items stored in a list of blocks.
pub open spec fn blocks_total(v: Seq<(Axial, BlockView)>) -> int
    decreases v.len(),
{
    if v.len() == 0 {
        0
    } else {
        blocks_total(v.drop_last()) + stacks_total(v.last().1.stored)
    }
}

/// No hex appears twice.
pub open spec fn keys_unique(v: Seq<(Axial, BlockView)>) -> bool {
    forall|i: int, j: int| 0 <= i < j < v.len() ==> #[trigger] v[i].0 != #[trigger] v[j].0
}

/// Well-formed blocks: one block per hex, well-formed stores, and a grand
/// total that fits in an `i32`.
pub open spec fn blocks_wf(v: Seq<(Axial, BlockView)>) -> bool {
    &&& keys_unique(v)
    &&& forall|i: int| 0 <= i < v.len() ==> stacks_wf(#[trigger] v[i].1.stored)
    &&& blocks_total(v) <= i32::MAX
}

/// The position of the block on `hex`, if any.
pub open spec fn index_of(v: Seq<(Axial, BlockView)>, hex: Axial) -> int
    decreases v.len(),
{
    if v.len() == 0 {
        -1
    } else if v.last().0 == hex {
        v.len() - 1
    } else {
        index_of(v.drop_last(), hex)
    }
}

/// `index_of` finds the hex exactly when it is present.
pub proof fn lemma_index_of(v: Seq<(Axial, BlockView)>, hex: Axial)
    requires
        keys_unique(v),
    ensures
        -1 <= index_of(v, hex) < v.len(),
        index_of(v, hex) >= 0 ==> v[index_of(v, hex)].0 == hex,
        index_of(v, hex) < 0 ==> forall|i: int| 0 <= i < v.len() ==> #[trigger] v[i].0 != hex,
        forall|i: int| 0 <= i < v.len() && #[trigger] v[i].0 == hex ==> index_of(v, hex) == i,
    decreases v.len(),
{
    if v.len() > 0 {
        let d = v.drop_last();
        assert(keys_unique(d)) by {
            assert forall|i: int, j: int| 0 <= i < j < d.len() implies #[trigger] d[i].0 != #[trigger] d[j].0 by {
                assert(d[i] == v[i] && d[j] == v[j]);
            }
        }
        lemma_index_of(d, hex);
        assert forall|i: int| 0 <= i < v.len() && #[trigger] v[i].0 == hex implies index_of(v, hex) == i by {
            if i < v.len() - 1 {
                assert(d[i] == v[i]);
                assert(v[i].0 != v[v.len() - 1].0);
            }
        }
        if index_of(v, hex) < 0 {
            assert forall|i: int| 0 <= i < v.len() implies #[trigger] v[i].0 != hex by {
                if i < v.len() - 1 {
                    assert(d[i] == v[i]);
                }
            }
        }
    }
}

/// A block total over well-formed blocks is between 0 and the grand total.
pub proof fn lemma_blocks_total_bounds(v: Seq<(Axial, BlockView)>, i: int)
    requires
        forall|j: int| 0 <= j < v.len() ==> stacks_wf(#[trigger] v[j].1.stored),
    ensures
        blocks_total(v) >= 0,
        0 <= i < v.len() ==> 0 <= stacks_total(v[i].1.stored) <= blocks_total(v),
    decreases v.len(),
{
    if v.len() > 0 {
        let d = v.drop_last();
        assert forall|j: int| 0 <= j < d.len() implies stacks_wf(#[trigger] d[j].1.stored) by {
            assert(d[j] == v[j]);
        }
        lemma_blocks_total_bounds(d, i);
        assert(stacks_wf(v[v.len() - 1].1.stored));
        lemma_wf_bounds(v.last().1.stored, 0);
        if 0 <= i < v.len() - 1 {
            assert(d[i] == v[i]);
        }
    }
}

impl BlockMap {
    /// The blocks as (hex, block values) pairs.
    pub open spec fn view_entries(&self) -> Seq<(Axial, BlockView)> {
        self.entries@.map_values(|e: (Axial, PlacedBlock)| (e.0, e.1@))
    }

    /// One block per hex, well-formed stores, grand total within `i32`.
    pub open spec fn wf(&self) -> bool {
        blocks_wf(self.view_entries())
    }

    /// A map with no blocks.
    pub fn new() -> (m: Self)
        ensures
            m.view_entries().len() == 0,
            m.wf(),
    {
        let m = BlockMap { entries: Vec::new() };
        assert(m.view_entries() =~= Seq::<(Axial, BlockView)>::empty());
        m
    }

    /// The position of the block on `hex`, if any.
    pub fn find(&self, hex: Axial) -> (idx: Option<usize>)
        requires
            self.wf(),
        ensures
            idx is None <==> index_of(self.view_entries(), hex) < 0,
            idx matches Some(i) ==> i == index_of(self.view_entries(), hex),
    {
        proof {
            lemma_index_of(self.view_entries(), hex);
        }
        let mut i: usize = 0;
        while i < self.entries.len()
            invariant
                i <= self.entries.len(),
                self.wf(),
                forall|j: int| 0 <= j < i ==> #[trigger] self.entries@[j].0 != hex,
            decreases self.entries.len() - i,
        {
            if self.entries[i].0 == hex {
                assert(self.view_entries()[i as int].0 == hex);
                proof {
                    lemma_index_of(self.view_entries(), hex);
                }
                return Some(i);
            }
            i = i + 1;
        }
        assert forall|j: int| 0 <= j < self.view_entries().len() implies #[trigger] self.view_entries()[j].0 != hex by {
            assert(self.view_entries()[j].0 == self.entries@[j].0);
        }
        None
    }

    /// The block on `hex`, if any.
    pub fn get(&self, hex: Axial) -> (b: Option<&PlacedBlock>)
        requires
            self.wf(),
        ensures
            b is None <==> index_of(self.view_entries(), hex) < 0,
            b matches Some(blk) ==> blk@ == self.view_entries()[index_of(self.view_entries(), hex)].1,
    {
        proof {
            lemma_index_of(self.view_entries(), hex);
        }
        match self.find(hex) {
            None => None,
            Some(i) => Some(&self.entries[i].1),
        }
    }

    /// Whether a block stands on `hex`.
    pub fn contains_key(&self, hex: Axial) -> (res: bool)
        requires
            self.wf(),
        ensures
            res == (index_of(self.view_entries(), hex) >= 0),
    {
        self.find(hex).is_some()
    }
}

} // verus!

verus! {

/// Items of one kind held by finished blocks.
pub open spec fn avail(v: Seq<(Axial, BlockView)>, kind: ItemType) -> int
    decreases v.len(),
{
    if v.len() == 0 {
        0
    } else {
        avail(v.drop_last(), kind) + (if !spec_is_under_construction(v.last().1) {
            kind_amount(v.last().1.stored, kind)
        } else {
            0
        })
    }
}

/// Available amounts lie between zero and the grand total.
pub proof fn lemma_avail_bounds(v: Seq<(Axial, BlockView)>, kind: ItemType, k: int)
    requires
        forall|j: int| 0 <= j < v.len() ==> stacks_wf(#[trigger] v[j].1.stored),
    ensures
        0 <= avail(v, kind) <= blocks_total(v),
        0 <= k <= v.len() ==> avail(v.take(k), kind) <= avail(v, kind),
        0 <= k <= v.len() ==> 0 <= avail(v.take(k), kind),
    decreases v.len(),
{
    if v.len() > 0 {
        let d = v.drop_last();
        assert forall|j: int| 0 <= j < d.len() implies stacks_wf(#[trigger] d[j].1.stored) by {
            assert(d[j] == v[j]);
        }
        lemma_avail_bounds(d, kind, k);
        assert(stacks_wf(v[v.len() - 1].1.stored));
        lemma_wf_bounds(v.last().1.stored, 0);
        if k == v.len() {
            assert(v.take(k) =~= v);
        } else if 0 <= k < v.len() {
            assert(d.take(k) =~= v.take(k));
        }
    } else if k == 0 {
        assert(v.take(k) =~= v);
    }
}

/// Items of one kind held by the finished blocks of the map.
pub fn available_item_amount(blocks: &BlockMap, kind: ItemType) -> (total: i32)
    requires
        blocks.wf(),
    ensures
        total == avail(blocks.view_entries(), kind),
{
    let ghost v = blocks.view_entries();
    let mut total: i32 = 0;
    let mut i: usize = 0;
    while i < blocks.entries.len()
        invariant
            i <= blocks.entries.len(),
            v == blocks.view_entries(),
            blocks.wf(),
            total == avail(v.take(i as int), kind),
        decreases blocks.entries.len() - i,
    {
        let block = &blocks.entries[i].1;
        proof {
            assert(v[i as int].1 == block@);
            assert(v.take(i + 1).drop_last() =~= v.take(i as int));
            lemma_avail_bounds(v, kind, i + 1);
            lemma_avail_bounds(v, kind, i as int);
        }
        if !is_under_construction(block) {
            let amt = amount_of_kind(block.stored.as_slice(), kind);
            total = total + amt;
        }
        i = i + 1;
    }
    assert(v.take(i as int) =~= v);
    total
}

/// Every requirement is covered by what the finished blocks hold.
pub open spec fn spec_has_requirements(v: Seq<(Axial, BlockView)>, reqs: Seq<ItemStack>) -> bool {
    forall|i: int| 0 <= i < reqs.len() ==> avail(v, #[trigger] reqs[i].kind) >= reqs[i].amount
}

/// Whether the finished blocks hold enough for every requirement.
pub fn has_requirements(blocks: &BlockMap, reqs: &[ItemStack]) -> (ok: bool)
    requires
        blocks.wf(),
    ensures
        ok == spec_has_requirements(blocks.view_entries(), reqs@),
{
    let mut i: usize = 0;
    while i < reqs.len()
        invariant
            i <= reqs.len(),
            blocks.wf(),
            forall|j: int| 0 <= j < i ==> avail(blocks.view_entries(), #[trigger] reqs@[j].kind) >= reqs@[j].amount,
        decreases reqs.len() - i,
    {
        let req = reqs[i];
        if available_item_amount(blocks, req.kind) < req.amount {
            return false;
        }
        i = i + 1;
    }
    true
}

/// The blocks after taking `r` items of one kind from the finished blocks,
/// in map order, each block's stacks first to last.
pub open spec fn consume_one(v: Seq<(Axial, BlockView)>, kind: ItemType, r: int) -> Seq<(Axial, BlockView)>
    decreases v.len(),
{
    if v.len() == 0 || r <= 0 {
        v
    } else {
        let e = v[0];
        if spec_is_under_construction(e.1) {
            seq![e] + consume_one(v.drop_first(), kind, r)
        } else {
            let d = drain(e.1.stored, r, Some(seq![kind]));
            seq![(e.0, with_stored(e.1, d))] + consume_one(
                v.drop_first(),
                kind,
                r - (stacks_total(e.1.stored) - stacks_total(d)),
            )
        }
    }
}

/// The blocks after taking every requirement in turn.
pub open spec fn consume_all(v: Seq<(Axial, BlockView)>, reqs: Seq<ItemStack>) -> Seq<(Axial, BlockView)>
    decreases reqs.len(),
{
    if reqs.len() == 0 {
        v
    } else {
        consume_all(consume_one(v, reqs[0].kind, reqs[0].amount as int), reqs.drop_first())
    }
}

} // verus!

verus! {

proof fn lemma_avail_cons(x: (Axial, BlockView), s: Seq<(Axial, BlockView)>)
    ensures
        forall|kind: ItemType| #[trigger] avail(seq![x] + s, kind) == (if !spec_is_under_construction(x.1) {
            kind_amount(x.1.stored, kind)
        } else {
            0
        }) + avail(s, kind),
        blocks_total(seq![x] + s) == stacks_total(x.1.stored) + blocks_total(s),
    decreases s.len(),
{
    let xs = seq![x] + s;
    if s.len() > 0 {
        lemma_avail_cons(x, s.drop_last());
        assert(xs.drop_last() =~= seq![x] + s.drop_last());
        assert(xs.last() == s.last());
        assert forall|kind: ItemType| #[trigger] avail(xs, kind) == (if !spec_is_under_construction(x.1) {
            kind_amount(x.1.stored, kind)
        } else {
            0
        }) + avail(s, kind) by {
            assert(avail(seq![x] + s.drop_last(), kind) == (if !spec_is_under_construction(x.1) {
                kind_amount(x.1.stored, kind)
            } else {
                0
            }) + avail(s.drop_last(), kind));
        }
        assert(blocks_total(xs) == blocks_total(xs.drop_last()) + stacks_total(xs.last().1.stored));
        assert(blocks_total(s) == blocks_total(s.drop_last()) + stacks_total(s.last().1.stored));
    } else {
        assert(xs.drop_last() =~= Seq::<(Axial, BlockView)>::empty());
        assert(xs.last() == x);
        assert forall|kind: ItemType| #[trigger] avail(xs, kind) == (if !spec_is_under_construction(x.1) {
            kind_amount(x.1.stored, kind)
        } else {
            0
        }) + avail(s, kind) by {
            assert(avail(xs.drop_last(), kind) == 0);
            assert(avail(s, kind) == 0);
        }
        assert(blocks_total(xs.drop_last()) == 0);
        assert(blocks_total(s) == 0);
        assert(blocks_total(xs) == blocks_total(xs.drop_last()) + stacks_total(xs.last().1.stored));
    }
}

/// Taking `r` items of one kind keeps every block in place with its other
/// values, keeps stores well-formed, never raises the grand total, lowers
/// that kind's available amount by exactly `min(r, available)`, and leaves
/// other kinds and unfinished blocks alone.
pub proof fn lemma_consume_one(v: Seq<(Axial, BlockView)>, kind: ItemType, r: int)
    requires
        forall|j: int| 0 <= j < v.len() ==> stacks_wf(#[trigger] v[j].1.stored),
    ensures
        ({
            let c = consume_one(v, kind, r);
            let taken = if r <= 0 { 0 } else if r < avail(v, kind) { r } else { avail(v, kind) };
            &&& c.len() == v.len()
            &&& forall|i: int| 0 <= i < v.len() ==> (#[trigger] c[i]).0 == v[i].0 && c[i].1 == with_stored(v[i].1, c[i].1.stored)
            &&& forall|i: int| 0 <= i < v.len() && spec_is_under_construction(v[i].1) ==> #[trigger] c[i] == v[i]
            &&& forall|i: int| 0 <= i < v.len() ==> stacks_wf(#[trigger] c[i].1.stored)
            &&& blocks_total(c) == blocks_total(v) - taken
            &&& avail(c, kind) == avail(v, kind) - taken
            &&& forall|k: ItemType| k != kind ==> #[trigger] avail(c, k) == avail(v, k)
        }),
    decreases v.len(),
{
    lemma_avail_bounds(v, kind, 0);
    if v.len() == 0 || r <= 0 {
    } else {
        let e = v[0];
        let rest = v.drop_first();
        assert(v =~= seq![e] + rest);
        assert forall|j: int| 0 <= j < rest.len() implies stacks_wf(#[trigger] rest[j].1.stored) by {
            assert(rest[j] == v[j + 1]);
        }
        assert(stacks_wf(v[0].1.stored));
        lemma_avail_cons(e, rest);
        lemma_avail_bounds(rest, kind, 0);
        if spec_is_under_construction(e.1) {
            lemma_consume_one(rest, kind, r);
            let c = consume_one(v, kind, r);
            lemma_avail_cons(e, consume_one(rest, kind, r));
            assert(c =~= seq![e] + consume_one(rest, kind, r));
            assert forall|i: int| 0 <= i < v.len() implies (#[trigger] c[i]).0 == v[i].0 && c[i].1 == with_stored(v[i].1, c[i].1.stored) && stacks_wf(c[i].1.stored) && (spec_is_under_construction(v[i].1) ==> c[i] == v[i]) by {
                if i > 0 {
                    assert(c[i] == consume_one(rest, kind, r)[i - 1]);
                    assert(v[i] == rest[i - 1]);
                }
            }
        } else {
            let d = drain(e.1.stored, r, Some(seq![kind]));
            lemma_drain_kind(e.1.stored, r, kind);
            lemma_wf_bounds(e.1.stored, 0);
            let taken0 = stacks_total(e.1.stored) - stacks_total(d);
            let e2 = (e.0, with_stored(e.1, d));
            lemma_consume_one(rest, kind, r - taken0);
            let c = consume_one(v, kind, r);
            lemma_avail_cons(e2, consume_one(rest, kind, r - taken0));
            assert(c =~= seq![e2] + consume_one(rest, kind, r - taken0));
            lemma_wf_bounds(d, 0);
            assert(stacks_wf(d));
            assert forall|i: int| 0 <= i < v.len() implies (#[trigger] c[i]).0 == v[i].0 && c[i].1 == with_stored(v[i].1, c[i].1.stored) && stacks_wf(c[i].1.stored) && (spec_is_under_construction(v[i].1) ==> c[i] == v[i]) by {
                if i > 0 {
                    assert(c[i] == consume_one(rest, kind, r - taken0)[i - 1]);
                    assert(v[i] == rest[i - 1]);
                }
            }
        }
    }
}

} // verus!

verus! {

/// Stores stay well-formed, hexes stay where they were, and the grand total
/// does not grow, over any number of requirements.
pub proof fn lemma_consume_all(v: Seq<(Axial, BlockView)>, reqs: Seq<ItemStack>)
    requires
        blocks_wf(v),
    ensures
        blocks_wf(consume_all(v, reqs)),
        consume_all(v, reqs).len() == v.len(),
        forall|i: int| 0 <= i < v.len() ==> (#[trigger] consume_all(v, reqs)[i]).0 == v[i].0
            && consume_all(v, reqs)[i].1 == with_stored(v[i].1, consume_all(v, reqs)[i].1.stored),
        forall|i: int| 0 <= i < v.len() && spec_is_under_construction(v[i].1) ==> #[trigger] consume_all(v, reqs)[i] == v[i],
    decreases reqs.len(),
{
    if reqs.len() > 0 {
        let c = consume_one(v, reqs[0].kind, reqs[0].amount as int);
        lemma_consume_one(v, reqs[0].kind, reqs[0].amount as int);
        lemma_avail_bounds(v, reqs[0].kind, 0);
        assert(keys_unique(c)) by {
            assert forall|i: int, j: int| 0 <= i < j < c.len() implies #[trigger] c[i].0 != #[trigger] c[j].0 by {
                assert(c[i].0 == v[i].0 && c[j].0 == v[j].0);
            }
        }
        lemma_consume_all(c, reqs.drop_first());
        let r = consume_all(v, reqs);
        assert forall|i: int| 0 <= i < v.len() && spec_is_under_construction(v[i].1) implies #[trigger] r[i] == v[i] by {
            assert(c[i] == v[i]);
        }
        assert forall|i: int| 0 <= i < v.len() implies (#[trigger] r[i]).0 == v[i].0 && r[i].1 == with_stored(v[i].1, r[i].1.stored) by {
            assert(c[i].0 == v[i].0 && c[i].1 == with_stored(v[i].1, c[i].1.stored));
        }
    }
}

/// When the finished blocks hold every requirement, takes each requirement
/// in turn from them (in map order, first stacks first) and returns true;
/// otherwise changes nothing and returns false.
#[verifier::spinoff_prover]
pub fn consume_requirements(blocks: &mut BlockMap, reqs: &[ItemStack]) -> (ok: bool)
    requires
        old(blocks).wf(),
    ensures
        ok == spec_has_requirements(old(blocks).view_entries(), reqs@),
        ok ==> final(blocks).view_entries() == consume_all(old(blocks).view_entries(), reqs@),
        !ok ==> final(blocks).view_entries() == old(blocks).view_entries(),
        final(blocks).wf(),
{
    if !has_requirements(blocks, reqs) {
        return false;
    }
    let ghost v0 = blocks.view_entries();
    proof {
        assert(reqs@.skip(0) =~= reqs@);
    }
    let mut r: usize = 0;
    while r < reqs.len()
        invariant
            r <= reqs.len(),
            blocks_wf(v0),
            blocks.wf(),
            consume_all(v0, reqs@) == consume_all(blocks.view_entries(), reqs@.skip(r as int)),
        decreases reqs.len() - r,
    {
        let req = reqs[r];
        let ghost v = blocks.view_entries();
        proof {
            assert(reqs@.skip(r as int)[0] == req);
            assert(reqs@.skip(r as int).drop_first() =~= reqs@.skip(r + 1));
            lemma_consume_one(v, req.kind, req.amount as int);
            lemma_avail_bounds(v, req.kind, 0);
            assert(v.skip(0) =~= v);
            assert(v.take(0) + consume_one(v.skip(0), req.kind, req.amount as int) =~= consume_one(v, req.kind, req.amount as int));
        }
        let mut remaining: i32 = req.amount;
        let mut i: usize = 0;
        while i < blocks.entries.len()
            invariant
                i <= blocks.entries.len(),
                blocks.entries.len() == v.len(),
                blocks_wf(v),
                blocks.view_entries().skip(i as int) =~= v.skip(i as int),
                blocks.view_entries().take(i as int) + consume_one(v.skip(i as int), req.kind, remaining as int)
                    == consume_one(v, req.kind, req.amount as int),
            ensures
                i == blocks.entries.len() || remaining <= 0,
                i <= blocks.entries.len(),
                blocks.entries.len() == v.len(),
                blocks.view_entries().skip(i as int) =~= v.skip(i as int),
                blocks.view_entries().take(i as int) + consume_one(v.skip(i as int), req.kind, remaining as int)
                    == consume_one(v, req.kind, req.amount as int),
            decreases blocks.entries.len() - i,
        {
            if remaining <= 0 {
                break;
            }
            proof {
                assert(v.skip(i as int)[0] == v[i as int]);
                assert(v.skip(i as int).drop_first() =~= v.skip(i + 1));
                assert(blocks.view_entries()[i as int] == blocks.view_entries().skip(i as int)[0]);
            }
            if is_under_construction(&blocks.entries[i].1) {
                proof {
                    let w = blocks.view_entries();
                    assert(w.take(i + 1) =~= w.take(i as int) + seq![v[i as int]]);
                    assert(w.skip(i + 1) =~= v.skip(i + 1)) by {
                        assert(w.skip(i + 1) =~= w.skip(i as int).drop_first());
                    }
                }
                i = i + 1;
                continue;
            }
            let ghost w0 = blocks.view_entries();
            let ghost ent0 = blocks.entries@;
            let (hex, mut block) = blocks.entries.remove(i);
            proof {
                assert(stacks_wf(v[i as int].1.stored));
                assert(block@ == v[i as int].1);
            }
            let taken = take_kind(&mut block.stored, req.kind, remaining);
            proof {
                lemma_drain_kind(v[i as int].1.stored, remaining as int, req.kind);
                lemma_wf_bounds(v[i as int].1.stored, 0);
            }
            remaining = remaining - taken;
            blocks.entries.insert(i, (hex, block));
            proof {
                let w = blocks.view_entries();
                assert(blocks.entries@ =~= ent0.update(i as int, (hex, block)));
                assert(w =~= w0.update(i as int, (hex, block@)));
                assert(block@ == with_stored(v[i as int].1, drain(v[i as int].1.stored, (remaining + taken) as int, Some(seq![req.kind]))));
                assert(w.take(i + 1) =~= w0.take(i as int) + seq![(hex, block@)]);
                assert(w.skip(i + 1) =~= v.skip(i + 1)) by {
                    assert(w.skip(i + 1) =~= w0.skip(i as int).drop_first());
                }
            }
            i = i + 1;
        }
        proof {
            let w = blocks.view_entries();
            if i == blocks.entries.len() {
                assert(v.skip(i as int) =~= Seq::<(Axial, BlockView)>::empty());
                assert(w.take(i as int) =~= w);
            } else {
                assert(consume_one(v.skip(i as int), req.kind, remaining as int) == v.skip(i as int));
                assert(w.take(i as int) + v.skip(i as int) =~= w);
            }
            assert(w == consume_one(v, req.kind, req.amount as int));
            assert(keys_unique(w)) by {
                assert forall|a: int, b: int| 0 <= a < b < w.len() implies #[trigger] w[a].0 != #[trigger] w[b].0 by {
                    assert(w[a].0 == v[a].0 && w[b].0 == v[b].0);
                }
            }
        }
        r = r + 1;
    }
    proof {
        assert(reqs@.skip(r as int) =~= Seq::<ItemStack>::empty());
    }
    true
}

} // verus!

verus! {

/// Consuming requirements of distinct kinds, each non-negative and covered
/// by the finished blocks, lowers each required kind's available amount by
/// exactly its requirement and leaves every other kind as it was.
pub proof fn lemma_consume_all_avail(v: Seq<(Axial, BlockView)>, reqs: Seq<ItemStack>)
    requires
        blocks_wf(v),
        spec_has_requirements(v, reqs),
        forall|i: int, j: int| 0 <= i < j < reqs.len() ==> #[trigger] reqs[i].kind != #[trigger] reqs[j].kind,
        forall|i: int| 0 <= i < reqs.len() ==> #[trigger] reqs[i].amount >= 0,
    ensures
        forall|i: int| 0 <= i < reqs.len() ==> avail(consume_all(v, reqs), #[trigger] reqs[i].kind)
            == avail(v, reqs[i].kind) - reqs[i].amount,
        forall|k: ItemType| (forall|i: int| 0 <= i < reqs.len() ==> #[trigger] reqs[i].kind != k)
            ==> #[trigger] avail(consume_all(v, reqs), k) == avail(v, k),
    decreases reqs.len(),
{
    if reqs.len() > 0 {
        let k0 = reqs[0].kind;
        let a0 = reqs[0].amount as int;
        let c = consume_one(v, k0, a0);
        let rest = reqs.drop_first();
        lemma_consume_one(v, k0, a0);
        lemma_consume_all(v, seq![reqs[0]]);
        assert(consume_all(v, seq![reqs[0]]) == consume_all(c, seq![reqs[0]].drop_first()));
        assert(seq![reqs[0]].drop_first() =~= Seq::<ItemStack>::empty());
        assert(blocks_wf(c));
        assert(spec_has_requirements(c, rest)) by {
            assert forall|i: int| 0 <= i < rest.len() implies avail(c, #[trigger] rest[i].kind) >= rest[i].amount by {
                assert(rest[i] == reqs[i + 1]);
                assert(reqs[0].kind != reqs[i + 1].kind);
            }
        }
        assert forall|i: int, j: int| 0 <= i < j < rest.len() implies #[trigger] rest[i].kind != #[trigger] rest[j].kind by {
            assert(rest[i] == reqs[i + 1] && rest[j] == reqs[j + 1]);
        }
        assert forall|i: int| 0 <= i < rest.len() implies #[trigger] rest[i].amount >= 0 by {
            assert(rest[i] == reqs[i + 1]);
        }
        lemma_consume_all_avail(c, rest);
        let r = consume_all(v, reqs);
        assert(r == consume_all(c, rest));
        assert forall|i: int| 0 <= i < reqs.len() implies avail(r, #[trigger] reqs[i].kind) == avail(v, reqs[i].kind) - reqs[i].amount by {
            if i == 0 {
                assert forall|j: int| 0 <= j < rest.len() implies #[trigger] rest[j].kind != k0 by {
                    assert(rest[j] == reqs[j + 1]);
                }
            } else {
                assert(rest[i - 1] == reqs[i]);
                assert(reqs[0].kind != reqs[i].kind);
            }
        }
        assert forall|k: ItemType| (forall|i: int| 0 <= i < reqs.len() ==> #[trigger] reqs[i].kind != k)
            implies #[trigger] avail(r, k) == avail(v, k) by {
            assert(reqs[0].kind != k);
            assert forall|j: int| 0 <= j < rest.len() implies #[trigger] rest[j].kind != k by {
                assert(rest[j] == reqs[j + 1]);
            }
        }
    }
}

} // verus!

verus! {

/// The hexes of `hs` other than `x`, in order.
pub open spec fn without(hs: Seq<Axial>, x: Axial) -> Seq<Axial>
    decreases hs.len(),
{
    if hs.len() == 0 {
        hs
    } else if hs.last() == x {
        without(hs.drop_last(), x)
    } else {
        without(hs.drop_last(), x).push(hs.last())
    }
}

/// Sum of the store totals of the blocks standing on the given hexes.
pub open spec fn keyed_total(v: Seq<(Axial, BlockView)>, hs: Seq<Axial>) -> int
    decreases hs.len(),
{
    if hs.len() == 0 {
        0
    } else {
        keyed_total(v, hs.drop_last()) + (if index_of(v, hs.last()) >= 0 {
            stacks_total(v[index_of(v, hs.last())].1.stored)
        } else {
            0
        })
    }
}

proof fn lemma_without(hs: Seq<Axial>, x: Axial)
    requires
        hs.no_duplicates(),
    ensures
        without(hs, x).no_duplicates(),
        forall|h: Axial| #[trigger] without(hs, x).contains(h) <==> (hs.contains(h) && h != x),
    decreases hs.len(),
{
    if hs.len() > 0 {
        let d = hs.drop_last();
        assert(d.no_duplicates());
        lemma_without(d, x);
        assert forall|h: Axial| d.contains(h) implies h != hs.last() by {
            let i = choose|i: int| 0 <= i < d.len() && d[i] == h;
            assert(hs[i] == h);
        }
        assert forall|h: Axial| hs.contains(h) <==> (d.contains(h) || h == hs.last()) by {
            if hs.contains(h) {
                let i = choose|i: int| 0 <= i < hs.len() && hs[i] == h;
                if i < hs.len() - 1 {
                    assert(d[i] == h);
                }
            }
            if d.contains(h) {
                let i = choose|i: int| 0 <= i < d.len() && d[i] == h;
                assert(hs[i] == h);
            }
        }
        if hs.last() != x {
            let w = without(d, x);
            assert forall|h: Axial| #[trigger] w.push(hs.last()).contains(h) <==> (w.contains(h) || h == hs.last()) by {
                if w.push(hs.last()).contains(h) {
                    let i = choose|i: int| 0 <= i < w.len() + 1 && w.push(hs.last())[i] == h;
                    if i < w.len() {
                        assert(w[i] == h);
                    }
                }
                if w.contains(h) {
                    let i = choose|i: int| 0 <= i < w.len() && w[i] == h;
                    assert(w.push(hs.last())[i] == h);
                }
                if h == hs.last() {
                    assert(w.push(hs.last())[w.len() as int] == h);
                }
            }
            assert(w.push(hs.last()).no_duplicates()) by {
                assert forall|i: int, j: int| 0 <= i < j < w.len() + 1 implies w.push(hs.last())[i] != w.push(hs.last())[j] by {
                    if j == w.len() {
                        assert(w.contains(w[i]));
                    }
                }
            }
        }
    }
}

proof fn lemma_keyed_total_split(v: Seq<(Axial, BlockView)>, hs: Seq<Axial>)
    requires
        v.len() > 0,
        keys_unique(v),
        hs.no_duplicates(),
    ensures
        keyed_total(v, hs) == keyed_total(v.drop_last(), without(hs, v.last().0)) + (if hs.contains(v.last().0) {
            stacks_total(v.last().1.stored)
        } else {
            0
        }),
    decreases hs.len(),
{
    let x = v.last().0;
    let d = v.drop_last();
    assert(keys_unique(d)) by {
        assert forall|i: int, j: int| 0 <= i < j < d.len() implies #[trigger] d[i].0 != #[trigger] d[j].0 by {
            assert(d[i] == v[i] && d[j] == v[j]);
        }
    }
    lemma_index_of(v, x);
    if hs.len() > 0 {
        let h = hs.last();
        let hd = hs.drop_last();
        assert(hd.no_duplicates());
        lemma_keyed_total_split(v, hd);
        lemma_index_of(v, h);
        lemma_index_of(d, h);
        assert forall|y: Axial| hs.contains(y) <==> (hd.contains(y) || y == h) by {
            if hs.contains(y) {
                let i = choose|i: int| 0 <= i < hs.len() && hs[i] == y;
                if i < hs.len() - 1 {
                    assert(hd[i] == y);
                }
            }
            if hd.contains(y) {
                let i = choose|i: int| 0 <= i < hd.len() && hd[i] == y;
                assert(hs[i] == y);
            }
        }
        if h == x {
            assert(!hd.contains(x)) by {
                if hd.contains(x) {
                    let i = choose|i: int| 0 <= i < hd.len() && hd[i] == x;
                    assert(hs[i] == hs[hs.len() - 1]);
                }
            }
            assert(index_of(v, h) == v.len() - 1);
        } else {
            assert(without(hs, x) == without(hd, x).push(h));
            assert(without(hs, x).drop_last() =~= without(hd, x));
            assert(index_of(v, h) == index_of(d, h));
            if index_of(d, h) >= 0 {
                assert(d[index_of(d, h)] == v[index_of(d, h)]);
            }
        }
    } else {
        assert(without(hs, x) =~= hs);
    }
}

/// The blocks standing on distinct hexes hold together at most the grand total.
pub proof fn lemma_keyed_total_bound(v: Seq<(Axial, BlockView)>, hs: Seq<Axial>)
    requires
        keys_unique(v),
        hs.no_duplicates(),
        forall|j: int| 0 <= j < v.len() ==> stacks_wf(#[trigger] v[j].1.stored),
    ensures
        0 <= keyed_total(v, hs) <= blocks_total(v),
    decreases v.len(), hs.len(),
{
    if v.len() == 0 {
        lemma_keyed_total_empty(v, hs);
    } else {
        let d = v.drop_last();
        assert(keys_unique(d)) by {
            assert forall|i: int, j: int| 0 <= i < j < d.len() implies #[trigger] d[i].0 != #[trigger] d[j].0 by {
                assert(d[i] == v[i] && d[j] == v[j]);
            }
        }
        assert forall|j: int| 0 <= j < d.len() implies stacks_wf(#[trigger] d[j].1.stored) by {
            assert(d[j] == v[j]);
        }
        lemma_keyed_total_split(v, hs);
        lemma_without(hs, v.last().0);
        lemma_keyed_total_bound(d, without(hs, v.last().0));
        assert(stacks_wf(v[v.len() - 1].1.stored));
        lemma_wf_bounds(v.last().1.stored, 0);
    }
}

proof fn lemma_keyed_total_empty(v: Seq<(Axial, BlockView)>, hs: Seq<Axial>)
    requires
        v.len() == 0,
    ensures
        keyed_total(v, hs) == 0,
    decreases hs.len(),
{
    if hs.len() > 0 {
        lemma_keyed_total_empty(v, hs.drop_last());
    }
}

} // verus!

verus! {

/// The block on `h`, if any.
pub open spec fn block_at(v: Seq<(Axial, BlockView)>, h: Axial) -> Option<BlockView> {
    if index_of(v, h) >= 0 { Some(v[index_of(v, h)].1) } else { None }
}

proof fn lemma_blocks_total_set(v: Seq<(Axial, BlockView)>, i: int, x: (Axial, BlockView))
    requires
        0 <= i < v.len(),
    ensures
        blocks_total(v.update(i, x)) == blocks_total(v) - stacks_total(v[i].1.stored) + stacks_total(x.1.stored),
    decreases v.len(),
{
    let w = v.update(i, x);
    if i == v.len() - 1 {
        assert(w.drop_last() =~= v.drop_last());
    } else {
        lemma_blocks_total_set(v.drop_last(), i, x);
        assert(w.drop_last() =~= v.drop_last().update(i, x));
        assert(w.last() == v.last());
    }
}

proof fn lemma_blocks_total_remove(v: Seq<(Axial, BlockView)>, i: int)
    requires
        0 <= i < v.len(),
    ensures
        blocks_total(v.remove(i)) == blocks_total(v) - stacks_total(v[i].1.stored),
    decreases v.len(),
{
    let w = v.remove(i);
    if i == v.len() - 1 {
        assert(w =~= v.drop_last());
    } else {
        lemma_blocks_total_remove(v.drop_last(), i);
        assert(w.drop_last() =~= v.drop_last().remove(i));
        assert(w.last() == v.last());
    }
}

impl BlockMap {
    /// Places `block` on `hex`, replacing the block there if any.
    #[verifier::spinoff_prover]
    pub fn insert(&mut self, hex: Axial, block: PlacedBlock)
        requires
            old(self).wf(),
            stacks_wf(block.stored@),
            blocks_total(old(self).view_entries()) - (match block_at(old(self).view_entries(), hex) {
                Some(b) => stacks_total(b.stored),
                None => 0,
            }) + stacks_total(block.stored@) <= i32::MAX,
        ensures
            final(self).wf(),
            index_of(old(self).view_entries(), hex) >= 0 ==> final(self).view_entries()
                == old(self).view_entries().update(index_of(old(self).view_entries(), hex), (hex, block@)),
            index_of(old(self).view_entries(), hex) < 0 ==> final(self).view_entries()
                == old(self).view_entries().push((hex, block@)),
            block_at(final(self).view_entries(), hex) == Some(block@),
            forall|h: Axial| h != hex ==> #[trigger] block_at(final(self).view_entries(), h) == block_at(old(self).view_entries(), h),
    {
        let ghost v = self.view_entries();
        let ghost b = block@;
        proof {
            lemma_index_of(v, hex);
        }
        match self.find(hex) {
            Some(i) => {
                let ghost ent0 = self.entries@;
                self.entries.set(i, (hex, block));
                proof {
                    assert(self.entries@ =~= ent0.update(i as int, (hex, block)));
                    let w = self.view_entries();
                    assert(w =~= v.update(i as int, (hex, b)));
                    lemma_blocks_total_set(v, i as int, (hex, b));
                    lemma_blocks_total_bounds(v, i as int);
                    assert(keys_unique(w)) by {
                        assert forall|a: int, c: int| 0 <= a < c < w.len() implies #[trigger] w[a].0 != #[trigger] w[c].0 by {
                            assert(w[a].0 == v[a].0 && w[c].0 == v[c].0);
                        }
                    }
                    assert forall|j: int| 0 <= j < w.len() implies stacks_wf(#[trigger] w[j].1.stored) by {
                        if j != i {
                            assert(w[j] == v[j]);
                        }
                    }
                    lemma_index_of(w, hex);
                    assert(w[i as int].0 == hex);
                    assert(index_of(w, hex) == i);
                    assert forall|h: Axial| h != hex implies #[trigger] block_at(w, h) == block_at(v, h) by {
                        lemma_index_of(v, h);
                        lemma_index_of(w, h);
                        if index_of(v, h) >= 0 {
                            assert(w[index_of(v, h)] == v[index_of(v, h)]);
                        }
                        if index_of(w, h) >= 0 {
                            assert(w[index_of(w, h)] == v[index_of(w, h)]);
                        }
                    }
                }
            },
            None => {
                self.entries.push((hex, block));
                proof {
                    let w = self.view_entries();
                    assert(w =~= v.push((hex, b)));
                    assert(w.drop_last() =~= v);
                    assert(keys_unique(w)) by {
                        assert forall|a: int, c: int| 0 <= a < c < w.len() implies #[trigger] w[a].0 != #[trigger] w[c].0 by {
                            if c == v.len() {
                                assert(w[a] == v[a]);
                            } else {
                                assert(w[a] == v[a] && w[c] == v[c]);
                            }
                        }
                    }
                    assert forall|j: int| 0 <= j < w.len() implies stacks_wf(#[trigger] w[j].1.stored) by {
                        if j < v.len() {
                            assert(w[j] == v[j]);
                        }
                    }
                    lemma_index_of(w, hex);
                    assert(w[v.len() as int].0 == hex);
                    assert forall|h: Axial| h != hex implies #[trigger] block_at(w, h) == block_at(v, h) by {
                        lemma_index_of(v, h);
                        lemma_index_of(w, h);
                        if index_of(v, h) >= 0 {
                            assert(w[index_of(v, h)] == v[index_of(v, h)]);
                        }
                        if index_of(w, h) >= 0 && index_of(w, h) < v.len() {
                            assert(w[index_of(w, h)] == v[index_of(w, h)]);
                        }
                    }
                }
            },
        }
    }

    /// Takes the block off `hex`, if any, and returns it.
    #[verifier::spinoff_prover]
    pub fn remove(&mut self, hex: Axial) -> (removed: Option<PlacedBlock>)
        requires
            old(self).wf(),
        ensures
            final(self).wf(),
            removed is None <==> index_of(old(self).view_entries(), hex) < 0,
            removed is None ==> final(self).view_entries() == old(self).view_entries(),
            removed matches Some(b) ==> {
                let i = index_of(old(self).view_entries(), hex);
                &&& b@ == old(self).view_entries()[i].1
                &&& final(self).view_entries() == old(self).view_entries().remove(i)
            },
            block_at(final(self).view_entries(), hex) is None,
            forall|h: Axial| h != hex ==> #[trigger] block_at(final(self).view_entries(), h) == block_at(old(self).view_entries(), h),
    {
        let ghost v = self.view_entries();
        proof {
            lemma_index_of(v, hex);
        }
        match self.find(hex) {
            Some(i) => {
                let ghost ent0 = self.entries@;
                let (_, block) = self.entries.remove(i);
                proof {
                    assert(self.entries@ =~= ent0.remove(i as int));
                    let w = self.view_entries();
                    assert(w =~= v.remove(i as int));
                    lemma_blocks_total_remove(v, i as int);
                    lemma_blocks_total_bounds(v, i as int);
                    assert forall|j: int| 0 <= j < w.len() implies #[trigger] w[j] == (if j < i { v[j] } else { v[j + 1] }) by {}
                    assert(keys_unique(w)) by {
                        assert forall|a: int, c: int| 0 <= a < c < w.len() implies #[trigger] w[a].0 != #[trigger] w[c].0 by {
                            let a2 = if a < i { a } else { a + 1 };
                            let c2 = if c < i { c } else { c + 1 };
                            assert(w[a] == v[a2] && w[c] == v[c2]);
                        }
                    }
                    assert forall|j: int| 0 <= j < w.len() implies stacks_wf(#[trigger] w[j].1.stored) by {
                        let j2 = if j < i { j } else { j + 1 };
                        assert(w[j] == v[j2]);
                    }
                    lemma_index_of(w, hex);
                    assert(index_of(w, hex) < 0) by {
                        if index_of(w, hex) >= 0 {
                            let m = index_of(w, hex);
                            let m2 = if m < i { m } else { m + 1 };
                            assert(w[m] == v[m2]);
                        }
                    }
                    assert forall|h: Axial| h != hex implies #[trigger] block_at(w, h) == block_at(v, h) by {
                        lemma_index_of(v, h);
                        lemma_index_of(w, h);
                        if index_of(v, h) >= 0 {
                            let m = index_of(v, h);
                            assert(m != i);
                            let m2 = if m < i { m } else { m - 1 };
                            assert(w[m2] == v[m]);
                        }
                        if index_of(w, h) >= 0 {
                            let m = index_of(w, h);
                            let m2 = if m < i { m } else { m + 1 };
                            assert(w[m] == v[m2]);
                        }
                    }
                }
                Some(block)
            },
            None => None,
        }
    }
}

} // verus!
