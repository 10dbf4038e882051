//! Logistics units on the sector map: walking a path back and forth and
//! exchanging cargo at the stations they arrive at.

use vstd::prelude::*;
use crate::hex::Axial;
use crate::sector::{
    BlockMap, BlockView, blocks_total, index_of, lemma_index_of, with_stored,
    load_unit_from_block, load_unit_from_block_filtered, unload_unit_to_block,
};
use crate::storage::{ItemStack, ItemType, drain, fill, moved, kind_amount, lemma_drain_nothing_passes, lemma_wf_bounds, stacks_total, stacks_wf};
use crate::supply::lemma_update_wf;

verus! {

/// A unit walking a path between stations. It loads at `station_in` and
/// unloads at `station_out`; a supply unit loads only `supply_types`.
#[derive(Clone, Debug)]
pub struct Unit {
    pub path: Vec<Axial>,
    pub index: usize,
    pub forward: bool,
    pub capacity: i32,
    pub cargo: Vec<ItemStack>,
    pub depot: Axial,
    pub station_in: Axial,
    pub station_out: Axial,
    pub auto_supply: bool,
    pub supply_types: Vec<ItemType>,
}

/// One step along a path of `len` hexes, turning round at either end: the
/// new index and whether the unit then heads forward.
pub open spec fn spec_advance(index: int, forward: bool, len: int) -> (int, bool) {
    if forward {
        let i = if index + 1 < len { index + 1 } else { index };
        (i, !(i >= len - 1))
    } else {
        let i = if index > 0 { index - 1 } else { index };
        (i, i == 0)
    }
}

/// A unit walks its whole path: heading forward it keeps heading forward
/// until it stands on the last hex, where it turns back; heading back it
/// keeps heading back until it stands on the first hex, where it turns
/// forward again.
pub proof fn lemma_advance_walks_the_path(index: int, forward: bool, len: int)
    requires
        len >= 2,
        0 <= index < len,
    ensures
        forward && index + 2 < len ==> spec_advance(index, forward, len) == (index + 1, true),
        forward && index + 2 == len ==> spec_advance(index, forward, len) == (len - 1, false),
        !forward && index >= 2 ==> spec_advance(index, forward, len) == (index - 1, false),
        !forward && index == 1 ==> spec_advance(index, forward, len) == (0int, true),
        0 <= spec_advance(index, forward, len).0 < len,
{
}

/// Where a unit stands, and which way it heads, after `n` steps.
pub open spec fn advance_steps(index: int, forward: bool, len: int, n: nat) -> (int, bool)
    decreases n,
{
    if n == 0 {
        (index, forward)
    } else {
        let s = spec_advance(index, forward, len);
        advance_steps(s.0, s.1, len, (n - 1) as nat)
    }
}

proof fn lemma_advance_steps_split(index: int, forward: bool, len: int, n: nat)
    ensures
        advance_steps(index, forward, len, n + 1) == ({
            let s = advance_steps(index, forward, len, n);
            spec_advance(s.0, s.1, len)
        }),
    decreases n,
{
    let s = spec_advance(index, forward, len);
    assert(advance_steps(index, forward, len, n + 1) == advance_steps(s.0, s.1, len, n));
    if n > 0 {
        lemma_advance_steps_split(s.0, s.1, len, (n - 1) as nat);
        assert(advance_steps(index, forward, len, n) == advance_steps(s.0, s.1, len, (n - 1) as nat));
        assert(((n - 1) as nat) + 1 == n);
    } else {
        assert(advance_steps(s.0, s.1, len, 0) == s);
    }
}

/// From the first hex heading forward, a unit on a path of `len >= 2`
/// hexes stands on hex `k` heading forward after `k` steps for every
/// `k < len - 1`, and on the last hex, turned back, after `len - 1` steps.
pub proof fn lemma_advance_reaches_the_end(len: int, k: nat)
    requires
        len >= 2,
        k <= len - 1,
    ensures
        k < len - 1 ==> advance_steps(0, true, len, k) == (k as int, true),
        k == len - 1 ==> advance_steps(0, true, len, k) == (len - 1, false),
    decreases k,
{
    if k > 0 {
        lemma_advance_reaches_the_end(len, (k - 1) as nat);
        lemma_advance_steps_split(0, true, len, (k - 1) as nat);
    }
}

/// One step along a path of `len` hexes, turning round at either end.
pub fn advance_index(index: usize, forward: bool, len: usize) -> (r: (usize, bool))
    requires
        len >= 1,
    ensures
        (r.0 as int, r.1) == spec_advance(index as int, forward, len as int),
{
    if forward {
        let i = if index < len - 1 { index + 1 } else { index };
        (i, !(i >= len - 1))
    } else {
        let i = if index > 0 { index - 1 } else { index };
        (i, i == 0)
    }
}

/// Items of one kind stored in all the blocks.
pub open spec fn kind_total(v: Seq<(Axial, BlockView)>, k: ItemType) -> int
    decreases v.len(),
{
    if v.len() == 0 {
        0
    } else {
        kind_total(v.drop_last(), k) + kind_amount(v.last().1.stored, k)
    }
}

proof fn lemma_kind_total_update(v: Seq<(Axial, BlockView)>, i: int, s: Seq<ItemStack>)
    requires
        0 <= i < v.len(),
    ensures
        forall|k: ItemType| #[trigger] kind_total(v.update(i, (v[i].0, with_stored(v[i].1, s))), k)
            == kind_total(v, k) - kind_amount(v[i].1.stored, k) + kind_amount(s, k),
    decreases v.len(),
{
    let w = v.update(i, (v[i].0, with_stored(v[i].1, s)));
    if i == v.len() - 1 {
        assert(w.drop_last() =~= v.drop_last());
    } else {
        let d = v.drop_last();
        lemma_kind_total_update(d, i, s);
        assert(w.drop_last() =~= d.update(i, (d[i].0, with_stored(d[i].1, s))));
        assert(w.last() == v.last());
    }
    assert forall|k: ItemType| #[trigger] kind_total(w, k) == kind_total(v, k) - kind_amount(v[i].1.stored, k) + kind_amount(s, k) by {
        if i < v.len() - 1 {
            let d = v.drop_last();
            assert(kind_total(w.drop_last(), k) == kind_total(d, k) - kind_amount(d[i].1.stored, k) + kind_amount(s, k));
        }
    }
}

/// The blocks and cargo after an exchange with the block on one hex.
pub open spec fn exchanged(
    v: Seq<(Axial, BlockView)>,
    v2: Seq<(Axial, BlockView)>,
    cargo: Seq<ItemStack>,
    cargo2: Seq<ItemStack>,
    hex: Axial,
) -> bool {
    &&& v2.len() == v.len()
    &&& forall|j: int| 0 <= j < v.len() ==> (#[trigger] v2[j]).0 == v[j].0 && v2[j].1 == with_stored(v[j].1, v2[j].1.stored)
    &&& forall|j: int| 0 <= j < v.len() && v[j].0 != hex ==> #[trigger] v2[j] == v[j]
    &&& forall|k: ItemType| #[trigger] kind_total(v2, k) + kind_amount(cargo2, k) == kind_total(v, k) + kind_amount(cargo, k)
    &&& blocks_total(v2) + stacks_total(cargo2) == blocks_total(v) + stacks_total(cargo)
}

/// The loading filter of a unit: its supply kinds for a supply unit.
pub open spec fn load_filter(unit: Unit) -> Option<Seq<ItemType>> {
    if unit.auto_supply { Some(unit.supply_types@) } else { None }
}

/// At the block on `hex`, if any, loads `cargo` as far as `capacity`
/// allows, only the `allowed` kinds when `filtered`.
pub(crate) fn load_at(blocks: &mut BlockMap, hex: Axial, cargo: &mut Vec<ItemStack>, capacity: i32, filtered: bool, allowed: &[ItemType])
    requires
        old(blocks).wf(),
        stacks_wf(old(cargo)@),
        capacity - stacks_total(old(cargo)@) >= i32::MIN,
        blocks_total(old(blocks).view_entries()) + stacks_total(old(cargo)@) <= i32::MAX,
    ensures
        final(blocks).wf(),
        stacks_wf(final(cargo)@),
        exchanged(old(blocks).view_entries(), final(blocks).view_entries(), old(cargo)@, final(cargo)@, hex),
        ({
            let v = old(blocks).view_entries();
            let i = index_of(v, hex);
            &&& i < 0 ==> final(blocks).view_entries() == v && final(cargo)@ == old(cargo)@
            &&& i >= 0 ==> final(blocks).view_entries()[i].1.stored == drain(v[i].1.stored,
                capacity - stacks_total(old(cargo)@), if filtered { Some(allowed@) } else { None })
            &&& i >= 0 ==> final(cargo)@ == fill(old(cargo)@, moved(v[i].1.stored,
                capacity - stacks_total(old(cargo)@), if filtered { Some(allowed@) } else { None }))
        }),
{
    let ghost v0 = blocks.view_entries();
    proof {
        lemma_index_of(v0, hex);
    }
    match blocks.find(hex) {
        Some(idx) => {
            let ghost ent0 = blocks.entries@;
            proof {
                assert(v0[idx as int].1 == ent0[idx as int].1@);
                assert(stacks_wf(v0[idx as int].1.stored));
                lemma_wf_bounds(v0[idx as int].1.stored, 0);
                lemma_wf_bounds(cargo@, 0);
            }
            let (h, mut block) = blocks.entries.remove(idx);
            if filtered {
                load_unit_from_block_filtered(&mut block, cargo, capacity, allowed);
            } else {
                load_unit_from_block(&mut block, cargo, capacity);
            }
            blocks.entries.insert(idx, (h, block));
            proof {
                lemma_wf_bounds(cargo@, 0);
                assert(blocks.entries@ =~= ent0.update(idx as int, (h, block)));
                assert(blocks.view_entries() =~= v0.update(idx as int, (hex, with_stored(v0[idx as int].1, block.stored@))));
                lemma_update_wf(v0, idx as int, block.stored@);
                lemma_kind_total_update(v0, idx as int, block.stored@);
            }
        },
        None => {},
    }
}

/// At the block on `hex`, if any, unloads `cargo` as far as the block has
/// room.
fn unload_at(blocks: &mut BlockMap, hex: Axial, cargo: &mut Vec<ItemStack>)
    requires
        old(blocks).wf(),
        stacks_wf(old(cargo)@),
        blocks_total(old(blocks).view_entries()) + stacks_total(old(cargo)@) <= i32::MAX,
    ensures
        final(blocks).wf(),
        stacks_wf(final(cargo)@),
        exchanged(old(blocks).view_entries(), final(blocks).view_entries(), old(cargo)@, final(cargo)@, hex),
        ({
            let v = old(blocks).view_entries();
            let i = index_of(v, hex);
            &&& i < 0 ==> final(blocks).view_entries() == v && final(cargo)@ == old(cargo)@
            &&& i >= 0 ==> final(cargo)@ == drain(old(cargo)@, v[i].1.capacity - stacks_total(v[i].1.stored), None)
            &&& i >= 0 ==> final(blocks).view_entries()[i].1.stored == fill(v[i].1.stored,
                moved(old(cargo)@, v[i].1.capacity - stacks_total(v[i].1.stored), None))
        }),
{
    let ghost v0 = blocks.view_entries();
    proof {
        lemma_index_of(v0, hex);
    }
    match blocks.find(hex) {
        Some(idx) => {
            let ghost ent0 = blocks.entries@;
            proof {
                assert(v0[idx as int].1 == ent0[idx as int].1@);
                assert(stacks_wf(v0[idx as int].1.stored));
                lemma_wf_bounds(v0[idx as int].1.stored, 0);
                crate::sector::lemma_blocks_total_bounds(v0, idx as int);
            }
            let (h, mut block) = blocks.entries.remove(idx);
            unload_unit_to_block(cargo, &mut block);
            blocks.entries.insert(idx, (h, block));
            proof {
                lemma_wf_bounds(cargo@, 0);
                assert(blocks.entries@ =~= ent0.update(idx as int, (h, block)));
                assert(blocks.view_entries() =~= v0.update(idx as int, (hex, with_stored(v0[idx as int].1, block.stored@))));
                lemma_update_wf(v0, idx as int, block.stored@);
                lemma_kind_total_update(v0, idx as int, block.stored@);
            }
        },
        None => {},
    }
}

/// Two exchanges in a row are an exchange.
proof fn lemma_exchanged_trans(
    v0: Seq<(Axial, BlockView)>,
    v1: Seq<(Axial, BlockView)>,
    v2: Seq<(Axial, BlockView)>,
    c0: Seq<ItemStack>,
    c1: Seq<ItemStack>,
    c2: Seq<ItemStack>,
    hex: Axial,
)
    requires
        exchanged(v0, v1, c0, c1, hex),
        exchanged(v1, v2, c1, c2, hex),
    ensures
        exchanged(v0, v2, c0, c2, hex),
{
    assert forall|j: int| 0 <= j < v0.len() implies (#[trigger] v2[j]).0 == v0[j].0 && v2[j].1 == with_stored(v0[j].1, v2[j].1.stored) by {
        assert(v1[j].0 == v0[j].0 && v1[j].1 == with_stored(v0[j].1, v1[j].1.stored));
    }
    assert forall|j: int| 0 <= j < v0.len() && v0[j].0 != hex implies #[trigger] v2[j] == v0[j] by {
        assert(v1[j] == v0[j]);
    }
    assert forall|k: ItemType| #[trigger] kind_total(v2, k) + kind_amount(c2, k) == kind_total(v0, k) + kind_amount(c0, k) by {
        assert(kind_total(v1, k) + kind_amount(c1, k) == kind_total(v0, k) + kind_amount(c0, k));
    }
}

/// One step of a unit that has a path of at least two hexes: it moves one
/// hex along its path, turning round at the ends; arriving at its loading
/// station it loads from the block there as much as its capacity allows
/// (only its supply kinds for a supply unit), and arriving at its unloading
/// station it unloads into the block there as much as that block has room
/// for. Items are only moved between the unit and the blocks, never made or
/// lost.
#[verifier::spinoff_prover]
pub fn step_unit(unit: &mut Unit, blocks: &mut BlockMap)
    requires
        old(blocks).wf(),
        stacks_wf(old(unit).cargo@),
        old(unit).path@.len() >= 2 ==> old(unit).index < old(unit).path@.len(),
        old(unit).capacity - stacks_total(old(unit).cargo@) >= i32::MIN,
        blocks_total(old(blocks).view_entries()) + stacks_total(old(unit).cargo@) <= i32::MAX,
    ensures
        final(blocks).wf(),
        stacks_wf(final(unit).cargo@),
        final(unit).path@ == old(unit).path@,
        final(unit).capacity == old(unit).capacity,
        final(unit).depot == old(unit).depot,
        final(unit).station_in == old(unit).station_in,
        final(unit).station_out == old(unit).station_out,
        final(unit).auto_supply == old(unit).auto_supply,
        final(unit).supply_types@ == old(unit).supply_types@,
        old(unit).path@.len() < 2 ==> {
            &&& final(unit).index == old(unit).index
            &&& final(unit).forward == old(unit).forward
            &&& final(unit).cargo@ == old(unit).cargo@
            &&& final(blocks).view_entries() == old(blocks).view_entries()
        },
        old(unit).path@.len() >= 2 ==> {
            let v = old(blocks).view_entries();
            let arrived = old(unit).path@[final(unit).index as int];
            let i = index_of(v, arrived);
            &&& (final(unit).index as int, final(unit).forward) == spec_advance(old(unit).index as int, old(unit).forward, old(unit).path@.len() as int)
            &&& exchanged(v, final(blocks).view_entries(), old(unit).cargo@, final(unit).cargo@, arrived)
            &&& (i < 0 || (arrived != old(unit).station_in && arrived != old(unit).station_out)) ==> {
                &&& final(blocks).view_entries() == v
                &&& final(unit).cargo@ == old(unit).cargo@
            }
            &&& (i >= 0 && arrived == old(unit).station_in && arrived != old(unit).station_out) ==> {
                &&& final(blocks).view_entries()[i].1.stored == drain(v[i].1.stored,
                    old(unit).capacity - stacks_total(old(unit).cargo@), load_filter(*old(unit)))
                &&& final(unit).cargo@ == fill(old(unit).cargo@, moved(v[i].1.stored,
                    old(unit).capacity - stacks_total(old(unit).cargo@), load_filter(*old(unit))))
            }
            &&& (i >= 0 && arrived == old(unit).station_in && arrived == old(unit).station_out) ==> {
                let t = old(unit).capacity - stacks_total(old(unit).cargo@);
                let s1 = drain(v[i].1.stored, t, load_filter(*old(unit)));
                let c1 = fill(old(unit).cargo@, moved(v[i].1.stored, t, load_filter(*old(unit))));
                let room = v[i].1.capacity - stacks_total(s1);
                &&& final(unit).cargo@ == drain(c1, room, None)
                &&& final(blocks).view_entries()[i].1.stored == fill(s1, moved(c1, room, None))
            }
            &&& (i >= 0 && arrived == old(unit).station_out && arrived != old(unit).station_in) ==> {
                &&& final(unit).cargo@ == drain(old(unit).cargo@, v[i].1.capacity - stacks_total(v[i].1.stored), None)
                &&& final(blocks).view_entries()[i].1.stored == fill(v[i].1.stored,
                    moved(old(unit).cargo@, v[i].1.capacity - stacks_total(v[i].1.stored), None))
            }
        },
{
    if unit.path.len() < 2 {
        return;
    }
    let ghost v0 = blocks.view_entries();
    let ghost c0 = unit.cargo@;
    let (ni, nf) = advance_index(unit.index, unit.forward, unit.path.len());
    unit.index = ni;
    unit.forward = nf;
    let arrived = unit.path[ni];
    let station_in = unit.station_in;
    let station_out = unit.station_out;
    let capacity = unit.capacity;
    let filtered = unit.auto_supply;
    if arrived == station_in {
        load_at(blocks, arrived, &mut unit.cargo, capacity, filtered, unit.supply_types.as_slice());
    }
    let ghost v1 = blocks.view_entries();
    let ghost c1 = unit.cargo@;
    proof {
        if index_of(v0, arrived) >= 0 {
            assert forall|j: int| 0 <= j < v0.len() implies (#[trigger] v0[j]).0 == v1[j].0 by {}
            crate::supply::lemma_index_of_same_keys(v0, v1, arrived);
        }
    }
    if arrived == station_out {
        unload_at(blocks, arrived, &mut unit.cargo);
    }
    proof {
        let v2 = blocks.view_entries();
        if arrived == station_in && arrived == station_out {
            lemma_exchanged_trans(v0, v1, v2, c0, c1, unit.cargo@, arrived);
            lemma_index_of(v0, arrived);
            if index_of(v0, arrived) >= 0 {
                let i = index_of(v0, arrived);
                assert(index_of(v1, arrived) == i);
                assert(v1[i].1 == with_stored(v0[i].1, v1[i].1.stored));
                assert(v1[i].1.capacity == v0[i].1.capacity);
            }
        }
        if filtered && unit.supply_types@.len() == 0 && index_of(v0, arrived) >= 0 {
            lemma_drain_nothing_passes(v0[index_of(v0, arrived)].1.stored, capacity - stacks_total(c0), unit.supply_types@);
        }
    }
}

} // verus!
