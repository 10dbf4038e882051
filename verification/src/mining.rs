//! Mines on the sector map: resource tiles, the hexes a mine works, growing
//! a mine over matching neighbours, and one unit of mining.

use vstd::prelude::*;
use crate::hex::{Axial, axial_neighbors, in_step_range, neighbor_of};
use crate::sector::{PlacedBlock, TileData, TileType, spec_item_from_tile, item_from_tile, with_stored};
use crate::storage::{ItemType, add_item, stacks_wf, stacks_add, accepted, stacks_total};

verus! {

/// The resource tiles of a sector map. When a hex appears more than once,
/// its first entry counts.
pub struct TileMap {
    pub entries: Vec<(Axial, TileData)>,
}

/// The position of the first entry for `h`, or -1.
pub open spec fn tile_pos(v: Seq<(Axial, TileData)>, h: Axial) -> int
    decreases v.len(),
{
    if v.len() == 0 {
        -1
    } else if v[0].0 == h {
        0
    } else {
        let p = tile_pos(v.drop_first(), h);
        if p < 0 { -1 } else { p + 1 }
    }
}

/// The tile on `h`, if any.
pub open spec fn tile_at(v: Seq<(Axial, TileData)>, h: Axial) -> Option<TileData> {
    if tile_pos(v, h) >= 0 { Some(v[tile_pos(v, h)].1) } else { None }
}

/// `tile_pos` is the first position holding `h`.
pub proof fn lemma_tile_pos(v: Seq<(Axial, TileData)>, h: Axial)
    ensures
        -1 <= tile_pos(v, h) < v.len(),
        tile_pos(v, h) >= 0 ==> v[tile_pos(v, h)].0 == h,
        forall|j: int| 0 <= j < v.len() && (tile_pos(v, h) < 0 || j < tile_pos(v, h)) ==> #[trigger] v[j].0 != h,
    decreases v.len(),
{
    if v.len() > 0 && v[0].0 != h {
        let d = v.drop_first();
        lemma_tile_pos(d, h);
        assert forall|j: int| 0 <= j < v.len() && (tile_pos(v, h) < 0 || j < tile_pos(v, h)) implies #[trigger] v[j].0 != h by {
            if j > 0 {
                assert(v[j] == d[j - 1]);
            }
        }
    }
}

/// Any position holding `h` with no earlier one is `tile_pos`.
proof fn lemma_tile_pos_first(v: Seq<(Axial, TileData)>, h: Axial, p: int)
    requires
        0 <= p < v.len(),
        v[p].0 == h,
        forall|j: int| 0 <= j < p ==> #[trigger] v[j].0 != h,
    ensures
        tile_pos(v, h) == p,
{
    lemma_tile_pos(v, h);
}

impl TileMap {
    /// The tiles as (hex, tile) pairs.
    pub open spec fn view_entries(&self) -> Seq<(Axial, TileData)> {
        self.entries@
    }

    /// The position of the tile on `hex`, if any.
    pub fn find(&self, hex: Axial) -> (idx: Option<usize>)
        ensures
            idx is None <==> tile_pos(self.entries@, hex) < 0,
            idx matches Some(i) ==> i == tile_pos(self.entries@, hex),
    {
        proof {
            lemma_tile_pos(self.entries@, hex);
        }
        let mut i: usize = 0;
        while i < self.entries.len()
            invariant
                i <= self.entries.len(),
                forall|j: int| 0 <= j < i ==> #[trigger] self.entries@[j].0 != hex,
            decreases self.entries.len() - i,
        {
            if self.entries[i].0 == hex {
                proof {
                    lemma_tile_pos_first(self.entries@, hex, i as int);
                }
                return Some(i);
            }
            i = i + 1;
        }
        None
    }

    /// The tile on `hex`, if any.
    pub fn get(&self, hex: Axial) -> (t: Option<TileData>)
        ensures
            t == tile_at(self.entries@, hex),
    {
        proof {
            lemma_tile_pos(self.entries@, hex);
        }
        match self.find(hex) {
            Some(i) => Some(self.entries[i].1),
            None => None,
        }
    }
}

/// Whether a mine may be built on a tile: an ore tile (not water) with
/// something left.
pub open spec fn spec_tile_can_be_mined(t: Option<TileData>) -> bool {
    match t {
        Some(tile) => tile.kind != TileType::Water && tile.amount > 0,
        None => false,
    }
}

/// Whether a mine may be built on a tile: an ore tile (not water) with
/// something left.
pub fn tile_can_be_mined(t: Option<TileData>) -> (res: bool)
    ensures
        res == spec_tile_can_be_mined(t),
{
    match t {
        Some(tile) => {
            let ore = match tile.kind {
                TileType::Water => false,
                _ => true,
            };
            ore && tile.amount > 0
        },
        None => false,
    }
}

/// The hexes a mine works: its own, then its extra hexes in order.
pub open spec fn spec_mine_targets(hex: Axial, b: Seq<Axial>) -> Seq<Axial> {
    seq![hex] + b
}

/// The hexes a mine on `hex` works: its own, then its extra hexes.
pub fn mine_targets(hex: Axial, block: &PlacedBlock) -> (targets: Vec<Axial>)
    requires
        block.mine_extra@.len() + 1 <= usize::MAX,
    ensures
        targets@ == spec_mine_targets(hex, block.mine_extra@),
{
    let mut targets: Vec<Axial> = Vec::with_capacity(1 + block.mine_extra.len());
    targets.push(hex);
    let mut i: usize = 0;
    while i < block.mine_extra.len()
        invariant
            i <= block.mine_extra.len(),
            targets@ =~= seq![hex] + block.mine_extra@.take(i as int),
        decreases block.mine_extra.len() - i,
    {
        targets.push(block.mine_extra[i]);
        i = i + 1;
    }
    assert(block.mine_extra@.take(i as int) =~= block.mine_extra@);
    targets
}

/// What is left on the tiles of the given hexes, a hex without a tile
/// counting nothing and a hex listed twice counting twice.
pub open spec fn tiles_sum(t: Seq<(Axial, TileData)>, hs: Seq<Axial>) -> int
    decreases hs.len(),
{
    if hs.len() == 0 {
        0
    } else {
        tiles_sum(t, hs.drop_last()) + match tile_at(t, hs.last()) {
            Some(tile) => tile.amount as int,
            None => 0,
        }
    }
}

/// Every partial sum over the hexes fits in an `i32`.
pub open spec fn sums_fit(t: Seq<(Axial, TileData)>, hs: Seq<Axial>) -> bool {
    forall|k: int| 0 <= k <= hs.len() ==> i32::MIN <= #[trigger] tiles_sum(t, hs.take(k)) <= i32::MAX
}

/// What is left on the tiles a mine on `hex` works.
pub fn mine_total_remaining(hex: Axial, block: &PlacedBlock, tiles: &TileMap) -> (total: i32)
    requires
        block.mine_extra@.len() + 1 <= usize::MAX,
        sums_fit(tiles.entries@, spec_mine_targets(hex, block.mine_extra@)),
    ensures
        total == tiles_sum(tiles.entries@, spec_mine_targets(hex, block.mine_extra@)),
{
    let targets = mine_targets(hex, block);
    let ghost hs = targets@;
    let mut total: i32 = 0;
    let mut i: usize = 0;
    while i < targets.len()
        invariant
            i <= targets.len(),
            hs == targets@,
            sums_fit(tiles.entries@, hs),
            total == tiles_sum(tiles.entries@, hs.take(i as int)),
        decreases targets.len() - i,
    {
        proof {
            assert(hs.take(i + 1).drop_last() =~= hs.take(i as int));
            assert(hs.take(i + 1).last() == hs[i as int]);
            assert(i32::MIN <= tiles_sum(tiles.entries@, hs.take(i + 1)) <= i32::MAX);
        }
        match tiles.get(targets[i]) {
            Some(tile) => {
                total = total + tile.amount;
            },
            None => {},
        }
        i = i + 1;
    }
    assert(hs.take(i as int) =~= hs);
    total
}

} // verus!

verus! {

/// The same block with other extra mine hexes.
pub open spec fn with_extra(b: crate::sector::BlockView, e: Seq<Axial>) -> crate::sector::BlockView {
    crate::sector::BlockView { mine_extra: e, ..b }
}

/// The tile on `n` is of the given kind.
pub open spec fn tile_is(t: Seq<(Axial, TileData)>, n: Axial, kind: TileType) -> bool {
    tile_at(t, n) matches Some(x) && x.kind == kind
}

/// The neighbours of `e` in the first `k` directions that are not yet
/// worked and carry a tile of the given kind, in direction order.
pub open spec fn nb_cands(t: Seq<(Axial, TileData)>, existing: Seq<Axial>, kind: TileType, e: Axial, k: nat) -> Seq<Axial>
    decreases k,
{
    if k == 0 {
        Seq::empty()
    } else {
        let p = nb_cands(t, existing, kind, e, (k - 1) as nat);
        let n = neighbor_of(e, k - 1);
        if !existing.contains(n) && tile_is(t, n, kind) { p.push(n) } else { p }
    }
}

/// The candidates around each worked hex of `es` in turn.
pub open spec fn all_cands(t: Seq<(Axial, TileData)>, existing: Seq<Axial>, kind: TileType, es: Seq<Axial>) -> Seq<Axial>
    decreases es.len(),
{
    if es.len() == 0 {
        Seq::empty()
    } else {
        all_cands(t, existing, kind, es.drop_last()) + nb_cands(t, existing, kind, es.last(), 6)
    }
}

/// The hexes of `xs` not in `seen`, each once, in order of first appearance.
pub open spec fn fresh(seen: Seq<Axial>, xs: Seq<Axial>) -> Seq<Axial>
    decreases xs.len(),
{
    if xs.len() == 0 {
        Seq::empty()
    } else {
        let a = fresh(seen, xs.drop_last());
        if seen.contains(xs.last()) || a.contains(xs.last()) { a } else { a.push(xs.last()) }
    }
}

/// The hexes a mine on `hex` grows over: the not yet worked neighbours of
/// its worked hexes whose tile matches the tile under the mine, each once.
pub open spec fn spec_mine_growth(hex: Axial, extra: Seq<Axial>, t: Seq<(Axial, TileData)>) -> Seq<Axial> {
    match tile_at(t, hex) {
        None => Seq::empty(),
        Some(base) => {
            let e = spec_mine_targets(hex, extra);
            fresh(e, all_cands(t, e, base.kind, e))
        },
    }
}

/// Whether a list of hexes holds `h`.
pub fn contains_axial(v: &Vec<Axial>, h: Axial) -> (res: bool)
    ensures
        res == v@.contains(h),
{
    let mut i: usize = 0;
    while i < v.len()
        invariant
            i <= v.len(),
            forall|j: int| 0 <= j < i ==> v@[j] != h,
        decreases v.len() - i,
    {
        if v[i] == h {
            assert(v@[i as int] == h);
            return true;
        }
        i = i + 1;
    }
    false
}

/// Grows a mine on `hex` over the matching neighbours of the hexes it works
/// (its own and its extra hexes): each neighbour not yet worked whose tile
/// is of the kind under the mine is appended to the extra hexes once.
/// Returns whether any hex was added; a mine off the tiles does not grow.
#[verifier::spinoff_prover]
pub fn expand_mine_area(hex: Axial, block: &mut PlacedBlock, tiles: &TileMap) -> (added: bool)
    requires
        old(block).mine_extra@.len() + 1 <= usize::MAX,
        forall|j: int| 0 <= j < spec_mine_targets(hex, old(block).mine_extra@).len()
            ==> in_step_range(#[trigger] spec_mine_targets(hex, old(block).mine_extra@)[j]),
    ensures
        final(block)@ == with_extra(old(block)@, old(block).mine_extra@ + spec_mine_growth(hex, old(block).mine_extra@, tiles.entries@)),
        added == (spec_mine_growth(hex, old(block).mine_extra@, tiles.entries@).len() > 0),
{
    let ghost t = tiles.entries@;
    let ghost extra0 = block.mine_extra@;
    let base = match tiles.get(hex) {
        Some(tile) => tile,
        None => {
            assert(old(block).mine_extra@ + Seq::<Axial>::empty() =~= old(block).mine_extra@);
            return false;
        },
    };
    let existing = mine_targets(hex, block);
    let ghost e = existing@;
    let mut to_add: Vec<Axial> = Vec::new();
    let mut i: usize = 0;
    while i < existing.len()
        invariant
            i <= existing.len(),
            e == existing@,
            t == tiles.entries@,
            forall|j: int| 0 <= j < e.len() ==> in_step_range(#[trigger] e[j]),
            to_add@ == all_cands(t, e, base.kind, e.take(i as int)),
        decreases existing.len() - i,
    {
        let cur = existing[i];
        let nbs = axial_neighbors(cur);
        proof {
            assert(e.take(i + 1).drop_last() =~= e.take(i as int));
            assert(e.take(i + 1).last() == cur);
        }
        let ghost before = to_add@;
        let mut k: usize = 0;
        while k < 6
            invariant
                k <= 6,
                t == tiles.entries@,
                e == existing@,
                forall|m: int| 0 <= m < 6 ==> #[trigger] nbs[m] == neighbor_of(cur, m),
                to_add@ == before + nb_cands(t, e, base.kind, cur, k as nat),
            decreases 6 - k,
        {
            let n = nbs[k];
            if !contains_axial(&existing, n) {
                match tiles.get(n) {
                    Some(tile) => {
                        if tile.kind == base.kind {
                            to_add.push(n);
                        }
                    },
                    None => {},
                }
            }
            proof {
                assert(to_add@ =~= before + nb_cands(t, e, base.kind, cur, (k + 1) as nat));
            }
            k = k + 1;
        }
        i = i + 1;
    }
    assert(e.take(i as int) =~= e);
    let ghost cands = to_add@;
    let mut added = false;
    let mut j: usize = 0;
    while j < to_add.len()
        invariant
            j <= to_add.len(),
            cands == to_add@,
            e == seq![hex] + extra0,
            block.mine_extra@ == extra0 + fresh(e, cands.take(j as int)),
            block@ == with_extra(old(block)@, block.mine_extra@),
            added == (fresh(e, cands.take(j as int)).len() > 0),
        decreases to_add.len() - j,
    {
        let h = to_add[j];
        proof {
            assert(cands.take(j + 1).drop_last() =~= cands.take(j as int));
            assert(cands.take(j + 1).last() == h);
            let a = fresh(e, cands.take(j as int));
            assert(e.contains(h) || a.contains(h) <==> (h == hex || block.mine_extra@.contains(h))) by {
                if e.contains(h) {
                    let m = choose|m: int| 0 <= m < e.len() && e[m] == h;
                    if m > 0 {
                        assert(block.mine_extra@[m - 1] == h);
                    }
                }
                if a.contains(h) {
                    let m = choose|m: int| 0 <= m < a.len() && a[m] == h;
                    assert(block.mine_extra@[extra0.len() + m] == h);
                }
                if h == hex {
                    assert(e[0] == h);
                }
                if block.mine_extra@.contains(h) {
                    let m = choose|m: int| 0 <= m < block.mine_extra@.len() && block.mine_extra@[m] == h;
                    if m < extra0.len() {
                        assert(e[m + 1] == h);
                    } else {
                        assert(a[m - extra0.len()] == h);
                    }
                }
            }
        }
        if !(h == hex) && !contains_axial(&block.mine_extra, h) {
            block.mine_extra.push(h);
            added = true;
        }
        j = j + 1;
    }
    assert(cands.take(j as int) =~= cands);
    added
}

} // verus!

verus! {

/// `n` is a neighbour of some hex of `es`.
pub open spec fn touches(es: Seq<Axial>, n: Axial) -> bool {
    exists|e: Axial, i: int| #![trigger es.contains(e), neighbor_of(e, i)] es.contains(e) && 0 <= i < 6 && n == neighbor_of(e, i)
}

proof fn lemma_nb_cands(t: Seq<(Axial, TileData)>, existing: Seq<Axial>, kind: TileType, e: Axial, k: nat)
    ensures
        forall|n: Axial| #[trigger] nb_cands(t, existing, kind, e, k).contains(n) <==> (!existing.contains(n)
            && tile_is(t, n, kind) && exists|i: int| 0 <= i < k && n == #[trigger] neighbor_of(e, i)),
    decreases k,
{
    if k > 0 {
        let km = (k - 1) as nat;
        lemma_nb_cands(t, existing, kind, e, km);
        let p = nb_cands(t, existing, kind, e, km);
        let m = neighbor_of(e, k - 1);
        let c = nb_cands(t, existing, kind, e, k);
        assert forall|n: Axial| #[trigger] c.contains(n) <==> (!existing.contains(n)
            && tile_is(t, n, kind) && exists|i: int| 0 <= i < k && n == #[trigger] neighbor_of(e, i)) by {
            if !existing.contains(m) && tile_is(t, m, kind) {
                assert(c == p.push(m));
                assert(c.contains(n) <==> (p.contains(n) || n == m)) by {
                    if c.contains(n) {
                        let j = choose|j: int| 0 <= j < c.len() && c[j] == n;
                        if j < p.len() {
                            assert(p[j] == n);
                        }
                    }
                    if p.contains(n) {
                        let j = choose|j: int| 0 <= j < p.len() && p[j] == n;
                        assert(c[j] == n);
                    }
                    if n == m {
                        assert(c[p.len() as int] == n);
                    }
                }
            }
            if exists|i: int| 0 <= i < k && n == #[trigger] neighbor_of(e, i) {
                let i = choose|i: int| 0 <= i < k && n == #[trigger] neighbor_of(e, i);
                if i < k - 1 {
                    assert(exists|i2: int| 0 <= i2 < km && n == #[trigger] neighbor_of(e, i2));
                }
            }
            if n == m {
                assert(exists|i: int| 0 <= i < k && n == #[trigger] neighbor_of(e, i)) by {
                    assert(n == neighbor_of(e, k - 1));
                }
            }
        }
    }
}

proof fn lemma_all_cands(t: Seq<(Axial, TileData)>, existing: Seq<Axial>, kind: TileType, es: Seq<Axial>)
    ensures
        forall|n: Axial| #[trigger] all_cands(t, existing, kind, es).contains(n) <==> (!existing.contains(n)
            && tile_is(t, n, kind) && touches(es, n)),
    decreases es.len(),
{
    if es.len() > 0 {
        let d = es.drop_last();
        let x = es.last();
        lemma_all_cands(t, existing, kind, d);
        lemma_nb_cands(t, existing, kind, x, 6);
        let a = all_cands(t, existing, kind, d);
        let b = nb_cands(t, existing, kind, x, 6);
        let c = all_cands(t, existing, kind, es);
        assert(c == a + b);
        assert forall|n: Axial| #[trigger] c.contains(n) <==> (!existing.contains(n) && tile_is(t, n, kind) && touches(es, n)) by {
            assert(c.contains(n) <==> (a.contains(n) || b.contains(n))) by {
                if c.contains(n) {
                    let j = choose|j: int| 0 <= j < c.len() && c[j] == n;
                    if j < a.len() {
                        assert(a[j] == n);
                    } else {
                        assert(b[j - a.len()] == n);
                    }
                }
                if a.contains(n) {
                    let j = choose|j: int| 0 <= j < a.len() && a[j] == n;
                    assert(c[j] == n);
                }
                if b.contains(n) {
                    let j = choose|j: int| 0 <= j < b.len() && b[j] == n;
                    assert(c[a.len() + j] == n);
                }
            }
            assert(es.contains(x)) by {
                assert(es[es.len() - 1] == x);
            }
            if touches(d, n) {
                let (e, i) = choose|e: Axial, i: int| #![trigger d.contains(e), neighbor_of(e, i)] d.contains(e) && 0 <= i < 6 && n == neighbor_of(e, i);
                let j = choose|j: int| 0 <= j < d.len() && d[j] == e;
                assert(es[j] == e);
                assert(es.contains(e));
                assert(touches(es, n));
            }
            if exists|i: int| 0 <= i < 6 && n == #[trigger] neighbor_of(x, i) {
                let i = choose|i: int| 0 <= i < 6 && n == #[trigger] neighbor_of(x, i);
                assert(es.contains(x));
                assert(touches(es, n));
            }
            if touches(es, n) {
                let (e, i) = choose|e: Axial, i: int| #![trigger es.contains(e), neighbor_of(e, i)] es.contains(e) && 0 <= i < 6 && n == neighbor_of(e, i);
                let j = choose|j: int| 0 <= j < es.len() && es[j] == e;
                if j < d.len() {
                    assert(d[j] == e);
                    assert(d.contains(e));
                    assert(touches(d, n));
                } else {
                    assert(e == x);
                    assert(exists|i2: int| 0 <= i2 < 6 && n == #[trigger] neighbor_of(x, i2));
                }
            }
        }
    }
}

proof fn lemma_fresh(seen: Seq<Axial>, xs: Seq<Axial>)
    ensures
        fresh(seen, xs).no_duplicates(),
        forall|n: Axial| #[trigger] fresh(seen, xs).contains(n) <==> (xs.contains(n) && !seen.contains(n)),
    decreases xs.len(),
{
    if xs.len() > 0 {
        let d = xs.drop_last();
        let x = xs.last();
        lemma_fresh(seen, d);
        let a = fresh(seen, d);
        assert forall|n: Axial| xs.contains(n) <==> (d.contains(n) || n == x) by {
            if xs.contains(n) {
                let j = choose|j: int| 0 <= j < xs.len() && xs[j] == n;
                if j < d.len() {
                    assert(d[j] == n);
                }
            }
            if d.contains(n) {
                let j = choose|j: int| 0 <= j < d.len() && d[j] == n;
                assert(xs[j] == n);
            }
            if n == x {
                assert(xs[xs.len() - 1] == n);
            }
        }
        if !(seen.contains(x) || a.contains(x)) {
            let c = a.push(x);
            assert forall|n: Axial| c.contains(n) <==> (a.contains(n) || n == x) by {
                if c.contains(n) {
                    let j = choose|j: int| 0 <= j < c.len() && c[j] == n;
                    if j < a.len() {
                        assert(a[j] == n);
                    }
                }
                if a.contains(n) {
                    let j = choose|j: int| 0 <= j < a.len() && a[j] == n;
                    assert(c[j] == n);
                }
                if n == x {
                    assert(c[a.len() as int] == n);
                }
            }
            assert forall|i: int, j: int| 0 <= i < c.len() && 0 <= j < c.len() && i != j implies c[i] != c[j] by {
                if j == a.len() {
                    assert(a.contains(c[i]));
                } else if i == a.len() {
                    assert(a.contains(c[j]));
                }
            }
        }
    }
}

/// A mine grows over exactly the not yet worked neighbours of the hexes it
/// works whose tile matches the tile under the mine, each once; a mine off
/// the tiles does not grow.
pub proof fn lemma_mine_growth(hex: Axial, extra: Seq<Axial>, t: Seq<(Axial, TileData)>)
    ensures
        spec_mine_growth(hex, extra, t).no_duplicates(),
        forall|n: Axial| #[trigger] spec_mine_growth(hex, extra, t).contains(n) <==> (tile_at(t, hex) is Some
            && !spec_mine_targets(hex, extra).contains(n)
            && tile_is(t, n, tile_at(t, hex).unwrap().kind)
            && touches(spec_mine_targets(hex, extra), n)),
{
    match tile_at(t, hex) {
        None => {},
        Some(base) => {
            let e = spec_mine_targets(hex, extra);
            lemma_all_cands(t, e, base.kind, e);
            lemma_fresh(e, all_cands(t, e, base.kind, e));
        },
    }
}

} // verus!

verus! {

/// The first of the hexes whose tile still has something left.
pub open spec fn first_workable(t: Seq<(Axial, TileData)>, hs: Seq<Axial>) -> Option<Axial>
    decreases hs.len(),
{
    if hs.len() == 0 {
        None
    } else if tile_at(t, hs[0]) matches Some(x) && x.amount > 0 {
        Some(hs[0])
    } else {
        first_workable(t, hs.drop_first())
    }
}

/// The hex found has a tile with something left.
proof fn lemma_first_workable(t: Seq<(Axial, TileData)>, hs: Seq<Axial>)
    ensures
        first_workable(t, hs) matches Some(h) ==> (tile_at(t, h) matches Some(x) && x.amount > 0),
    decreases hs.len(),
{
    if hs.len() > 0 {
        lemma_first_workable(t, hs.drop_first());
    }
}

/// A mine's store after `a` units (none or one) of a tile's resource go in:
/// the resource, and for ore twice as much gangue as room allows.
pub open spec fn mined_store(s: Seq<crate::storage::ItemStack>, kind: TileType, a: int, cap: int) -> Seq<crate::storage::ItemStack> {
    if a <= 0 {
        s
    } else {
        let s1 = stacks_add(s, spec_item_from_tile(kind), a);
        if kind == TileType::Water {
            s1
        } else {
            let g = accepted(stacks_total(s1), 2 * a, cap);
            if g > 0 { stacks_add(s1, ItemType::Gangue, g) } else { s1 }
        }
    }
}

/// The tiles after `a` units are mined from the tile on `h`.
pub open spec fn mined_tiles(t: Seq<(Axial, TileData)>, h: Axial, a: int) -> Seq<(Axial, TileData)> {
    if a > 0 {
        let p = tile_pos(t, h);
        t.update(p, (h, TileData { kind: t[p].1.kind, amount: (t[p].1.amount - a) as i32 }))
    } else {
        t
    }
}

/// The position of the first tile among `targets` with something left.
fn first_workable_pos(targets: &Vec<Axial>, tiles: &TileMap) -> (res: Option<usize>)
    ensures
        match first_workable(tiles.entries@, targets@) {
            None => res is None,
            Some(h) => res is Some && res.unwrap() as int == tile_pos(tiles.entries@, h),
        },
{
    let mut i: usize = 0;
    proof {
        assert(targets@.skip(0) =~= targets@);
    }
    while i < targets.len()
        invariant
            i <= targets.len(),
            first_workable(tiles.entries@, targets@.skip(i as int)) == first_workable(tiles.entries@, targets@),
        decreases targets.len() - i,
    {
        let h = targets[i];
        proof {
            assert(targets@.skip(i as int)[0] == h);
            assert(targets@.skip(i as int).drop_first() =~= targets@.skip(i + 1));
            lemma_tile_pos(tiles.entries@, h);
        }
        match tiles.find(h) {
            Some(p) => {
                if tiles.entries[p].1.amount > 0 {
                    return Some(p);
                }
            },
            None => {},
        }
        i = i + 1;
    }
    proof {
        assert(targets@.skip(i as int) =~= Seq::<Axial>::empty());
    }
    None
}

/// One unit of mining for a mine on `hex`: the first hex it works whose
/// tile has something left gives one unit of its resource to the mine's
/// store if there is room, an ore tile also gives twice as much gangue as
/// room allows, and the tile loses what the store accepted. Returns how
/// many units were mined (0 when nothing is left or the store is full).
pub fn mine_step(hex: Axial, block: &mut PlacedBlock, tiles: &mut TileMap) -> (added: i32)
    requires
        stacks_wf(old(block).stored@),
        old(block).mine_extra@.len() + 1 <= usize::MAX,
    ensures
        stacks_wf(final(block).stored@),
        match first_workable(old(tiles).entries@, spec_mine_targets(hex, old(block).mine_extra@)) {
            None => {
                &&& added == 0
                &&& final(block)@ == old(block)@
                &&& final(tiles).entries@ == old(tiles).entries@
            },
            Some(h) => {
                let tile = tile_at(old(tiles).entries@, h).unwrap();
                let a = accepted(stacks_total(old(block).stored@), 1, old(block).capacity as int);
                &&& added == a
                &&& final(block)@ == with_stored(old(block)@, mined_store(old(block).stored@, tile.kind, a, old(block).capacity as int))
                &&& final(tiles).entries@ == mined_tiles(old(tiles).entries@, h, a)
            },
        },
{
    let targets = mine_targets(hex, block);
    let p = match first_workable_pos(&targets, tiles) {
        Some(p) => p,
        None => return 0,
    };
    let ghost h = first_workable(tiles.entries@, targets@).unwrap();
    proof {
        lemma_first_workable(tiles.entries@, targets@);
        lemma_tile_pos(tiles.entries@, h);
    }
    let (th, tile) = tiles.entries[p];
    let capacity = block.capacity;
    let added = add_item(&mut block.stored, item_from_tile(tile.kind), 1, capacity);
    if added <= 0 {
        return 0;
    }
    let is_water = match tile.kind {
        TileType::Water => true,
        _ => false,
    };
    if !is_water {
        let _ = add_item(&mut block.stored, ItemType::Gangue, added * 2, capacity);
    }
    tiles.entries.set(p, (th, TileData { kind: tile.kind, amount: tile.amount - added }));
    added
}

} // verus!

verus! {

/// A unit of mining moves resource from the tile to the mine: the mine's
/// store gains exactly the units the tile loses, of the tile's resource,
/// and for ore never more gangue than twice that.
pub proof fn lemma_mined_ore(s: Seq<crate::storage::ItemStack>, kind: TileType, cap: int, t: Seq<(Axial, TileData)>, h: Axial)
    requires
        forall|i: int| 0 <= i < s.len() ==> #[trigger] s[i].amount > 0,
        cap <= i32::MAX,
        tile_at(t, h) matches Some(x) && x.amount > 0,
    ensures
        ({
            let a = accepted(stacks_total(s), 1, cap);
            let s2 = mined_store(s, kind, a, cap);
            let item = spec_item_from_tile(kind);
            let p = tile_pos(t, h);
            &&& crate::storage::kind_amount(s2, item) == crate::storage::kind_amount(s, item) + a
            &&& crate::storage::kind_amount(s2, ItemType::Gangue) - crate::storage::kind_amount(s, ItemType::Gangue) <= 2 * a
            &&& mined_tiles(t, h, a)[p].1.amount == t[p].1.amount - a
            &&& mined_tiles(t, h, a)[p].1.kind == t[p].1.kind
        }),
{
    let a = accepted(stacks_total(s), 1, cap);
    lemma_tile_pos(t, h);
    crate::storage::lemma_wf_bounds(s, 0);
    if a > 0 {
        let item = spec_item_from_tile(kind);
        crate::storage::lemma_stacks_add(s, item, a);
        let s1 = stacks_add(s, item, a);
        if kind != TileType::Water {
            let g = accepted(stacks_total(s1), 2 * a, cap);
            if g > 0 {
                crate::storage::lemma_stacks_add(s1, ItemType::Gangue, g);
            }
        }
    }
}

} // verus!
