//! Construction supply on the sector map: what a building site can draw from
//! its own store and its finished neighbours, taking those materials, and
//! choosing where a supply run should load.

use vstd::prelude::*;
use crate::hex::{Axial, hex_dist, hex_distance, in_step_range, requirement_sources, spec_requirement_sources, lemma_requirement_sources_distinct};
use crate::sector::{
    BlockMap, BlockView, BuildBlockType, blocks_total, blocks_wf, index_of, keyed_total, keys_unique, lemma_index_of,
    lemma_keyed_total_bound, spec_is_under_construction, is_under_construction, with_stored,
};
use crate::storage::{ItemStack, ItemType, amount_of_kind, drain, kind_amount, lemma_drain_kind, lemma_wf_bounds, stacks_total, stacks_wf, take_kind};

verus! {

/// What the block on `h` offers of one kind to a building site at `target`:
/// the site's own store always, a neighbour's only once it is finished.
pub open spec fn near_term(v: Seq<(Axial, BlockView)>, h: Axial, target: Axial, kind: ItemType) -> int {
    let i = index_of(v, h);
    if i >= 0 && (h == target || !spec_is_under_construction(v[i].1)) {
        kind_amount(v[i].1.stored, kind)
    } else {
        0
    }
}

/// What the blocks on the hexes `hs` offer of one kind to a site at `target`.
pub open spec fn near_sum(v: Seq<(Axial, BlockView)>, hs: Seq<Axial>, target: Axial, kind: ItemType) -> int
    decreases hs.len(),
{
    if hs.len() == 0 {
        0
    } else {
        near_sum(v, hs.drop_last(), target, kind) + near_term(v, hs.last(), target, kind)
    }
}

/// Items of one kind a building site can draw on: its own store and its
/// finished neighbours.
pub open spec fn avail_near(v: Seq<(Axial, BlockView)>, target: Axial, kind: ItemType) -> int {
    near_sum(v, spec_requirement_sources(target), target, kind)
}

proof fn lemma_near_sum_cons(v: Seq<(Axial, BlockView)>, h: Axial, hs: Seq<Axial>, target: Axial)
    ensures
        forall|k: ItemType| #[trigger] near_sum(v, seq![h] + hs, target, k)
            == near_term(v, h, target, k) + near_sum(v, hs, target, k),
    decreases hs.len(),
{
    let xs = seq![h] + hs;
    if hs.len() > 0 {
        lemma_near_sum_cons(v, h, hs.drop_last(), target);
        assert(xs.drop_last() =~= seq![h] + hs.drop_last());
        assert(xs.last() == hs.last());
        assert forall|k: ItemType| #[trigger] near_sum(v, xs, target, k)
            == near_term(v, h, target, k) + near_sum(v, hs, target, k) by {
            assert(near_sum(v, seq![h] + hs.drop_last(), target, k)
                == near_term(v, h, target, k) + near_sum(v, hs.drop_last(), target, k));
        }
    } else {
        assert(xs.drop_last() =~= Seq::<Axial>::empty());
        assert(xs.last() == h);
        assert forall|k: ItemType| #[trigger] near_sum(v, xs, target, k)
            == near_term(v, h, target, k) + near_sum(v, hs, target, k) by {
            assert(near_sum(v, xs.drop_last(), target, k) == 0);
        }
    }
}

/// What a site can draw from distinct hexes is between zero and what the
/// blocks there hold in all.
pub proof fn lemma_near_sum_bounds(v: Seq<(Axial, BlockView)>, hs: Seq<Axial>, target: Axial)
    requires
        blocks_wf(v),
    ensures
        forall|k: ItemType| 0 <= #[trigger] near_sum(v, hs, target, k) <= keyed_total(v, hs),
        hs.no_duplicates() ==> keyed_total(v, hs) <= blocks_total(v),
    decreases hs.len(),
{
    if hs.no_duplicates() {
        lemma_keyed_total_bound(v, hs);
    }
    if hs.len() > 0 {
        let d = hs.drop_last();
        lemma_near_sum_bounds(v, d, target);
        let h = hs.last();
        lemma_index_of(v, h);
        let i = index_of(v, h);
        if i >= 0 {
            assert(stacks_wf(v[i].1.stored));
            lemma_wf_bounds(v[i].1.stored, 0);
        }
        assert forall|k: ItemType| 0 <= #[trigger] near_sum(v, hs, target, k) <= keyed_total(v, hs) by {
            assert(0 <= near_sum(v, d, target, k) <= keyed_total(v, d));
        }
    }
}

/// A prefix of a sequence without duplicates has none either.
proof fn lemma_take_no_duplicates(hs: Seq<Axial>, n: int)
    requires
        hs.no_duplicates(),
        0 <= n <= hs.len(),
    ensures
        hs.take(n).no_duplicates(),
{
    let p = hs.take(n);
    assert forall|i: int, j: int| 0 <= i < p.len() && 0 <= j < p.len() && i != j implies p[i] != p[j] by {
        assert(p[i] == hs[i] && p[j] == hs[j]);
    }
}

/// Items of one kind a building site at `target` can draw on: those in its
/// own store and in its finished neighbours.
pub fn available_item_amount_near(blocks: &BlockMap, target: Axial, kind: ItemType) -> (total: i32)
    requires
        blocks.wf(),
        in_step_range(target),
    ensures
        total == avail_near(blocks.view_entries(), target, kind),
{
    let ghost v = blocks.view_entries();
    let sources = requirement_sources(target);
    proof {
        lemma_requirement_sources_distinct(target);
    }
    let mut total: i32 = 0;
    let mut i: usize = 0;
    while i < sources.len()
        invariant
            i <= sources.len(),
            sources@ == spec_requirement_sources(target),
            sources@.no_duplicates(),
            v == blocks.view_entries(),
            blocks.wf(),
            total == near_sum(v, sources@.take(i as int), target, kind),
        decreases sources.len() - i,
    {
        let h = sources[i];
        proof {
            let p = sources@.take(i + 1);
            assert(p.drop_last() =~= sources@.take(i as int));
            assert(p.last() == h);
            lemma_take_no_duplicates(sources@, i + 1);
            lemma_near_sum_bounds(v, p, target);
            lemma_near_sum_bounds(v, sources@.take(i as int), target);
            lemma_index_of(v, h);
            if index_of(v, h) >= 0 {
                assert(stacks_wf(v[index_of(v, h)].1.stored));
                lemma_wf_bounds(v[index_of(v, h)].1.stored, 0);
            }
        }
        match blocks.get(h) {
            Some(b) => {
                if h == target || !is_under_construction(b) {
                    let amt = amount_of_kind(b.stored.as_slice(), kind);
                    total = total + amt;
                }
            },
            None => {},
        }
        i = i + 1;
    }
    assert(sources@.take(i as int) =~= sources@);
    total
}

/// Every requirement is covered by what the site can draw on.
pub open spec fn spec_has_requirements_near(v: Seq<(Axial, BlockView)>, target: Axial, reqs: Seq<ItemStack>) -> bool {
    forall|i: int| 0 <= i < reqs.len() ==> avail_near(v, target, #[trigger] reqs[i].kind) >= reqs[i].amount
}

/// Whether a building site at `target` can draw every requirement from its
/// own store and its finished neighbours.
pub fn has_requirements_near(blocks: &BlockMap, target: Axial, reqs: &[ItemStack]) -> (ok: bool)
    requires
        blocks.wf(),
        in_step_range(target),
    ensures
        ok == spec_has_requirements_near(blocks.view_entries(), target, reqs@),
{
    let mut i: usize = 0;
    while i < reqs.len()
        invariant
            i <= reqs.len(),
            blocks.wf(),
            in_step_range(target),
            forall|j: int| 0 <= j < i ==> avail_near(blocks.view_entries(), target, #[trigger] reqs@[j].kind) >= reqs@[j].amount,
        decreases reqs.len() - i,
    {
        let req = reqs[i];
        if available_item_amount_near(blocks, target, req.kind) < req.amount {
            return false;
        }
        i = i + 1;
    }
    true
}

/// The kinds of the requirements that the site cannot yet cover, in
/// requirement order.
pub open spec fn missing_kinds(v: Seq<(Axial, BlockView)>, target: Axial, reqs: Seq<ItemStack>) -> Seq<ItemType>
    decreases reqs.len(),
{
    if reqs.len() == 0 {
        Seq::empty()
    } else {
        let m = missing_kinds(v, target, reqs.drop_last());
        if avail_near(v, target, reqs.last().kind) < reqs.last().amount {
            m.push(reqs.last().kind)
        } else {
            m
        }
    }
}

/// The kinds of the requirements a building site at `target` cannot yet
/// cover from its own store and its finished neighbours.
pub fn missing_requirements_near(blocks: &BlockMap, target: Axial, reqs: &[ItemStack]) -> (missing: Vec<ItemType>)
    requires
        blocks.wf(),
        in_step_range(target),
    ensures
        missing@ == missing_kinds(blocks.view_entries(), target, reqs@),
{
    let mut missing: Vec<ItemType> = Vec::new();
    let mut i: usize = 0;
    while i < reqs.len()
        invariant
            i <= reqs.len(),
            blocks.wf(),
            in_step_range(target),
            missing@ == missing_kinds(blocks.view_entries(), target, reqs@.take(i as int)),
        decreases reqs.len() - i,
    {
        let req = reqs[i];
        proof {
            assert(reqs@.take(i + 1).drop_last() =~= reqs@.take(i as int));
            assert(reqs@.take(i + 1).last() == req);
        }
        let available = available_item_amount_near(blocks, target, req.kind);
        if available < req.amount {
            missing.push(req.kind);
        }
        i = i + 1;
    }
    assert(reqs@.take(i as int) =~= reqs@);
    missing
}

} // verus!

verus! {

/// The blocks after a site at `target` takes `r` items of one kind from the
/// hexes `hs` in turn: from its own store and from finished neighbours,
/// each store's stacks first to last.
pub open spec fn consume_one_near(
    v: Seq<(Axial, BlockView)>,
    hs: Seq<Axial>,
    target: Axial,
    kind: ItemType,
    r: int,
) -> Seq<(Axial, BlockView)>
    decreases hs.len(),
{
    if hs.len() == 0 || r <= 0 {
        v
    } else {
        let h = hs[0];
        let i = index_of(v, h);
        if i >= 0 && (h == target || !spec_is_under_construction(v[i].1)) {
            let s = v[i].1.stored;
            let d = drain(s, r, Some(seq![kind]));
            consume_one_near(
                v.update(i, (h, with_stored(v[i].1, d))),
                hs.drop_first(),
                target,
                kind,
                r - (stacks_total(s) - stacks_total(d)),
            )
        } else {
            consume_one_near(v, hs.drop_first(), target, kind, r)
        }
    }
}

/// The blocks after a site at `target` takes every requirement in turn.
pub open spec fn consume_all_near(v: Seq<(Axial, BlockView)>, target: Axial, reqs: Seq<ItemStack>) -> Seq<(Axial, BlockView)>
    decreases reqs.len(),
{
    if reqs.len() == 0 {
        v
    } else {
        consume_all_near(
            consume_one_near(v, spec_requirement_sources(target), target, reqs[0].kind, reqs[0].amount as int),
            target,
            reqs.drop_first(),
        )
    }
}

/// Two block lists with the same hexes in the same places find a hex at the
/// same position.
pub proof fn lemma_index_of_same_keys(v: Seq<(Axial, BlockView)>, w: Seq<(Axial, BlockView)>, h: Axial)
    requires
        v.len() == w.len(),
        forall|j: int| 0 <= j < v.len() ==> (#[trigger] v[j]).0 == w[j].0,
    ensures
        index_of(v, h) == index_of(w, h),
    decreases v.len(),
{
    if v.len() > 0 {
        let dv = v.drop_last();
        let dw = w.drop_last();
        assert forall|j: int| 0 <= j < dv.len() implies (#[trigger] dv[j]).0 == dw[j].0 by {
            assert(dv[j] == v[j] && dw[j] == w[j]);
        }
        assert(v.last().0 == v[v.len() - 1].0);
        lemma_index_of_same_keys(dv, dw, h);
    }
}

/// Replacing one block's store changes the grand total by the difference.
proof fn lemma_blocks_total_update(v: Seq<(Axial, BlockView)>, i: int, s: Seq<ItemStack>)
    requires
        0 <= i < v.len(),
    ensures
        blocks_total(v.update(i, (v[i].0, with_stored(v[i].1, s))))
            == blocks_total(v) - stacks_total(v[i].1.stored) + stacks_total(s),
    decreases v.len(),
{
    let w = v.update(i, (v[i].0, with_stored(v[i].1, s)));
    if i == v.len() - 1 {
        assert(w.drop_last() =~= v.drop_last());
    } else {
        let d = v.drop_last();
        lemma_blocks_total_update(d, i, s);
        assert(w.drop_last() =~= d.update(i, (d[i].0, with_stored(d[i].1, s))));
        assert(w.last() == v.last());
    }
}

/// Replacing one block's store by a store of positive stacks keeps the
/// blocks well-formed while the grand total stays within `i32`.
pub proof fn lemma_update_wf(v: Seq<(Axial, BlockView)>, i: int, s: Seq<ItemStack>)
    requires
        blocks_wf(v),
        0 <= i < v.len(),
        forall|j: int| 0 <= j < s.len() ==> #[trigger] s[j].amount > 0,
        blocks_total(v) - stacks_total(v[i].1.stored) + stacks_total(s) <= i32::MAX,
    ensures
        blocks_wf(v.update(i, (v[i].0, with_stored(v[i].1, s)))),
        blocks_total(v.update(i, (v[i].0, with_stored(v[i].1, s))))
            == blocks_total(v) - stacks_total(v[i].1.stored) + stacks_total(s),
{
    let w = v.update(i, (v[i].0, with_stored(v[i].1, s)));
    lemma_blocks_total_update(v, i, s);
    crate::sector::lemma_blocks_total_bounds(v, i);
    assert(stacks_wf(v[i].1.stored));
    lemma_wf_bounds(s, 0);
    lemma_wf_bounds(v[i].1.stored, 0);
    assert(keys_unique(w)) by {
        assert forall|a: int, b: int| 0 <= a < b < w.len() implies #[trigger] w[a].0 != #[trigger] w[b].0 by {
            assert(w[a].0 == v[a].0 && w[b].0 == v[b].0);
        }
    }
    assert forall|j: int| 0 <= j < w.len() implies stacks_wf(#[trigger] w[j].1.stored) by {
        if j != i {
            assert(w[j] == v[j]);
        }
    }
}

/// Replacing the store of a block that stands outside `hs` does not change
/// what a site can draw from `hs`.
proof fn lemma_near_sum_update(v: Seq<(Axial, BlockView)>, i: int, s: Seq<ItemStack>, hs: Seq<Axial>, target: Axial)
    requires
        keys_unique(v),
        0 <= i < v.len(),
        !hs.contains(v[i].0),
    ensures
        forall|k: ItemType| #[trigger] near_sum(v.update(i, (v[i].0, with_stored(v[i].1, s))), hs, target, k)
            == near_sum(v, hs, target, k),
    decreases hs.len(),
{
    let w = v.update(i, (v[i].0, with_stored(v[i].1, s)));
    if hs.len() > 0 {
        let d = hs.drop_last();
        assert(!d.contains(v[i].0)) by {
            if d.contains(v[i].0) {
                let j = choose|j: int| 0 <= j < d.len() && d[j] == v[i].0;
                assert(hs[j] == v[i].0);
            }
        }
        lemma_near_sum_update(v, i, s, d, target);
        let h = hs.last();
        assert(h != v[i].0) by {
            assert(hs[hs.len() - 1] == h);
        }
        assert forall|j: int| 0 <= j < v.len() implies (#[trigger] v[j]).0 == w[j].0 by {}
        lemma_index_of_same_keys(v, w, h);
        lemma_index_of(v, h);
        let j = index_of(v, h);
        if j >= 0 {
            assert(j != i);
            assert(w[j] == v[j]);
        }
        assert forall|k: ItemType| #[trigger] near_sum(w, hs, target, k) == near_sum(v, hs, target, k) by {
            assert(near_sum(w, d, target, k) == near_sum(v, d, target, k));
            assert(near_term(w, h, target, k) == near_term(v, h, target, k));
        }
    }
}

} // verus!

verus! {

/// Taking `r` items of one kind from the hexes `hs` (no hex twice) keeps
/// every block in place with its other values, touches no block off `hs`
/// and no block under construction other than the site's own,
/// keeps the blocks well-formed, and takes exactly `min(r, what hs offers)`
/// of that kind and nothing of any other.
#[verifier::spinoff_prover]
pub proof fn lemma_consume_one_near(v: Seq<(Axial, BlockView)>, hs: Seq<Axial>, target: Axial, kind: ItemType, r: int)
    requires
        blocks_wf(v),
        hs.no_duplicates(),
    ensures
        ({
            let c = consume_one_near(v, hs, target, kind, r);
            let a = near_sum(v, hs, target, kind);
            let taken = if r <= 0 { 0 } else if r < a { r } else { a };
            &&& c.len() == v.len()
            &&& forall|j: int| 0 <= j < v.len() ==> (#[trigger] c[j]).0 == v[j].0 && c[j].1 == with_stored(v[j].1, c[j].1.stored)
            &&& forall|j: int| 0 <= j < v.len() && !hs.contains(v[j].0) ==> #[trigger] c[j] == v[j]
            &&& forall|j: int| 0 <= j < v.len() && v[j].0 != target && spec_is_under_construction(v[j].1)
                ==> #[trigger] c[j] == v[j]
            &&& blocks_wf(c)
            &&& blocks_total(c) == blocks_total(v) - taken
            &&& near_sum(c, hs, target, kind) == a - taken
            &&& forall|k: ItemType| k != kind ==> #[trigger] near_sum(c, hs, target, k) == near_sum(v, hs, target, k)
        }),
    decreases hs.len(),
{
    lemma_near_sum_bounds(v, hs, target);
    if hs.len() == 0 || r <= 0 {
    } else {
        let h = hs[0];
        let rest = hs.drop_first();
        assert(hs =~= seq![h] + rest);
        lemma_near_sum_cons(v, h, rest, target);
        assert(rest.no_duplicates()) by {
            assert forall|a: int, b: int| 0 <= a < rest.len() && 0 <= b < rest.len() && a != b implies rest[a] != rest[b] by {
                assert(rest[a] == hs[a + 1] && rest[b] == hs[b + 1]);
            }
        }
        assert(!rest.contains(h)) by {
            if rest.contains(h) {
                let j = choose|j: int| 0 <= j < rest.len() && rest[j] == h;
                assert(hs[j + 1] == hs[0]);
            }
        }
        assert forall|x: Axial| hs.contains(x) <== rest.contains(x) by {
            if rest.contains(x) {
                let j = choose|j: int| 0 <= j < rest.len() && rest[j] == x;
                assert(hs[j + 1] == x);
            }
        }
        assert(hs.contains(h)) by {
            assert(hs[0] == h);
        }
        lemma_index_of(v, h);
        let i = index_of(v, h);
        lemma_near_sum_bounds(v, rest, target);
        if i >= 0 && (h == target || !spec_is_under_construction(v[i].1)) {
            let s = v[i].1.stored;
            let d = drain(s, r, Some(seq![kind]));
            assert(stacks_wf(s));
            lemma_drain_kind(s, r, kind);
            lemma_wf_bounds(s, 0);
            let taken0 = stacks_total(s) - stacks_total(d);
            let w = v.update(i, (h, with_stored(v[i].1, d)));
            lemma_update_wf(v, i, d);
            lemma_near_sum_update(v, i, d, rest, target);
            lemma_consume_one_near(w, rest, target, kind, r - taken0);
            let c = consume_one_near(w, rest, target, kind, r - taken0);
            assert(c == consume_one_near(v, hs, target, kind, r));
            lemma_near_sum_cons(c, h, rest, target);
            // the block on h is untouched by the rest of the walk
            assert(c[i] == w[i]);
            assert forall|j: int| 0 <= j < v.len() implies (#[trigger] v[j]).0 == c[j].0 by {
                assert(w[j].0 == v[j].0);
            }
            lemma_index_of_same_keys(v, c, h);
            assert forall|k: ItemType| #[trigger] near_term(c, h, target, k) == kind_amount(d, k) by {}
            assert forall|j: int| 0 <= j < v.len() implies (#[trigger] c[j]).0 == v[j].0 && c[j].1 == with_stored(v[j].1, c[j].1.stored) by {
                assert(w[j].0 == v[j].0 && w[j].1 == with_stored(v[j].1, w[j].1.stored));
                assert(c[j].0 == w[j].0 && c[j].1 == with_stored(w[j].1, c[j].1.stored));
            }
            assert forall|j: int| 0 <= j < v.len() && !hs.contains(v[j].0) implies #[trigger] c[j] == v[j] by {
                assert(j != i);
                assert(w[j] == v[j]);
                assert(!rest.contains(w[j].0));
            }
            assert forall|j: int| 0 <= j < v.len() && v[j].0 != target && spec_is_under_construction(v[j].1)
                implies #[trigger] c[j] == v[j] by {
                assert(j != i);
                assert(w[j] == v[j]);
            }
        } else {
            lemma_consume_one_near(v, rest, target, kind, r);
            let c = consume_one_near(v, rest, target, kind, r);
            assert(c == consume_one_near(v, hs, target, kind, r));
            lemma_near_sum_cons(c, h, rest, target);
            assert forall|j: int| 0 <= j < v.len() implies (#[trigger] v[j]).0 == c[j].0 by {}
            lemma_index_of_same_keys(v, c, h);
            if i >= 0 {
                assert(c[i] == v[i]);
            }
            assert forall|k: ItemType| #[trigger] near_term(c, h, target, k) == near_term(v, h, target, k) by {}
            assert forall|j: int| 0 <= j < v.len() && !hs.contains(v[j].0) implies #[trigger] c[j] == v[j] by {}
            assert forall|j: int| 0 <= j < v.len() && v[j].0 != target && spec_is_under_construction(v[j].1)
                implies #[trigger] c[j] == v[j] by {}
        }
    }
}

/// Over any number of requirements, the blocks keep their hexes and other
/// values, blocks off the site and its neighbours are untouched, neighbours
/// still under construction keep their stores, and the blocks stay
/// well-formed.
pub proof fn lemma_consume_all_near(v: Seq<(Axial, BlockView)>, target: Axial, reqs: Seq<ItemStack>)
    requires
        blocks_wf(v),
        in_step_range(target),
    ensures
        ({
            let c = consume_all_near(v, target, reqs);
            &&& c.len() == v.len()
            &&& blocks_wf(c)
            &&& forall|j: int| 0 <= j < v.len() ==> (#[trigger] c[j]).0 == v[j].0 && c[j].1 == with_stored(v[j].1, c[j].1.stored)
            &&& forall|j: int| 0 <= j < v.len() && !spec_requirement_sources(target).contains(v[j].0) ==> #[trigger] c[j] == v[j]
            &&& forall|j: int| 0 <= j < v.len() && v[j].0 != target && spec_is_under_construction(v[j].1)
                ==> #[trigger] c[j] == v[j]
        }),
    decreases reqs.len(),
{
    if reqs.len() > 0 {
        lemma_requirement_sources_distinct(target);
        let hs = spec_requirement_sources(target);
        let c1 = consume_one_near(v, hs, target, reqs[0].kind, reqs[0].amount as int);
        lemma_consume_one_near(v, hs, target, reqs[0].kind, reqs[0].amount as int);
        lemma_consume_all_near(c1, target, reqs.drop_first());
        let c = consume_all_near(v, target, reqs);
        assert(c == consume_all_near(c1, target, reqs.drop_first()));
        assert forall|j: int| 0 <= j < v.len() implies (#[trigger] c[j]).0 == v[j].0 && c[j].1 == with_stored(v[j].1, c[j].1.stored) by {
            assert(c1[j].0 == v[j].0 && c1[j].1 == with_stored(v[j].1, c1[j].1.stored));
            assert(c[j].0 == c1[j].0 && c[j].1 == with_stored(c1[j].1, c[j].1.stored));
        }
        assert forall|j: int| 0 <= j < v.len() && !hs.contains(v[j].0) implies #[trigger] c[j] == v[j] by {
            assert(c1[j] == v[j]);
        }
        assert forall|j: int| 0 <= j < v.len() && v[j].0 != target && spec_is_under_construction(v[j].1)
            implies #[trigger] c[j] == v[j] by {
            assert(c1[j] == v[j]);
        }
    }
}

} // verus!

verus! {

/// When a building site at `target` can draw every requirement, takes each
/// requirement in turn from its own store and then its finished neighbours
/// (in direction order, each store's stacks first to last) and returns true;
/// otherwise changes nothing and returns false.
#[verifier::spinoff_prover]
pub fn consume_requirements_near(blocks: &mut BlockMap, target: Axial, reqs: &[ItemStack]) -> (ok: bool)
    requires
        old(blocks).wf(),
        in_step_range(target),
    ensures
        ok == spec_has_requirements_near(old(blocks).view_entries(), target, reqs@),
        ok ==> final(blocks).view_entries() == consume_all_near(old(blocks).view_entries(), target, reqs@),
        !ok ==> final(blocks).view_entries() == old(blocks).view_entries(),
        final(blocks).wf(),
{
    if !has_requirements_near(blocks, target, reqs) {
        return false;
    }
    let sources = requirement_sources(target);
    proof {
        lemma_requirement_sources_distinct(target);
        assert(reqs@.skip(0) =~= reqs@);
    }
    let ghost v0 = blocks.view_entries();
    let mut r: usize = 0;
    while r < reqs.len()
        invariant
            r <= reqs.len(),
            in_step_range(target),
            sources@ == spec_requirement_sources(target),
            sources@.no_duplicates(),
            blocks.wf(),
            consume_all_near(v0, target, reqs@) == consume_all_near(blocks.view_entries(), target, reqs@.skip(r as int)),
        decreases reqs.len() - r,
    {
        let req = reqs[r];
        let ghost v = blocks.view_entries();
        proof {
            assert(reqs@.skip(r as int)[0] == req);
            assert(reqs@.skip(r as int).drop_first() =~= reqs@.skip(r + 1));
            assert(sources@.skip(0) =~= sources@);
        }
        let mut remaining: i32 = req.amount;
        let mut i: usize = 0;
        while i < sources.len()
            invariant
                i <= sources.len(),
                in_step_range(target),
                sources@ == spec_requirement_sources(target),
                blocks.wf(),
                consume_one_near(blocks.view_entries(), sources@.skip(i as int), target, req.kind, remaining as int)
                    == consume_one_near(v, sources@, target, req.kind, req.amount as int),
            ensures
                i == sources.len() || remaining <= 0,
                blocks.wf(),
                consume_one_near(blocks.view_entries(), sources@.skip(i as int), target, req.kind, remaining as int)
                    == consume_one_near(v, sources@, target, req.kind, req.amount as int),
            decreases sources.len() - i,
        {
            if remaining <= 0 {
                break;
            }
            let hex = sources[i];
            let ghost w0 = blocks.view_entries();
            proof {
                assert(sources@.skip(i as int)[0] == hex);
                assert(sources@.skip(i as int).drop_first() =~= sources@.skip(i + 1));
                lemma_index_of(w0, hex);
            }
            match blocks.find(hex) {
                None => {},
                Some(idx) => {
                    if hex == target || !is_under_construction(&blocks.entries[idx].1) {
                        let ghost ent0 = blocks.entries@;
                        proof {
                            assert(w0[idx as int].1 == ent0[idx as int].1@);
                            assert(stacks_wf(w0[idx as int].1.stored));
                        }
                        let (h, mut block) = blocks.entries.remove(idx);
                        let ghost s = block.stored@;
                        let taken = take_kind(&mut block.stored, req.kind, remaining);
                        proof {
                            lemma_drain_kind(s, remaining as int, req.kind);
                            lemma_wf_bounds(s, 0);
                        }
                        remaining = remaining - taken;
                        blocks.entries.insert(idx, (h, block));
                        proof {
                            assert(blocks.entries@ =~= ent0.update(idx as int, (h, block)));
                            assert(blocks.view_entries() =~= w0.update(idx as int, (hex, with_stored(w0[idx as int].1, block.stored@))));
                            lemma_update_wf(w0, idx as int, block.stored@);
                        }
                    }
                },
            }
            i = i + 1;
        }
        proof {
            let w = blocks.view_entries();
            if i == sources.len() {
                assert(sources@.skip(i as int) =~= Seq::<Axial>::empty());
            }
            assert(consume_one_near(w, sources@.skip(i as int), target, req.kind, remaining as int) == w);
        }
        r = r + 1;
    }
    proof {
        assert(reqs@.skip(r as int) =~= Seq::<ItemStack>::empty());
    }
    true
}

/// Building from requirements of distinct kinds, each non-negative and
/// covered by what the site can draw on, lowers what the site can draw of
/// each required kind by exactly its requirement and leaves every other kind
/// as it was.
pub proof fn lemma_consume_all_near_avail(v: Seq<(Axial, BlockView)>, target: Axial, reqs: Seq<ItemStack>)
    requires
        blocks_wf(v),
        in_step_range(target),
        spec_has_requirements_near(v, target, reqs),
        forall|i: int, j: int| 0 <= i < j < reqs.len() ==> #[trigger] reqs[i].kind != #[trigger] reqs[j].kind,
        forall|i: int| 0 <= i < reqs.len() ==> #[trigger] reqs[i].amount >= 0,
    ensures
        forall|i: int| 0 <= i < reqs.len() ==> avail_near(consume_all_near(v, target, reqs), target, #[trigger] reqs[i].kind)
            == avail_near(v, target, reqs[i].kind) - reqs[i].amount,
        forall|k: ItemType| (forall|i: int| 0 <= i < reqs.len() ==> #[trigger] reqs[i].kind != k)
            ==> #[trigger] avail_near(consume_all_near(v, target, reqs), target, k) == avail_near(v, target, k),
    decreases reqs.len(),
{
    if reqs.len() > 0 {
        lemma_requirement_sources_distinct(target);
        let hs = spec_requirement_sources(target);
        let k0 = reqs[0].kind;
        let a0 = reqs[0].amount as int;
        let c = consume_one_near(v, hs, target, k0, a0);
        let rest = reqs.drop_first();
        lemma_consume_one_near(v, hs, target, k0, a0);
        lemma_near_sum_bounds(v, hs, target);
        assert(spec_has_requirements_near(c, target, rest)) by {
            assert forall|i: int| 0 <= i < rest.len() implies avail_near(c, target, #[trigger] rest[i].kind) >= rest[i].amount by {
                assert(rest[i] == reqs[i + 1]);
                assert(reqs[0].kind != reqs[i + 1].kind);
            }
        }
        assert forall|i: int, j: int| 0 <= i < j < rest.len() implies #[trigger] rest[i].kind != #[trigger] rest[j].kind by {
            assert(rest[i] == reqs[i + 1] && rest[j] == reqs[j + 1]);
        }
        assert forall|i: int| 0 <= i < rest.len() implies #[trigger] rest[i].amount >= 0 by {
            assert(rest[i] == reqs[i + 1]);
        }
        lemma_consume_all_near_avail(c, target, rest);
        let r = consume_all_near(v, target, reqs);
        assert(r == consume_all_near(c, target, rest));
        assert forall|i: int| 0 <= i < reqs.len() implies avail_near(r, target, #[trigger] reqs[i].kind)
            == avail_near(v, target, reqs[i].kind) - reqs[i].amount by {
            if i == 0 {
                assert forall|j: int| 0 <= j < rest.len() implies #[trigger] rest[j].kind != k0 by {
                    assert(rest[j] == reqs[j + 1]);
                }
            } else {
                assert(rest[i - 1] == reqs[i]);
                assert(reqs[0].kind != reqs[i].kind);
            }
        }
        assert forall|k: ItemType| (forall|i: int| 0 <= i < reqs.len() ==> #[trigger] reqs[i].kind != k)
            implies #[trigger] avail_near(r, target, k) == avail_near(v, target, k) by {
            assert(reqs[0].kind != k);
            assert forall|j: int| 0 <= j < rest.len() implies #[trigger] rest[j].kind != k by {
                assert(rest[j] == reqs[j + 1]);
            }
        }
    }
}

} // verus!

verus! {

/// Some stack of the store holds a positive amount of a needed kind.
pub open spec fn holds_any(s: Seq<ItemStack>, needed: Seq<ItemType>) -> bool {
    exists|j: int| 0 <= j < s.len() && s[j].amount > 0 && needed.contains(#[trigger] s[j].kind)
}

/// A store holds something needed exactly when one of its stacks has a
/// positive amount of a kind that occurs anywhere in `needed`.
pub proof fn lemma_holds_any_any_needed_kind(s: Seq<ItemStack>, needed: Seq<ItemType>)
    ensures
        holds_any(s, needed) <==> exists|j: int, m: int|
            0 <= j < s.len() && 0 <= m < needed.len() && #[trigger] s[j].amount > 0 && s[j].kind == #[trigger] needed[m],
{
    if holds_any(s, needed) {
        let j = choose|j: int| 0 <= j < s.len() && s[j].amount > 0 && needed.contains(#[trigger] s[j].kind);
        let m = choose|m: int| 0 <= m < needed.len() && needed[m] == s[j].kind;
        assert(s[j].amount > 0 && s[j].kind == needed[m]);
    }
    if exists|j: int, m: int|
        0 <= j < s.len() && 0 <= m < needed.len() && #[trigger] s[j].amount > 0 && s[j].kind == #[trigger] needed[m] {
        let (j, m) = choose|j: int, m: int|
            0 <= j < s.len() && 0 <= m < needed.len() && #[trigger] s[j].amount > 0 && s[j].kind == #[trigger] needed[m];
        assert(needed.contains(s[j].kind));
    }
}

/// A finished block of the given kind that holds some needed item.
pub open spec fn supply_candidate(e: (Axial, BlockView), needed: Seq<ItemType>, kind: BuildBlockType) -> bool {
    &&& !spec_is_under_construction(e.1)
    &&& e.1.kind == kind
    &&& holds_any(e.1.stored, needed)
}

/// The first candidate of the given kind, in map order, among those
/// nearest to `target`, with its distance.
pub open spec fn best_supply(v: Seq<(Axial, BlockView)>, target: Axial, needed: Seq<ItemType>, kind: BuildBlockType) -> Option<(int, Axial)>
    decreases v.len(),
{
    if v.len() == 0 {
        None
    } else {
        let b = best_supply(v.drop_last(), target, needed, kind);
        let e = v.last();
        if supply_candidate(e, needed, kind) && (b is None || hex_dist(e.0, target) < b.unwrap().0) {
            Some((hex_dist(e.0, target), e.0))
        } else {
            b
        }
    }
}

/// Where a supply run should load: the nearest warehouse holding a needed
/// item, else the nearest such base, else nowhere.
pub open spec fn spec_nearest_supply(v: Seq<(Axial, BlockView)>, target: Axial, needed: Seq<ItemType>) -> Option<Axial> {
    match best_supply(v, target, needed, BuildBlockType::Warehouse) {
        Some(w) => Some(w.1),
        None => match best_supply(v, target, needed, BuildBlockType::Base) {
            Some(b) => Some(b.1),
            None => None,
        },
    }
}

/// The best candidate is a candidate, at its distance, and no candidate is
/// nearer; there is none exactly when no block is a candidate.
pub proof fn lemma_best_supply(v: Seq<(Axial, BlockView)>, target: Axial, needed: Seq<ItemType>, kind: BuildBlockType)
    ensures
        best_supply(v, target, needed, kind) is None <==> forall|j: int| 0 <= j < v.len() ==> !supply_candidate(#[trigger] v[j], needed, kind),
        best_supply(v, target, needed, kind) matches Some(b) ==> {
            &&& b.0 == hex_dist(b.1, target)
            &&& exists|j: int| 0 <= j < v.len() && #[trigger] v[j].0 == b.1 && supply_candidate(v[j], needed, kind)
            &&& forall|j: int| 0 <= j < v.len() && supply_candidate(#[trigger] v[j], needed, kind) ==> b.0 <= hex_dist(v[j].0, target)
        },
    decreases v.len(),
{
    if v.len() > 0 {
        let d = v.drop_last();
        lemma_best_supply(d, target, needed, kind);
        let bd = best_supply(d, target, needed, kind);
        let e = v.last();
        let n = v.len() - 1;
        assert(v[n] == e);
        if supply_candidate(e, needed, kind) && (bd is None || hex_dist(e.0, target) < bd.unwrap().0) {
            assert forall|j: int| 0 <= j < v.len() && supply_candidate(#[trigger] v[j], needed, kind)
                implies hex_dist(e.0, target) <= hex_dist(v[j].0, target) by {
                if j < n {
                    assert(d[j] == v[j]);
                }
            }
            assert(exists|j: int| 0 <= j < v.len() && #[trigger] v[j].0 == e.0 && supply_candidate(v[j], needed, kind));
        } else {
            if bd is None {
                assert forall|j: int| 0 <= j < v.len() implies !supply_candidate(#[trigger] v[j], needed, kind) by {
                    if j < n {
                        assert(d[j] == v[j]);
                    }
                }
            } else {
                let bb = bd.unwrap();
                let j0 = choose|j: int| 0 <= j < d.len() && #[trigger] d[j].0 == bb.1 && supply_candidate(d[j], needed, kind);
                assert(v[j0] == d[j0]);
                assert forall|j: int| 0 <= j < v.len() && supply_candidate(#[trigger] v[j], needed, kind)
                    implies bb.0 <= hex_dist(v[j].0, target) by {
                    if j < n {
                        assert(d[j] == v[j]);
                    }
                }
                assert(exists|j: int| 0 <= j < v.len() && #[trigger] v[j].0 == bb.1 && supply_candidate(v[j], needed, kind));
                assert(!(forall|j: int| 0 <= j < v.len() ==> !supply_candidate(#[trigger] v[j], needed, kind)));
            }
        }
    }
}

/// A supply run finds a place to load exactly when some finished warehouse
/// or base has a stack with a positive amount of any needed kind, and the
/// place it finds is such a block.
pub proof fn lemma_nearest_supply_finds_stock(v: Seq<(Axial, BlockView)>, target: Axial, needed: Seq<ItemType>)
    ensures
        spec_nearest_supply(v, target, needed) is None <==> forall|j: int, k: int, m: int|
            0 <= j < v.len() && !spec_is_under_construction(v[j].1)
                && (v[j].1.kind == BuildBlockType::Warehouse || v[j].1.kind == BuildBlockType::Base)
                && 0 <= k < v[j].1.stored.len() && 0 <= m < needed.len() && #[trigger] v[j].1.stored[k].amount > 0
                ==> v[j].1.stored[k].kind != #[trigger] needed[m],
        spec_nearest_supply(v, target, needed) matches Some(h) ==> exists|j: int, k: int, m: int|
            0 <= j < v.len() && v[j].0 == h && !spec_is_under_construction(v[j].1)
                && (v[j].1.kind == BuildBlockType::Warehouse || v[j].1.kind == BuildBlockType::Base)
                && 0 <= k < v[j].1.stored.len() && 0 <= m < needed.len() && #[trigger] v[j].1.stored[k].amount > 0
                && v[j].1.stored[k].kind == #[trigger] needed[m],
{
    lemma_best_supply(v, target, needed, BuildBlockType::Warehouse);
    lemma_best_supply(v, target, needed, BuildBlockType::Base);
    assert forall|j: int| 0 <= j < v.len() implies #[trigger] holds_any(v[j].1.stored, needed) == (exists|k: int, m: int|
        0 <= k < v[j].1.stored.len() && 0 <= m < needed.len() && #[trigger] v[j].1.stored[k].amount > 0
            && v[j].1.stored[k].kind == #[trigger] needed[m]) by {
        lemma_holds_any_any_needed_kind(v[j].1.stored, needed);
    }
    let r = spec_nearest_supply(v, target, needed);
    if r is None {
        assert forall|j: int, k: int, m: int|
            0 <= j < v.len() && !spec_is_under_construction(v[j].1)
                && (v[j].1.kind == BuildBlockType::Warehouse || v[j].1.kind == BuildBlockType::Base)
                && 0 <= k < v[j].1.stored.len() && 0 <= m < needed.len() && #[trigger] v[j].1.stored[k].amount > 0
            implies v[j].1.stored[k].kind != #[trigger] needed[m] by {
            assert(!supply_candidate(v[j], needed, BuildBlockType::Warehouse));
            assert(!supply_candidate(v[j], needed, BuildBlockType::Base));
            assert(holds_any(v[j].1.stored, needed) == (exists|k2: int, m2: int|
                0 <= k2 < v[j].1.stored.len() && 0 <= m2 < needed.len() && #[trigger] v[j].1.stored[k2].amount > 0
                    && v[j].1.stored[k2].kind == #[trigger] needed[m2]));
        }
    } else {
        let h = r.unwrap();
        let kind = if best_supply(v, target, needed, BuildBlockType::Warehouse) is Some {
            BuildBlockType::Warehouse
        } else {
            BuildBlockType::Base
        };
        let j = choose|j: int| 0 <= j < v.len() && #[trigger] v[j].0 == h && supply_candidate(v[j], needed, kind);
        assert(holds_any(v[j].1.stored, needed));
        let (k, m) = choose|k: int, m: int|
            0 <= k < v[j].1.stored.len() && 0 <= m < needed.len() && #[trigger] v[j].1.stored[k].amount > 0
                && v[j].1.stored[k].kind == #[trigger] needed[m];
        assert(v[j].1.stored[k].amount > 0 && v[j].1.stored[k].kind == needed[m]);
    }
}

/// Whether a store holds a positive amount of some needed kind.
fn store_holds_any(stored: &[ItemStack], needed: &[ItemType]) -> (res: bool)
    ensures
        res == holds_any(stored@, needed@),
{
    let mut i: usize = 0;
    while i < stored.len()
        invariant
            i <= stored.len(),
            forall|j: int| 0 <= j < i ==> !(stored@[j].amount > 0 && needed@.contains(#[trigger] stored@[j].kind)),
        decreases stored.len() - i,
    {
        let s = stored[i];
        if s.amount > 0 {
            let mut k: usize = 0;
            while k < needed.len()
                invariant
                    k <= needed.len(),
                    i < stored.len(),
                    s == stored@[i as int],
                    s.amount > 0,
                    forall|m: int| 0 <= m < k ==> needed@[m] != s.kind,
                decreases needed.len() - k,
            {
                if needed[k] == s.kind {
                    assert(needed@[k as int] == stored@[i as int].kind);
                    return true;
                }
                k = k + 1;
            }
        }
        i = i + 1;
    }
    false
}

/// An exec best pick stands for the spec one.
pub open spec fn pick_matches(a: Option<(i32, Axial)>, b: Option<(int, Axial)>) -> bool {
    match a {
        Some(x) => b == Some((x.0 as int, x.1)),
        None => b is None,
    }
}

/// Where a supply run for a site at `target` should load items of the
/// needed kinds: the nearest finished warehouse holding some, else the
/// nearest finished base holding some; among equally near ones, the first
/// in map order.
pub fn nearest_supply_with_items(blocks: &BlockMap, target: Axial, needed: &[ItemType]) -> (res: Option<Axial>)
    requires
        blocks.wf(),
        forall|j: int| 0 <= j < blocks.view_entries().len()
            && (supply_candidate(#[trigger] blocks.view_entries()[j], needed@, BuildBlockType::Warehouse)
                || supply_candidate(blocks.view_entries()[j], needed@, BuildBlockType::Base))
            ==> hex_dist(blocks.view_entries()[j].0, target) <= i32::MAX,
    ensures
        res == spec_nearest_supply(blocks.view_entries(), target, needed@),
{
    let ghost v = blocks.view_entries();
    let mut best_warehouse: Option<(i32, Axial)> = None;
    let mut best_base: Option<(i32, Axial)> = None;
    let mut i: usize = 0;
    while i < blocks.entries.len()
        invariant
            i <= blocks.entries.len(),
            v == blocks.view_entries(),
            forall|j: int| 0 <= j < v.len()
                && (supply_candidate(#[trigger] v[j], needed@, BuildBlockType::Warehouse)
                    || supply_candidate(v[j], needed@, BuildBlockType::Base))
                ==> hex_dist(v[j].0, target) <= i32::MAX,
            pick_matches(best_warehouse, best_supply(v.take(i as int), target, needed@, BuildBlockType::Warehouse)),
            pick_matches(best_base, best_supply(v.take(i as int), target, needed@, BuildBlockType::Base)),
        decreases blocks.entries.len() - i,
    {
        let hex = blocks.entries[i].0;
        let block = &blocks.entries[i].1;
        proof {
            assert(v.take(i + 1).drop_last() =~= v.take(i as int));
            assert(v.take(i + 1).last() == v[i as int]);
            assert(v[i as int] == (hex, block@));
        }
        if !is_under_construction(block)
            && (block.kind == BuildBlockType::Base || block.kind == BuildBlockType::Warehouse)
            && store_holds_any(block.stored.as_slice(), needed)
        {
            let dist = hex_distance(hex, target);
            if block.kind == BuildBlockType::Warehouse {
                match best_warehouse {
                    Some((best_dist, _)) => {
                        if dist < best_dist {
                            best_warehouse = Some((dist, hex));
                        }
                    },
                    None => {
                        best_warehouse = Some((dist, hex));
                    },
                }
            } else {
                match best_base {
                    Some((best_dist, _)) => {
                        if dist < best_dist {
                            best_base = Some((dist, hex));
                        }
                    },
                    None => {
                        best_base = Some((dist, hex));
                    },
                }
            }
        }
        i = i + 1;
    }
    assert(v.take(i as int) =~= v);
    match best_warehouse {
        Some((_, hex)) => Some(hex),
        None => match best_base {
            Some((_, hex)) => Some(hex),
            None => None,
        },
    }
}

} // verus!
