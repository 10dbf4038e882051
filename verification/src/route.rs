//! Route finding for units on the sector map: a breadth-first search that
//! travels only over finished route blocks between its two endpoints.

use vstd::prelude::*;
use crate::hex::{Axial, axial_neighbors, in_step_range, neighbor_of};
use crate::sector::{BlockMap, BlockView, BuildBlockType, index_of, keys_unique, lemma_index_of, spec_is_under_construction, is_under_construction};

verus! {

/// `b` is one of the six neighbours of `a`.
pub open spec fn route_step(a: Axial, b: Axial) -> bool {
    exists|i: int| 0 <= i < 6 && b == #[trigger] neighbor_of(a, i)
}

/// A unit heading for `end` may enter `h`: it is `end`, or it holds a
/// finished route block.
pub open spec fn route_passable(v: Seq<(Axial, BlockView)>, h: Axial, end: Axial) -> bool {
    h == end || (index_of(v, h) >= 0 && v[index_of(v, h)].1.kind == BuildBlockType::Route
        && !spec_is_under_construction(v[index_of(v, h)].1))
}

/// `p` leads from `start` to `end` in steps between neighbours, entering
/// only hexes a unit may enter.
pub open spec fn is_route_path(v: Seq<(Axial, BlockView)>, p: Seq<Axial>, start: Axial, end: Axial) -> bool {
    &&& p.len() >= 1
    &&& p[0] == start
    &&& p.last() == end
    &&& forall|i: int| 0 <= i < p.len() - 1 ==> route_step(#[trigger] p[i], p[i + 1])
    &&& forall|i: int| 1 <= i < p.len() ==> route_passable(v, #[trigger] p[i], end)
}

/// Some entry of the search records `x`.
pub open spec fn has_node(c: Seq<(Axial, usize)>, x: Axial) -> bool {
    exists|j: int| 0 <= j < c.len() && #[trigger] c[j].0 == x
}

/// The search's record: the start first, every later hex reached from an
/// earlier one as a neighbour it may enter, no hex twice.
pub open spec fn search_wf(v: Seq<(Axial, BlockView)>, c: Seq<(Axial, usize)>, start: Axial, end: Axial) -> bool {
    &&& c.len() >= 1
    &&& c[0].0 == start
    &&& forall|a: int, b: int| 0 <= a < b < c.len() ==> #[trigger] c[a].0 != #[trigger] c[b].0
    &&& forall|k: int| 1 <= k < c.len() ==> {
        &&& (#[trigger] c[k]).1 < k
        &&& route_step(c[c[k].1 as int].0, c[k].0)
        &&& route_passable(v, c[k].0, end)
    }
}

/// The hexes from the start to entry `k`, following the recorded steps.
pub open spec fn chain(c: Seq<(Axial, usize)>, k: int) -> Seq<Axial>
    decreases k,
{
    if k <= 0 || k >= c.len() || c[k].1 >= k {
        seq![c[0].0]
    } else {
        chain(c, c[k].1 as int).push(c[k].0)
    }
}

proof fn lemma_chain(v: Seq<(Axial, BlockView)>, c: Seq<(Axial, usize)>, start: Axial, end: Axial, k: int)
    requires
        search_wf(v, c, start, end),
        0 <= k < c.len(),
    ensures
        ({
            let p = chain(c, k);
            &&& p.len() >= 1
            &&& p[0] == start
            &&& p.last() == c[k].0
            &&& forall|i: int| 0 <= i < p.len() - 1 ==> route_step(#[trigger] p[i], p[i + 1])
            &&& forall|i: int| 1 <= i < p.len() ==> route_passable(v, #[trigger] p[i], end)
        }),
    decreases k,
{
    if k > 0 {
        let j = c[k].1 as int;
        lemma_chain(v, c, start, end, j);
        let q = chain(c, j);
        let p = chain(c, k);
        assert(p == q.push(c[k].0));
        assert forall|i: int| 0 <= i < p.len() - 1 implies route_step(#[trigger] p[i], p[i + 1]) by {
            if i < q.len() - 1 {
                assert(p[i] == q[i] && p[i + 1] == q[i + 1]);
            } else {
                assert(p[i] == q.last());
            }
        }
        assert forall|i: int| 1 <= i < p.len() implies route_passable(v, #[trigger] p[i], end) by {
            if i < q.len() {
                assert(p[i] == q[i]);
            }
        }
    }
}

/// Distinct hexes that all hold blocks are no more than the blocks.
proof fn lemma_distinct_keys_bound(s: Seq<Axial>, v: Seq<(Axial, BlockView)>)
    requires
        s.no_duplicates(),
        forall|j: int| 0 <= j < s.len() ==> index_of(v, #[trigger] s[j]) >= 0,
        keys_unique(v),
    ensures
        s.len() <= v.len(),
{
    let keys = v.map_values(|e: (Axial, BlockView)| e.0);
    s.unique_seq_to_set();
    keys.lemma_cardinality_of_set();
    assert(s.to_set().subset_of(keys.to_set())) by {
        assert forall|x: Axial| s.to_set().contains(x) implies keys.to_set().contains(x) by {
            let j = choose|j: int| 0 <= j < s.len() && s[j] == x;
            lemma_index_of(v, x);
            let m = index_of(v, x);
            assert(keys[m] == x);
        }
    }
    vstd::seq_lib::seq_to_set_is_finite(keys);
    vstd::set_lib::lemma_len_subset(s.to_set(), keys.to_set());
}

/// Whether the search has recorded `x`.
fn search_has(c: &Vec<(Axial, usize)>, x: Axial) -> (res: bool)
    ensures
        res == has_node(c@, x),
{
    let mut i: usize = 0;
    while i < c.len()
        invariant
            i <= c.len(),
            forall|j: int| 0 <= j < i ==> #[trigger] c@[j].0 != x,
        decreases c.len() - i,
    {
        if c[i].0 == x {
            return true;
        }
        i = i + 1;
    }
    false
}

/// The path from the start to entry `k` of the search.
fn rebuild_path(c: &Vec<(Axial, usize)>, k: usize) -> (p: Vec<Axial>)
    requires
        k < c.len(),
        forall|m: int| 1 <= m < c.len() ==> (#[trigger] c@[m]).1 < m,
    ensures
        p@ == chain(c@, k as int),
    decreases k,
{
    if k == 0 {
        let mut p: Vec<Axial> = Vec::new();
        p.push(c[0].0);
        assert(p@ =~= seq![c@[0].0]);
        p
    } else {
        let mut p = rebuild_path(c, c[k].1);
        p.push(c[k].0);
        p
    }
}

} // verus!

verus! {

/// Every passable neighbour of the first `n` recorded hexes is recorded,
/// by an entry made no later than while that hex was searched from.
pub open spec fn closed_upto(v: Seq<(Axial, BlockView)>, c: Seq<(Axial, usize)>, end: Axial, n: int) -> bool {
    forall|k: int, i: int| 0 <= k < n && 0 <= i < 6 && route_passable(v, #[trigger] neighbor_of(c[k].0, i), end)
        ==> exists|m: int| 0 <= m < c.len() && #[trigger] c[m].0 == neighbor_of(c[k].0, i) && (m == 0 || c[m].1 <= k)
}

/// The search depth of each entry: the start at 0, every other entry one
/// deeper than the entry it was reached from, depths never falling along
/// the record.
pub open spec fn depths_ok(c: Seq<(Axial, usize)>, dep: Seq<int>) -> bool {
    &&& dep.len() == c.len()
    &&& dep[0] == 0
    &&& forall|k: int| 1 <= k < c.len() ==> #[trigger] dep[k] == dep[c[k].1 as int] + 1
    &&& forall|a: int, b: int| 0 <= a <= b < c.len() ==> #[trigger] dep[a] <= #[trigger] dep[b]
}

proof fn lemma_chain_len(c: Seq<(Axial, usize)>, dep: Seq<int>, k: int)
    requires
        depths_ok(c, dep),
        forall|m: int| 1 <= m < c.len() ==> (#[trigger] c[m]).1 < m,
        0 <= k < c.len(),
    ensures
        chain(c, k).len() == dep[k] + 1,
    decreases k,
{
    if k > 0 {
        lemma_chain_len(c, dep, c[k].1 as int);
    }
}

proof fn lemma_route_prefix_recorded(
    v: Seq<(Axial, BlockView)>,
    c: Seq<(Axial, usize)>,
    start: Axial,
    end: Axial,
    p: Seq<Axial>,
    j: int,
)
    requires
        search_wf(v, c, start, end),
        closed_upto(v, c, end, c.len() as int),
        is_route_path(v, p, start, end),
        0 <= j < p.len(),
    ensures
        has_node(c, p[j]),
    decreases j,
{
    if j == 0 {
        assert(c[0].0 == p[0]);
    } else {
        lemma_route_prefix_recorded(v, c, start, end, p, j - 1);
        let k = choose|k: int| 0 <= k < c.len() && #[trigger] c[k].0 == p[j - 1];
        assert(route_step(p[j - 1], p[(j - 1) + 1]));
        let i = choose|i: int| 0 <= i < 6 && p[j] == #[trigger] neighbor_of(p[j - 1], i);
        assert(route_passable(v, p[j], end));
        assert(neighbor_of(c[k].0, i) == p[j]);
        let m = choose|m: int| 0 <= m < c.len() && #[trigger] c[m].0 == neighbor_of(c[k].0, i) && (m == 0 || c[m].1 <= k);
    }
}

/// Along a route path no longer than the depth being searched, every hex
/// is recorded no deeper than its place on the path.
proof fn lemma_walk_recorded(
    v: Seq<(Axial, BlockView)>,
    c: Seq<(Axial, usize)>,
    dep: Seq<int>,
    start: Axial,
    end: Axial,
    head: int,
    p: Seq<Axial>,
    i: int,
)
    requires
        search_wf(v, c, start, end),
        depths_ok(c, dep),
        0 <= head < c.len(),
        closed_upto(v, c, end, head),
        is_route_path(v, p, start, end),
        p.len() - 1 <= dep[head],
        0 <= i < p.len() - 1,
    ensures
        exists|j: int| 0 <= j < c.len() && #[trigger] c[j].0 == p[i] && dep[j] <= i,
    decreases i,
{
    if i == 0 {
        assert(c[0].0 == p[0]);
    } else {
        lemma_walk_recorded(v, c, dep, start, end, head, p, i - 1);
        let j = choose|j: int| 0 <= j < c.len() && #[trigger] c[j].0 == p[i - 1] && dep[j] <= i - 1;
        if j >= head {
            assert(dep[head] <= dep[j]);
        }
        assert(route_step(p[i - 1], p[(i - 1) + 1]));
        let d = choose|d: int| 0 <= d < 6 && p[i] == #[trigger] neighbor_of(p[i - 1], d);
        assert(route_passable(v, p[i], end));
        assert(neighbor_of(c[j].0, d) == p[i]);
        let m = choose|m: int| 0 <= m < c.len() && #[trigger] c[m].0 == neighbor_of(c[j].0, d) && (m == 0 || c[m].1 <= j);
        if m > 0 {
            assert(dep[m] == dep[c[m].1 as int] + 1);
            assert(dep[c[m].1 as int] <= dep[j]);
        }
        assert(c[m].0 == p[i] && dep[m] <= i);
    }
}

/// While `end` is unrecorded, no route path to it is as short as the depth
/// being searched.
proof fn lemma_no_shorter_route(
    v: Seq<(Axial, BlockView)>,
    c: Seq<(Axial, usize)>,
    dep: Seq<int>,
    start: Axial,
    end: Axial,
    head: int,
    p: Seq<Axial>,
)
    requires
        search_wf(v, c, start, end),
        depths_ok(c, dep),
        0 <= head < c.len(),
        closed_upto(v, c, end, head),
        !has_node(c, end),
        start != end,
        is_route_path(v, p, start, end),
    ensures
        p.len() >= dep[head] + 2,
{
    if p.len() - 1 <= dep[head] {
        let l = p.len() - 1;
        assert(l >= 1) by {
            if l == 0 {
                assert(p[0] == p.last());
            }
        }
        lemma_walk_recorded(v, c, dep, start, end, head, p, l - 1);
        let j = choose|j: int| 0 <= j < c.len() && #[trigger] c[j].0 == p[l - 1] && dep[j] <= l - 1;
        if j >= head {
            assert(dep[head] <= dep[j]);
        }
        assert(route_step(p[l - 1], p[(l - 1) + 1]));
        let d = choose|d: int| 0 <= d < 6 && p[l] == #[trigger] neighbor_of(p[l - 1], d);
        assert(p[l] == end);
        assert(route_passable(v, p[l], end));
        assert(neighbor_of(c[j].0, d) == p[l]);
        let m = choose|m: int| 0 <= m < c.len() && #[trigger] c[m].0 == neighbor_of(c[j].0, d) && (m == 0 || c[m].1 <= j);
        assert(has_node(c, end));
    }
}

/// The invariants of the search carry over to a longer record.
proof fn lemma_closed_grow(v: Seq<(Axial, BlockView)>, cb: Seq<(Axial, usize)>, c: Seq<(Axial, usize)>, end: Axial, n: int)
    requires
        closed_upto(v, cb, end, n),
        cb.len() <= c.len(),
        forall|j: int| 0 <= j < cb.len() ==> #[trigger] c[j] == cb[j],
        n <= cb.len(),
    ensures
        closed_upto(v, c, end, n),
        forall|x: Axial| has_node(cb, x) ==> has_node(c, x),
{
    assert forall|k: int, m: int| 0 <= k < n && 0 <= m < 6 && route_passable(v, #[trigger] neighbor_of(c[k].0, m), end)
        implies exists|e: int| 0 <= e < c.len() && #[trigger] c[e].0 == neighbor_of(c[k].0, m) && (e == 0 || c[e].1 <= k) by {
        assert(c[k] == cb[k]);
        let e = choose|e: int| 0 <= e < cb.len() && #[trigger] cb[e].0 == neighbor_of(cb[k].0, m) && (e == 0 || cb[e].1 <= k);
        assert(c[e] == cb[e]);
    }
    assert forall|x: Axial| has_node(cb, x) implies has_node(c, x) by {
        let j = choose|j: int| 0 <= j < cb.len() && #[trigger] cb[j].0 == x;
        assert(c[j] == cb[j]);
    }
}

/// Recording a new passable neighbour of the hex being searched keeps the
/// record well-formed.
proof fn lemma_record_wf(
    v: Seq<(Axial, BlockView)>,
    cb: Seq<(Axial, usize)>,
    start: Axial,
    end: Axial,
    head: usize,
    n: Axial,
)
    requires
        search_wf(v, cb, start, end),
        0 <= head < cb.len(),
        !has_node(cb, n),
        route_step(cb[head as int].0, n),
        route_passable(v, n, end),
    ensures
        ({
            let c = cb.push((n, head));
            &&& search_wf(v, c, start, end)
            &&& has_node(c, n)
            &&& forall|x: Axial| has_node(c, x) <==> (has_node(cb, x) || x == n)
            &&& forall|j: int| 0 <= j < cb.len() ==> #[trigger] c[j] == cb[j]
        }),
{
    let c = cb.push((n, head));
    assert forall|j: int| 0 <= j < cb.len() implies #[trigger] c[j] == cb[j] by {}
    let last = cb.len() as int;
    assert(c[last] == (n, head));
    assert(c[head as int] == cb[head as int]);
    assert forall|a: int, b: int| 0 <= a < b < c.len() implies #[trigger] c[a].0 != #[trigger] c[b].0 by {
        if b == last {
            assert(c[a] == cb[a]);
            assert(has_node(cb, cb[a].0));
        } else {
            assert(c[a] == cb[a] && c[b] == cb[b]);
        }
    }
    assert forall|k: int| 1 <= k < c.len() implies {
        &&& (#[trigger] c[k]).1 < k
        &&& route_step(c[c[k].1 as int].0, c[k].0)
        &&& route_passable(v, c[k].0, end)
    } by {
        if k < last {
            assert(c[k] == cb[k]);
            assert(c[cb[k].1 as int] == cb[cb[k].1 as int]);
        } else {
            assert(c[k].1 == head);
        }
    }
    assert forall|x: Axial| has_node(c, x) <==> (has_node(cb, x) || x == n) by {
        if has_node(c, x) {
            let j = choose|j: int| 0 <= j < c.len() && #[trigger] c[j].0 == x;
            if j < last {
                assert(cb[j] == c[j]);
            }
        }
        if has_node(cb, x) {
            let j = choose|j: int| 0 <= j < cb.len() && #[trigger] cb[j].0 == x;
            assert(c[j] == cb[j]);
        }
        if x == n {
            assert(c[last].0 == x);
        }
    }
}

/// Recording a new neighbour of the hex being searched one deeper keeps
/// the depths in order.
proof fn lemma_record_depth(cb: Seq<(Axial, usize)>, db: Seq<int>, head: usize, n: Axial)
    requires
        depths_ok(cb, db),
        0 <= head < cb.len(),
        forall|k: int| 0 <= k < cb.len() ==> #[trigger] db[k] <= db[head as int] + 1,
        forall|k: int| 1 <= k < cb.len() ==> (#[trigger] cb[k]).1 <= head,
    ensures
        ({
            let c = cb.push((n, head));
            let d = db.push(db[head as int] + 1);
            &&& depths_ok(c, d)
            &&& forall|k: int| 0 <= k < c.len() ==> #[trigger] d[k] <= d[head as int] + 1
            &&& forall|k: int| 1 <= k < c.len() ==> (#[trigger] c[k]).1 <= head
        }),
{
    let c = cb.push((n, head));
    let d = db.push(db[head as int] + 1);
    let last = cb.len() as int;
    assert forall|k: int| 1 <= k < c.len() implies #[trigger] d[k] == d[c[k].1 as int] + 1 by {
        if k < last {
            assert(c[k] == cb[k]);
            assert(d[k] == db[k]);
            assert(d[cb[k].1 as int] == db[cb[k].1 as int]);
        } else {
            assert(d[head as int] == db[head as int]);
        }
    }
    assert forall|a: int, b: int| 0 <= a <= b < c.len() implies #[trigger] d[a] <= #[trigger] d[b] by {
        if b == last && a < last {
            assert(db[a] <= db[head as int] + 1);
        } else if b < last {
            assert(d[a] == db[a] && d[b] == db[b]);
        }
    }
    assert forall|k: int| 0 <= k < c.len() implies #[trigger] d[k] <= d[head as int] + 1 by {
        if k < last {
            assert(d[k] == db[k]);
        }
    }
    assert forall|k: int| 1 <= k < c.len() implies (#[trigger] c[k]).1 <= head by {
        if k < last {
            assert(c[k] == cb[k]);
        }
    }
}

/// Recording a hex that holds a block keeps every recorded hex but the
/// start on a block.
proof fn lemma_record_keys(v: Seq<(Axial, BlockView)>, cb: Seq<(Axial, usize)>, head: usize, n: Axial)
    requires
        forall|k: int| 1 <= k < cb.len() ==> index_of(v, (#[trigger] cb[k]).0) >= 0,
        index_of(v, n) >= 0,
    ensures
        forall|k: int| 1 <= k < cb.len() + 1 ==> index_of(v, (#[trigger] cb.push((n, head))[k]).0) >= 0,
{
    let c = cb.push((n, head));
    assert forall|k: int| 1 <= k < cb.len() + 1 implies index_of(v, (#[trigger] c[k]).0) >= 0 by {
        if k < cb.len() {
            assert(c[k] == cb[k]);
        }
    }
}

/// When the search meets `end` next to the hex being searched, the path it
/// rebuilds is a route path no longer than any other.
proof fn lemma_found_end(
    v: Seq<(Axial, BlockView)>,
    cb: Seq<(Axial, usize)>,
    db: Seq<int>,
    start: Axial,
    end: Axial,
    head: usize,
)
    requires
        search_wf(v, cb, start, end),
        depths_ok(cb, db),
        0 <= head < cb.len(),
        forall|k: int| 0 <= k < cb.len() ==> #[trigger] db[k] <= db[head as int] + 1,
        forall|k: int| 1 <= k < cb.len() ==> (#[trigger] cb[k]).1 <= head,
        closed_upto(v, cb, end, head as int),
        !has_node(cb, end),
        start != end,
        route_step(cb[head as int].0, end),
    ensures
        ({
            let c = cb.push((end, head));
            let p = chain(c, cb.len() as int);
            &&& is_route_path(v, p, start, end)
            &&& forall|q: Seq<Axial>| #[trigger] is_route_path(v, q, start, end) ==> p.len() <= q.len()
        }),
{
    let c = cb.push((end, head));
    let d = db.push(db[head as int] + 1);
    lemma_record_wf(v, cb, start, end, head, end);
    lemma_record_depth(cb, db, head, end);
    lemma_chain(v, c, start, end, cb.len() as int);
    lemma_chain_len(c, d, cb.len() as int);
    assert(c[cb.len() as int].0 == end);
    assert forall|q: Seq<Axial>| #[trigger] is_route_path(v, q, start, end) implies chain(c, cb.len() as int).len() <= q.len() by {
        lemma_no_shorter_route(v, cb, db, start, end, head as int, q);
    }
}

/// Finds a shortest path from `start` to `end` that steps between
/// neighbours and enters only finished route blocks, apart from `end`
/// itself, by a breadth-first search visiting neighbours in direction
/// order. Returns `None` exactly when no such path exists.
#[verifier::spinoff_prover]
pub fn find_route_path(start: Axial, end: Axial, blocks: &BlockMap) -> (res: Option<Vec<Axial>>)
    requires
        blocks.wf(),
        in_step_range(start),
        forall|j: int| 0 <= j < blocks.view_entries().len() ==> in_step_range(#[trigger] blocks.view_entries()[j].0),
    ensures
        start == end ==> (res matches Some(p) && p@ == seq![start]),
        res matches Some(p) ==> is_route_path(blocks.view_entries(), p@, start, end),
        res matches Some(p) ==> forall|q: Seq<Axial>| #[trigger] is_route_path(blocks.view_entries(), q, start, end)
            ==> p@.len() <= q.len(),
        res is None ==> forall|p: Seq<Axial>| !is_route_path(blocks.view_entries(), p, start, end),
{
    let ghost v = blocks.view_entries();
    if start == end {
        let mut p: Vec<Axial> = Vec::new();
        p.push(start);
        assert(p@ =~= seq![start]);
        return Some(p);
    }
    let mut came: Vec<(Axial, usize)> = Vec::new();
    came.push((start, 0));
    let ghost mut dep: Seq<int> = seq![0int];
    let mut head: usize = 0;
    while head < came.len()
        invariant
            v == blocks.view_entries(),
            blocks.wf(),
            start != end,
            in_step_range(start),
            forall|j: int| 0 <= j < v.len() ==> in_step_range(#[trigger] v[j].0),
            search_wf(v, came@, start, end),
            depths_ok(came@, dep),
            head < came@.len() ==> forall|k: int| 0 <= k < came@.len() ==> #[trigger] dep[k] <= dep[head as int] + 1,
            forall|k: int| 1 <= k < came@.len() ==> (#[trigger] came@[k]).1 < head,
            head <= came@.len(),
            !has_node(came@, end),
            forall|k: int| 1 <= k < came@.len() ==> index_of(v, (#[trigger] came@[k]).0) >= 0,
            closed_upto(v, came@, end, head as int),
        decreases 2 * (v.len() + 1) - came@.len() - head,
    {
        let current = came[head].0;
        proof {
            if head > 0 {
                lemma_index_of(v, current);
                assert(v[index_of(v, current)].0 == current);
            }
        }
        let nbs = axial_neighbors(current);
        let ghost c0 = came@;
        let mut i: usize = 0;
        while i < 6
            invariant
                v == blocks.view_entries(),
                blocks.wf(),
                start != end,
                forall|j: int| 0 <= j < v.len() ==> in_step_range(#[trigger] v[j].0),
                search_wf(v, came@, start, end),
                depths_ok(came@, dep),
                forall|k: int| 0 <= k < came@.len() ==> #[trigger] dep[k] <= dep[head as int] + 1,
                forall|k: int| 1 <= k < came@.len() ==> (#[trigger] came@[k]).1 <= head,
                head < came@.len(),
                came@[head as int].0 == current,
                came@.len() >= c0.len(),
                !has_node(came@, end),
                forall|k: int| 1 <= k < came@.len() ==> index_of(v, (#[trigger] came@[k]).0) >= 0,
                closed_upto(v, came@, end, head as int),
                forall|m: int| 0 <= m < 6 ==> #[trigger] nbs[m] == neighbor_of(current, m),
                forall|m: int| 0 <= m < i && route_passable(v, #[trigger] neighbor_of(current, m), end)
                    ==> exists|e: int| 0 <= e < came@.len() && #[trigger] came@[e].0 == neighbor_of(current, m)
                        && (e == 0 || came@[e].1 <= head),
            decreases 6 - i,
        {
            let n = nbs[i];
            let ghost cb = came@;
            if !search_has(&came, n) {
                let passable = n == end || match blocks.get(n) {
                    Some(b) => b.kind == BuildBlockType::Route && !is_under_construction(b),
                    None => false,
                };
                proof {
                    lemma_index_of(v, n);
                }
                if passable {
                    let ghost db = dep;
                    proof {
                        assert(route_step(cb[head as int].0, n)) by {
                            assert(n == neighbor_of(current, i as int));
                        }
                        if n == end {
                            lemma_found_end(v, cb, db, start, end, head);
                        }
                    }
                    came.push((n, head));
                    proof {
                        assert(came@ =~= cb.push((n, head)));
                    }
                    if n == end {
                        let p = rebuild_path(&came, came.len() - 1);
                        return Some(p);
                    }
                    proof {
                        lemma_record_wf(v, cb, start, end, head, n);
                        lemma_record_depth(cb, db, head, n);
                        lemma_record_keys(v, cb, head, n);
                        dep = db.push(db[head as int] + 1);
                        lemma_closed_grow(v, cb, came@, end, head as int);
                    }
                }
            } else {
                proof {
                    let e = choose|e: int| 0 <= e < came@.len() && #[trigger] came@[e].0 == n;
                }
            }
            proof {
                assert forall|m: int| 0 <= m < i + 1 && route_passable(v, #[trigger] neighbor_of(current, m), end)
                    implies exists|e: int| 0 <= e < came@.len() && #[trigger] came@[e].0 == neighbor_of(current, m)
                        && (e == 0 || came@[e].1 <= head) by {
                    if m < i {
                        let e = choose|e: int| 0 <= e < cb.len() && #[trigger] cb[e].0 == neighbor_of(current, m) && (e == 0 || cb[e].1 <= head);
                        assert(came@[e] == cb[e]);
                    } else {
                        assert(neighbor_of(current, m) == n);
                        let e = choose|e: int| 0 <= e < came@.len() && #[trigger] came@[e].0 == n;
                    }
                }
            }
            i = i + 1;
        }
        proof {
            let c = came@;
            let s = c.map_values(|e: (Axial, usize)| e.0).drop_first();
            assert forall|j: int| 0 <= j < s.len() implies #[trigger] s[j] == c[j + 1].0 by {}
            assert(s.no_duplicates()) by {
                assert forall|a: int, b: int| 0 <= a < s.len() && 0 <= b < s.len() && a != b implies s[a] != s[b] by {
                    assert(s[a] == c[a + 1].0 && s[b] == c[b + 1].0);
                    if a < b {
                        assert(c[a + 1].0 != c[b + 1].0);
                    } else {
                        assert(c[b + 1].0 != c[a + 1].0);
                    }
                }
            }
            assert forall|j: int| 0 <= j < s.len() implies index_of(v, #[trigger] s[j]) >= 0 by {
                assert(s[j] == c[j + 1].0);
                assert(index_of(v, c[j + 1].0) >= 0);
            }
            lemma_distinct_keys_bound(s, v);
            assert forall|k: int, m: int| 0 <= k < head + 1 && 0 <= m < 6 && route_passable(v, #[trigger] neighbor_of(c[k].0, m), end)
                implies exists|e: int| 0 <= e < c.len() && #[trigger] c[e].0 == neighbor_of(c[k].0, m) && (e == 0 || c[e].1 <= k) by {
                if k == head {
                    assert(neighbor_of(c[k].0, m) == neighbor_of(current, m));
                }
            }
            if head + 1 < c.len() {
                assert(dep[head as int] <= dep[head + 1]);
            }
        }
        head = head + 1;
    }
    proof {
        assert forall|p: Seq<Axial>| !is_route_path(v, p, start, end) by {
            if is_route_path(v, p, start, end) {
                lemma_route_prefix_recorded(v, came@, start, end, p, p.len() - 1);
                assert(p[p.len() - 1] == end);
            }
        }
    }
    None
}

} // verus!
