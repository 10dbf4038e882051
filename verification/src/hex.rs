//! Axial hex coordinates: distance, neighbours, greedy paths, and the hexes
//! a building site draws materials from.

use vstd::prelude::*;

verus! {

/// A hex cell in axial coordinates.
#[derive(Clone, Copy, Debug, PartialEq, Eq, Structural, Hash)]
pub struct Axial {
    pub q: i32,
    pub r: i32,
}

/// Absolute value on mathematical integers.
pub open spec fn abs_int(x: int) -> int {
    if x < 0 { -x } else { x }
}

/// Number of steps between two hexes on the grid.
pub open spec fn hex_dist(a: Axial, b: Axial) -> int {
    let dq = a.q - b.q;
    let dr = a.r - b.r;
    let ds = (a.q + a.r) - (b.q + b.r);
    (abs_int(dq) + abs_int(dr) + abs_int(ds)) / 2
}

/// Grid distance between two hexes.
pub fn hex_distance(a: Axial, b: Axial) -> (d: i32)
    requires
        hex_dist(a, b) <= i32::MAX,
    ensures
        d == hex_dist(a, b),
{
    let dq: i64 = a.q as i64 - b.q as i64;
    let dr: i64 = a.r as i64 - b.r as i64;
    let ds: i64 = (a.q as i64 + a.r as i64) - (b.q as i64 + b.r as i64);
    let aq: i64 = if dq < 0 { -dq } else { dq };
    let ar: i64 = if dr < 0 { -dr } else { dr };
    let as_: i64 = if ds < 0 { -ds } else { ds };
    ((aq + ar + as_) / 2) as i32
}


/// A hex whose six neighbours all have coordinates that fit in `i32`.
pub open spec fn in_step_range(h: Axial) -> bool {
    i32::MIN < h.q < i32::MAX && i32::MIN < h.r < i32::MAX
}

/// The axial offset of neighbour direction `i` (0 to 5).
pub open spec fn dir_q(i: int) -> int {
    if i == 0 { 1 } else if i == 1 { 1 } else if i == 2 { 0 } else if i == 3 { -1 } else if i == 4 { -1 } else { 0 }
}

/// The axial offset of neighbour direction `i` (0 to 5).
pub open spec fn dir_r(i: int) -> int {
    if i == 0 { 0 } else if i == 1 { -1 } else if i == 2 { -1 } else if i == 3 { 0 } else if i == 4 { 1 } else { 1 }
}

/// The neighbour of `h` in direction `i`.
pub open spec fn neighbor_of(h: Axial, i: int) -> Axial {
    Axial { q: (h.q + dir_q(i)) as i32, r: (h.r + dir_r(i)) as i32 }
}

/// The six neighbours of a hex, in direction order.
pub fn axial_neighbors(h: Axial) -> (res: [Axial; 6])
    requires
        in_step_range(h),
    ensures
        forall|i: int| 0 <= i < 6 ==> #[trigger] res[i] == neighbor_of(h, i),
{
    let res = [
        Axial { q: h.q + 1, r: h.r },
        Axial { q: h.q + 1, r: h.r - 1 },
        Axial { q: h.q, r: h.r - 1 },
        Axial { q: h.q - 1, r: h.r },
        Axial { q: h.q - 1, r: h.r + 1 },
        Axial { q: h.q, r: h.r + 1 },
    ];
    assert(forall|i: int| 0 <= i < 6 ==> #[trigger] res[i] == neighbor_of(h, i)) by {
        assert(res[0] == neighbor_of(h, 0));
        assert(res[1] == neighbor_of(h, 1));
        assert(res[2] == neighbor_of(h, 2));
        assert(res[3] == neighbor_of(h, 3));
        assert(res[4] == neighbor_of(h, 4));
        assert(res[5] == neighbor_of(h, 5));
    }
    res
}

/// Every neighbour is one step away, and a step changes the distance to any
/// hex by at most one.
pub proof fn lemma_neighbor_step(h: Axial, e: Axial, i: int)
    requires
        in_step_range(h),
        0 <= i < 6,
    ensures
        hex_dist(h, neighbor_of(h, i)) == 1,
        hex_dist(h, e) - 1 <= hex_dist(neighbor_of(h, i), e) <= hex_dist(h, e) + 1,
{
}

/// Grid distance is symmetric, zero exactly on equal hexes, and obeys the
/// triangle inequality.
pub proof fn lemma_hex_dist_metric(a: Axial, b: Axial, c: Axial)
    ensures
        hex_dist(a, b) == hex_dist(b, a),
        hex_dist(a, b) >= 0,
        hex_dist(a, b) == 0 <==> a == b,
        hex_dist(a, c) <= hex_dist(a, b) + hex_dist(b, c),
{
}


/// The first neighbour of `c`, in direction order from `i` on, that is
/// strictly closer to `e` than `c` is; `c` itself when there is none.
pub open spec fn first_closer_from(c: Axial, e: Axial, i: int) -> Axial
    decreases 6 - i,
{
    if i >= 6 || i < 0 {
        c
    } else if hex_dist(neighbor_of(c, i), e) < hex_dist(c, e) {
        neighbor_of(c, i)
    } else {
        first_closer_from(c, e, i + 1)
    }
}

/// One step of the greedy walk towards `e`: the first neighbour in direction
/// order that is strictly closer to `e`.
pub open spec fn greedy_step(c: Axial, e: Axial) -> Axial {
    first_closer_from(c, e, 0)
}

/// The cell reached after `k` greedy steps from `s` towards `e`.
pub open spec fn greedy_walk(s: Axial, e: Axial, k: nat) -> Axial
    decreases k,
{
    if k == 0 {
        s
    } else {
        greedy_step(greedy_walk(s, e, (k - 1) as nat), e)
    }
}

/// The greedy path from `s` to `e`: every cell of the walk, both ends included.
pub open spec fn greedy_path(s: Axial, e: Axial) -> Seq<Axial> {
    Seq::new((hex_dist(s, e) + 1) as nat, |i: int| greedy_walk(s, e, i as nat))
}

/// `x` lies between `a` and `b`, both included.
pub open spec fn between(x: int, a: int, b: int) -> bool {
    (a <= x <= b) || (b <= x <= a)
}

/// `c` lies in the cube-coordinate box spanned by `s` and `e`.
pub open spec fn in_box(c: Axial, s: Axial, e: Axial) -> bool {
    &&& between(c.q as int, s.q as int, e.q as int)
    &&& between(c.r as int, s.r as int, e.r as int)
    &&& between(c.q + c.r, s.q + s.r, e.q + e.r)
}

/// A greedy step from a hex other than the goal exists, lands one step closer
/// to the goal, and moves every cube coordinate towards the goal.
pub proof fn lemma_greedy_step(c: Axial, e: Axial)
    requires
        in_step_range(c),
        c != e,
    ensures
        hex_dist(greedy_step(c, e), e) == hex_dist(c, e) - 1,
        hex_dist(c, greedy_step(c, e)) == 1,
        in_box(greedy_step(c, e), c, e),
{
    let d = hex_dist(c, e);
    assert(hex_dist(neighbor_of(c, 0), e) < d || hex_dist(neighbor_of(c, 1), e) < d
        || hex_dist(neighbor_of(c, 2), e) < d || hex_dist(neighbor_of(c, 3), e) < d
        || hex_dist(neighbor_of(c, 4), e) < d || hex_dist(neighbor_of(c, 5), e) < d);
    assert forall|i: int| 0 <= i < 6 implies hex_dist(neighbor_of(c, i), e) >= d - 1 by {
        lemma_neighbor_step(c, e, i);
    }
    let g = greedy_step(c, e);
    assert(g == first_closer_from(c, e, 0));
    assert(hex_dist(g, e) < d) by {
        reveal_with_fuel(first_closer_from, 7);
    }
    assert(exists|i: int| 0 <= i < 6 && g == neighbor_of(c, i)) by {
        reveal_with_fuel(first_closer_from, 7);
        if hex_dist(neighbor_of(c, 0), e) < d {
            assert(g == neighbor_of(c, 0));
        } else if hex_dist(neighbor_of(c, 1), e) < d {
            assert(g == neighbor_of(c, 1));
        } else if hex_dist(neighbor_of(c, 2), e) < d {
            assert(g == neighbor_of(c, 2));
        } else if hex_dist(neighbor_of(c, 3), e) < d {
            assert(g == neighbor_of(c, 3));
        } else if hex_dist(neighbor_of(c, 4), e) < d {
            assert(g == neighbor_of(c, 4));
        } else {
            assert(g == neighbor_of(c, 5));
        }
    }
    let i = choose|i: int| 0 <= i < 6 && g == neighbor_of(c, i);
    lemma_neighbor_step(c, e, i);
}


/// Every cell of the greedy walk stays in the box spanned by its ends and is
/// exactly `k` steps closer to the goal after `k` steps.
pub proof fn lemma_greedy_walk(s: Axial, e: Axial, k: nat)
    requires
        in_step_range(s),
        in_step_range(e),
        k <= hex_dist(s, e),
    ensures
        hex_dist(greedy_walk(s, e, k), e) == hex_dist(s, e) - k,
        in_box(greedy_walk(s, e, k), s, e),
        in_step_range(greedy_walk(s, e, k)),
        k < hex_dist(s, e) ==> hex_dist(greedy_walk(s, e, k), greedy_walk(s, e, k + 1)) == 1,
    decreases k,
{
    if k > 0 {
        lemma_greedy_walk(s, e, (k - 1) as nat);
        let c = greedy_walk(s, e, (k - 1) as nat);
        lemma_hex_dist_metric(c, e, e);
        lemma_greedy_step(c, e);
    }
    if k < hex_dist(s, e) {
        let c = greedy_walk(s, e, k);
        lemma_hex_dist_metric(c, e, e);
        lemma_greedy_step(c, e);
    }
}

/// The greedy path is a shortest path: it starts at `s`, ends at `e`, has
/// one more cell than the distance between them, and each cell is a
/// neighbour of the one before it.
pub proof fn lemma_greedy_path_shortest(s: Axial, e: Axial)
    requires
        in_step_range(s),
        in_step_range(e),
    ensures
        greedy_path(s, e).len() == hex_dist(s, e) + 1,
        greedy_path(s, e)[0] == s,
        greedy_path(s, e).last() == e,
        forall|i: int|
            0 <= i < hex_dist(s, e) ==> hex_dist(
                #[trigger] greedy_path(s, e)[i],
                greedy_path(s, e)[i + 1],
            ) == 1,
{
    let d = hex_dist(s, e);
    lemma_hex_dist_metric(s, e, e);
    lemma_greedy_walk(s, e, d as nat);
    lemma_hex_dist_metric(greedy_walk(s, e, d as nat), e, e);
    assert forall|i: int| 0 <= i < d implies hex_dist(
        #[trigger] greedy_path(s, e)[i],
        greedy_path(s, e)[i + 1],
    ) == 1 by {
        lemma_greedy_walk(s, e, i as nat);
        assert(greedy_path(s, e)[i + 1] == greedy_walk(s, e, (i + 1) as nat));
    }
}

/// Walks greedily from `start` towards `end`, always to the first neighbour
/// that is closer, giving up after 4096 steps.
pub fn find_direct_path(start: Axial, end: Axial) -> (res: Option<Vec<Axial>>)
    requires
        in_step_range(start),
        in_step_range(end),
        hex_dist(start, end) < i32::MAX,
    ensures
        res is Some <==> hex_dist(start, end) <= 4096,
        res matches Some(path) ==> path@ == greedy_path(start, end),
{
    let ghost d = hex_dist(start, end);
    proof {
        lemma_hex_dist_metric(start, end, end);
    }
    if start == end {
        let path = vec![start];
        assert(path@ =~= greedy_path(start, end));
        return Some(path);
    }
    let mut path: Vec<Axial> = Vec::new();
    path.push(start);
    let mut current = start;
    let mut guard: u32 = 0;
    proof {
        lemma_greedy_walk(start, end, 0);
    }
    while current != end && guard < 4096
        invariant
            in_step_range(start),
            in_step_range(end),
            d == hex_dist(start, end),
            d < i32::MAX,
            guard <= d,
            guard <= 4096,
            current == greedy_walk(start, end, guard as nat),
            hex_dist(current, end) == d - guard,
            in_step_range(current),
            path@ =~= Seq::new((guard + 1) as nat, |i: int| greedy_walk(start, end, i as nat)),
        ensures
            current == end || guard == 4096,
        decreases 4096 - guard,
    {
        proof {
            lemma_hex_dist_metric(current, end, end);
            lemma_greedy_step(current, end);
        }
        let mut best = current;
        let mut best_dist = hex_distance(current, end);
        let nbs = axial_neighbors(current);
        let ghost cd = hex_dist(current, end);
        for k in 0..6usize
            invariant
                in_step_range(current),
                current != end,
                cd == hex_dist(current, end),
                cd < i32::MAX,
                forall|i: int| 0 <= i < 6 ==> #[trigger] nbs[i] == neighbor_of(current, i),
                best_dist == cd ==> best == current && greedy_step(current, end)
                    == first_closer_from(current, end, k as int),
                best_dist != cd ==> best_dist == cd - 1 && best == greedy_step(current, end),
        {
            proof {
                lemma_neighbor_step(current, end, k as int);
                lemma_greedy_step(current, end);
            }
            let nb = nbs[k];
            let dist = hex_distance(nb, end);
            if dist < best_dist {
                best = nb;
                best_dist = dist;
            }
        }
        proof {
            assert(first_closer_from(current, end, 6) == current);
            assert(best != current);
        }
        if best == current {
            break;
        }
        proof {
            lemma_greedy_walk(start, end, (guard + 1) as nat);
        }
        current = best;
        path.push(current);
        guard += 1;
    }
    if current != end {
        return None;
    }
    proof {
        lemma_hex_dist_metric(current, end, end);
    }
    assert(path@ =~= greedy_path(start, end));
    Some(path)
}

} // verus!

verus! {

/// The hexes a construction site draws materials from: the site itself,
/// then its six neighbours in direction order.
pub open spec fn spec_requirement_sources(t: Axial) -> Seq<Axial> {
    seq![t, neighbor_of(t, 0), neighbor_of(t, 1), neighbor_of(t, 2), neighbor_of(t, 3), neighbor_of(t, 4), neighbor_of(t, 5)]
}

/// The seven source hexes are all different.
pub proof fn lemma_requirement_sources_distinct(t: Axial)
    requires
        in_step_range(t),
    ensures
        spec_requirement_sources(t).no_duplicates(),
        spec_requirement_sources(t).len() == 7,
{
    let s = spec_requirement_sources(t);
    assert forall|i: int, j: int| 0 <= i < s.len() && 0 <= j < s.len() && i != j implies s[i] != s[j] by {
    }
}

/// The hexes a construction site draws materials from: the site itself,
/// then its six neighbours.
pub fn requirement_sources(target: Axial) -> (sources: Vec<Axial>)
    requires
        in_step_range(target),
    ensures
        sources@ == spec_requirement_sources(target),
{
    let mut sources: Vec<Axial> = Vec::with_capacity(7);
    sources.push(target);
    let nbs = axial_neighbors(target);
    let mut i: usize = 0;
    while i < 6
        invariant
            i <= 6,
            forall|k: int| 0 <= k < 6 ==> #[trigger] nbs[k] == neighbor_of(target, k),
            sources@ =~= spec_requirement_sources(target).take(i + 1),
        decreases 6 - i,
    {
        sources.push(nbs[i]);
        i = i + 1;
    }
    assert(spec_requirement_sources(target).take(7) =~= spec_requirement_sources(target));
    sources
}

} // verus!
