//! Uniform-cost best-first search for the least number of steps.

use super::frontier::Frontier;
use super::grid::Grid;
use super::terrain::Terrain;
use vstd::multiset::Multiset;
use vstd::prelude::*;

verus! {

/// The distance recorded for a cell that no walk has reached yet.
pub const UNREACHED: usize = usize::MAX;

/// The end cell cannot be reached from any start.
#[derive(Clone, Copy, Debug, PartialEq, Eq)]
pub struct NoPath;

/// The set of cells that a list of starts names.
pub open spec fn start_set(starts: Seq<usize>) -> Set<int> {
    Set::new(|c: int| exists|i: int| 0 <= i < starts.len() && starts[i] == c)
}

/// What a search from `starts` to `end` has to return: the least number of
/// steps of a walk that connects them, or `NoPath` when there is no such walk.
pub open spec fn is_answer(
    t: Terrain,
    starts: Set<int>,
    end: int,
    r: Result<usize, NoPath>,
) -> bool {
    match r {
        Ok(d) => t.distance(starts, end) == Some(d as nat),
        Err(_) => t.distance(starts, end) is None,
    }
}

/// Stepping from `cur` to `next` is legal and improves on the distance
/// recorded for `next`.
pub open spec fn improves(t: Terrain, dist: Seq<usize>, cur: int, next: int) -> bool {
    t.can_step(cur, next) && dist[cur] + 1 < dist[next]
}

/// The sum of all recorded distances, which every relaxation lowers.
pub open spec fn total(dist: Seq<usize>) -> int
    decreases dist.len(),
{
    if dist.len() == 0 {
        0
    } else {
        total(dist.drop_last()) + dist.last()
    }
}

/// Every step out of `c` is relaxed: the cell it leads to is recorded at most
/// one step farther than `c`.
pub open spec fn relaxed(t: Terrain, dist: Seq<usize>, c: int) -> bool {
    forall|v: int| #[trigger] t.can_step(c, v) ==> dist[v] <= dist[c] + 1
}

/// The frontier holds `c` at the distance recorded for it.
pub open spec fn pending(dist: Seq<usize>, f: Multiset<(usize, usize)>, c: int) -> bool {
    f.count((dist[c], c as usize)) > 0
}

/// The frontier holds `c` at distance `k`.
pub open spec fn holds(f: Multiset<(usize, usize)>, k: usize, c: int) -> bool {
    f.count((k, c as usize)) > 0
}

/// The frontier holds `c` at some distance.
pub open spec fn queued(f: Multiset<(usize, usize)>, c: int) -> bool {
    exists|k: usize| #[trigger] holds(f, k, c)
}

/// Every recorded distance is the length of a walk from a start.
pub open spec fn sound(t: Terrain, starts: Set<int>, dist: Seq<usize>) -> bool {
    forall|c: int|
        t.contains(c) && (#[trigger] dist[c]) < UNREACHED ==> t.reachable_in(
            starts,
            c,
            dist[c] as nat,
        )
}

/// Every start is recorded at distance 0.
pub open spec fn seeded(t: Terrain, starts: Set<int>, dist: Seq<usize>) -> bool {
    forall|c: int| t.contains(c) && starts.contains(c) ==> (#[trigger] dist[c]) == 0
}

/// Every entry of the frontier names a cell, at a distance that is no less
/// than the one recorded for the cell.
pub open spec fn entries_valid(t: Terrain, dist: Seq<usize>, f: Multiset<(usize, usize)>) -> bool {
    forall|e: (usize, usize)| #[trigger]
        f.count(e) > 0 ==> t.contains(e.1 as int) && dist[e.1 as int] <= e.0 < UNREACHED
}

/// Every reached cell other than `skip` either awaits expansion at its
/// recorded distance or has all its steps relaxed.
pub open spec fn settled(
    t: Terrain,
    dist: Seq<usize>,
    f: Multiset<(usize, usize)>,
    skip: int,
) -> bool {
    forall|c: int|
        t.contains(c) && c != skip && (#[trigger] dist[c]) < UNREACHED ==> pending(dist, f, c)
            || relaxed(t, dist, c)
}

/// What holds of the distance table and the frontier between two steps of
/// the search; `skip` is the cell being expanded, or no cell at all.
pub open spec fn search_inv(
    t: Terrain,
    starts: Set<int>,
    dist: Seq<usize>,
    f: Multiset<(usize, usize)>,
    skip: int,
) -> bool {
    &&& t.wf()
    &&& dist.len() == t.cells.len() <= usize::MAX
    &&& sound(t, starts, dist)
    &&& seeded(t, starts, dist)
    &&& entries_valid(t, dist, f)
    &&& settled(t, dist, f, skip)
}

/// The sum of the recorded distances is not negative.
pub proof fn lemma_total_nonnegative(dist: Seq<usize>)
    ensures
        total(dist) >= 0,
    decreases dist.len(),
{
    if dist.len() > 0 {
        lemma_total_nonnegative(dist.drop_last());
    }
}

/// Recording another distance for one cell changes the sum by the
/// difference.
pub proof fn lemma_total_update(dist: Seq<usize>, i: int, v: usize)
    requires
        0 <= i < dist.len(),
    ensures
        total(dist.update(i, v)) == total(dist) - dist[i] + v,
    decreases dist.len(),
{
    if i == dist.len() - 1 {
        assert(dist.update(i, v).drop_last() =~= dist.drop_last());
    } else {
        assert(dist.update(i, v).drop_last() =~= dist.drop_last().update(i, v));
        lemma_total_update(dist.drop_last(), i, v);
    }
}

/// Relaxing the step from the cell under expansion to a neighbour keeps the
/// search invariant.
pub proof fn lemma_relaxation_keeps_invariant(
    t: Terrain,
    starts: Set<int>,
    dist: Seq<usize>,
    f: Multiset<(usize, usize)>,
    cur: int,
    next: int,
)
    requires
        search_inv(t, starts, dist, f, cur),
        t.adjacent(cur, next),
        dist[cur] < UNREACHED,
        improves(t, dist, cur, next),
    ensures
        search_inv(
            t,
            starts,
            dist.update(next, (dist[cur] + 1) as usize),
            f.insert(((dist[cur] + 1) as usize, next as usize)),
            cur,
        ),
{
    let cand = (dist[cur] + 1) as usize;
    let d2 = dist.update(next, cand);
    let f2 = f.insert((cand, next as usize));
    assert(sound(t, starts, d2)) by {
        assert forall|c: int| t.contains(c) && (#[trigger] d2[c]) < UNREACHED implies t.reachable_in(
            starts,
            c,
            d2[c] as nat,
        ) by {
            if c == next {
                assert(t.reachable_in(starts, cur, dist[cur] as nat));
                t.lemma_reach_step(starts, cur, next, dist[cur] as nat);
            } else {
                assert(d2[c] == dist[c]);
            }
        }
    }
    assert(seeded(t, starts, d2)) by {
        assert forall|c: int| t.contains(c) && starts.contains(c) implies (#[trigger] d2[c])
            == 0 by {
            assert(dist[c] == 0);
        }
    }
    assert(entries_valid(t, d2, f2)) by {
        assert forall|e: (usize, usize)| #[trigger] f2.count(e) > 0 implies t.contains(e.1 as int)
            && d2[e.1 as int] <= e.0 < UNREACHED by {
            if e != (cand, next as usize) {
                assert(f.count(e) > 0);
            }
        }
    }
    assert(settled(t, d2, f2, cur)) by {
        assert forall|c: int|
            t.contains(c) && c != cur && (#[trigger] d2[c]) < UNREACHED implies pending(d2, f2, c)
            || relaxed(t, d2, c) by {
            if c == next {
                assert(f2.count((cand, next as usize)) > 0);
            } else {
                assert(dist[c] == d2[c]);
                if pending(dist, f, c) {
                    assert(f2.count((dist[c], c as usize)) > 0);
                } else {
                    assert(relaxed(t, dist, c));
                    assert forall|v: int| #[trigger] t.can_step(c, v) implies d2[v] <= d2[c]
                        + 1 by {
                        assert(dist[v] <= dist[c] + 1);
                    }
                }
            }
        }
    }
}

/// While every entry of the frontier is at distance `bound` or more, the
/// cells of a walk from a start are recorded no farther than their place in
/// the walk, up to place `bound`.
pub proof fn lemma_prefix_bound(
    t: Terrain,
    starts: Set<int>,
    dist: Seq<usize>,
    f: Multiset<(usize, usize)>,
    bound: int,
    w: Seq<int>,
    i: int,
)
    requires
        search_inv(t, starts, dist, f, -1),
        forall|e: (usize, usize)| #[trigger] f.count(e) > 0 ==> bound <= e.0,
        t.is_walk(w),
        starts.contains(w[0]),
        0 <= i < w.len(),
        i <= bound,
    ensures
        dist[w[i]] <= i,
    decreases i,
{
    assert(t.contains(w[0]));
    if i > 0 {
        lemma_prefix_bound(t, starts, dist, f, bound, w, i - 1);
        let p = w[i - 1];
        assert(t.contains(p));
        assert(t.step_at(w, i - 1));
        if dist[p] < UNREACHED {
            if pending(dist, f, p) {
                assert(f.count((dist[p], p as usize)) > 0);
                assert(false);
            }
            assert(relaxed(t, dist, p));
        } else {
            assert(t.contains(w[i]));
        }
    }
}

/// Taking an entry out of the frontier keeps the search invariant, with the
/// entry's cell set aside for expansion if the entry is not stale.
pub proof fn lemma_pop_keeps_invariant(
    t: Terrain,
    starts: Set<int>,
    dist: Seq<usize>,
    f: Multiset<(usize, usize)>,
    e: (usize, usize),
    end: int,
)
    requires
        search_inv(t, starts, dist, f, -1),
        f.count(e) > 0,
        t.contains(end),
        dist[end] < UNREACHED ==> queued(f, end),
        e.1 != end,
    ensures
        search_inv(t, starts, dist, f.remove(e), if e.0 == dist[e.1 as int] { e.1 as int } else { -1 }),
        dist[end] < UNREACHED ==> queued(f.remove(e), end),
{
    let f2 = f.remove(e);
    let skip = if e.0 == dist[e.1 as int] { e.1 as int } else { -1 };
    assert forall|o: (usize, usize)| #[trigger] f2.count(o) > 0 implies f.count(o) > 0 by {}
    assert(settled(t, dist, f2, skip)) by {
        assert forall|c: int|
            t.contains(c) && c != skip && (#[trigger] dist[c]) < UNREACHED implies pending(dist, f2, c)
            || relaxed(t, dist, c) by {
            if pending(dist, f, c) {
                assert((dist[c], c as usize) != e);
                assert(f2.count((dist[c], c as usize)) > 0);
            }
        }
    }
    if dist[end] < UNREACHED {
        let k = choose|k: usize| #[trigger] holds(f, k, end);
        assert((k, end as usize) != e);
        assert(holds(f2, k, end));
    }
}

/// Relaxes the step from `cur` to its neighbour `next`: if the step is legal
/// and reaches `next` in fewer steps than recorded, records the new distance
/// and adds `next` to the frontier at that distance.
pub fn update(grid: &Grid, dist: &mut Vec<usize>, frontier: &mut Frontier, cur: usize, next: usize)
    requires
        old(frontier).wf(),
        old(dist).len() == grid@.cells.len(),
        grid@.adjacent(cur as int, next as int),
        old(dist)[cur as int] < UNREACHED,
    ensures
        final(frontier).wf(),
        improves(grid@, old(dist)@, cur as int, next as int) ==> {
            &&& final(dist)@ == old(dist)@.update(next as int, (old(dist)[cur as int] + 1) as usize)
            &&& final(frontier)@ == old(frontier)@.insert(
                ((old(dist)[cur as int] + 1) as usize, next),
            )
        },
        !improves(grid@, old(dist)@, cur as int, next as int) ==> {
            &&& final(dist)@ == old(dist)@
            &&& final(frontier)@ == old(frontier)@
        },
{
    let from = grid.elevation(cur);
    let to = grid.elevation(next);
    if to > from && to - from > 1 {
        return ;
    }
    let candidate = dist[cur] + 1;
    if dist[next] <= candidate {
        return ;
    }
    dist[next] = candidate;
    frontier.push(candidate, next);
}

/// Relaxes the step from the cell under expansion to one of its neighbours,
/// if it has that neighbour.
fn relax_toward(
    grid: &Grid,
    dist: &mut Vec<usize>,
    frontier: &mut Frontier,
    cur: usize,
    next: Option<usize>,
    Ghost(starts): Ghost<Set<int>>,
    Ghost(end): Ghost<int>,
)
    requires
        old(frontier).wf(),
        search_inv(grid@, starts, old(dist)@, old(frontier)@, cur as int),
        grid@.contains(cur as int),
        grid@.contains(end),
        next matches Some(v) ==> grid@.adjacent(cur as int, v as int),
        old(dist)[cur as int] < UNREACHED,
        old(dist)[end] < UNREACHED ==> queued(old(frontier)@, end),
    ensures
        final(frontier).wf(),
        search_inv(grid@, starts, final(dist)@, final(frontier)@, cur as int),
        final(dist)[cur as int] == old(dist)[cur as int],
        forall|c: int| 0 <= c < old(dist).len() ==> final(dist)[c] <= old(dist)[c],
        next matches Some(v) ==> (grid@.can_step(cur as int, v as int) ==> final(dist)[v as int]
            <= old(dist)[cur as int] + 1),
        final(dist)[end] < UNREACHED ==> queued(final(frontier)@, end),
        total(final(dist)@) < total(old(dist)@) || (final(dist)@ == old(dist)@ && final(frontier)@
            == old(frontier)@),
{
    if let Some(v) = next {
        proof {
            if improves(grid@, dist@, cur as int, v as int) {
                lemma_relaxation_keeps_invariant(
                    grid@,
                    starts,
                    dist@,
                    frontier@,
                    cur as int,
                    v as int,
                );
                lemma_total_update(dist@, v as int, (dist[cur as int] + 1) as usize);
            }
            if dist[end] < UNREACHED {
                let k = choose|k: usize| #[trigger] holds(frontier@, k, end);
                assert(holds(frontier@.insert(((dist[cur as int] + 1) as usize, v)), k, end));
            }
            assert(holds(
                frontier@.insert(((dist[cur as int] + 1) as usize, v)),
                (dist[cur as int] + 1) as usize,
                v as int,
            ));
        }
        update(grid, dist, frontier, cur, v);
    }
}

/// Expands `cur`: relaxes the steps to all its neighbours.
fn expand(
    grid: &Grid,
    dist: &mut Vec<usize>,
    frontier: &mut Frontier,
    cur: usize,
    Ghost(starts): Ghost<Set<int>>,
    Ghost(end): Ghost<int>,
)
    requires
        old(frontier).wf(),
        search_inv(grid@, starts, old(dist)@, old(frontier)@, cur as int),
        grid@.contains(cur as int),
        grid@.contains(end),
        old(dist)[cur as int] < UNREACHED,
        old(dist)[end] < UNREACHED ==> queued(old(frontier)@, end),
    ensures
        final(frontier).wf(),
        search_inv(grid@, starts, final(dist)@, final(frontier)@, -1),
        final(dist)[end] < UNREACHED ==> queued(final(frontier)@, end),
        total(final(dist)@) < total(old(dist)@) || (final(dist)@ == old(dist)@ && final(frontier)@
            == old(frontier)@),
{
    let up = grid.up(cur);
    let down = grid.down(cur);
    let left = grid.left(cur);
    let right = grid.right(cur);
    proof {
        if let Some(v) = up {
            grid@.lemma_neighbors(cur as int, v as int);
        }
        if let Some(v) = down {
            grid@.lemma_neighbors(cur as int, v as int);
        }
        if let Some(v) = left {
            grid@.lemma_neighbors(cur as int, v as int);
        }
        if let Some(v) = right {
            grid@.lemma_neighbors(cur as int, v as int);
        }
    }
    relax_toward(grid, dist, frontier, cur, up, Ghost(starts), Ghost(end));
    relax_toward(grid, dist, frontier, cur, down, Ghost(starts), Ghost(end));
    relax_toward(grid, dist, frontier, cur, left, Ghost(starts), Ghost(end));
    relax_toward(grid, dist, frontier, cur, right, Ghost(starts), Ghost(end));
    proof {
        assert forall|v: int| #[trigger] grid@.can_step(cur as int, v) implies dist[v] <= dist[cur as int]
            + 1 by {
            grid@.lemma_neighbors(cur as int, v);
        }
        assert(relaxed(grid@, dist@, cur as int));
    }
}

/// When an entry for `end` comes first in the frontier, the distance
/// recorded for `end` is the least number of steps to it.
pub proof fn lemma_first_is_final(
    t: Terrain,
    starts: Set<int>,
    dist: Seq<usize>,
    f: Multiset<(usize, usize)>,
    d: usize,
    end: int,
)
    requires
        search_inv(t, starts, dist, f, -1),
        t.contains(end),
        f.count((d, end as usize)) > 0,
        forall|o: (usize, usize)| #[trigger] f.count(o) > 0 ==> d <= o.0,
    ensures
        dist[end] < UNREACHED,
        t.distance(starts, end) == Some(dist[end] as nat),
{
    let best = dist[end] as nat;
    assert(dist[end] <= d < UNREACHED);
    assert forall|n: nat| t.reachable_in(starts, end, n) implies best <= n by {
        if n <= d {
            let w = choose|w: Seq<int>| #[trigger] t.connects(starts, w, end) && w.len() == n + 1;
            lemma_prefix_bound(t, starts, dist, f, d as int, w, n as int);
        }
    }
    t.lemma_distance_is(starts, end, best);
}

/// When the frontier is empty, a cell that is still unreached cannot be
/// reached at all.
pub proof fn lemma_exhausted(t: Terrain, starts: Set<int>, dist: Seq<usize>, end: int)
    requires
        search_inv(t, starts, dist, Multiset::empty(), -1),
        t.contains(end),
        dist[end] == UNREACHED,
    ensures
        t.distance(starts, end) is None,
{
    if t.reachable(starts, end) {
        let n = t.lemma_reachable_within_size(starts, end);
        let w = choose|w: Seq<int>| #[trigger] t.connects(starts, w, end) && w.len() == n + 1;
        lemma_prefix_bound(t, starts, dist, Multiset::empty(), n as int, w, n as int);
    }
    t.lemma_distance_none(starts, end);
}

/// The least number of steps from any of `starts` to `end`.
///
/// Starts that are not cells of the grid are ignored. The search records
/// every start at distance 0, then repeatedly takes the frontier entry of
/// least distance (of least cell index among equals) and expands its cell,
/// until an entry for `end` is taken or the frontier is empty.
pub fn shortest_path(grid: &Grid, starts: &Vec<usize>, end: usize) -> (r: Result<usize, NoPath>)
    ensures
        is_answer(grid@, start_set(starts@), end as int, r),
{
    let ghost t = grid@;
    let ghost origins = start_set(starts@);
    let n = grid.len();
    if end >= n {
        proof {
            if t.reachable(origins, end as int) {
                let k = choose|k: nat| t.reachable_in(origins, end as int, k);
                let w = choose|w: Seq<int>| #[trigger]
                    t.connects(origins, w, end as int) && w.len() == k + 1;
                assert(t.contains(w[w.len() - 1]));
            }
            t.lemma_distance_none(origins, end as int);
        }
        return Err(NoPath);
    }
    let mut dist = vec![UNREACHED; n];
    let mut frontier = Frontier::new();
    let mut i: usize = 0;
    while i < starts.len()
        invariant
            i <= starts.len(),
            t == grid@,
            t.wf(),
            origins == start_set(starts@),
            dist.len() == n == t.cells.len(),
            frontier.wf(),
            sound(t, origins, dist@),
            entries_valid(t, dist@, frontier@),
            forall|c: int| t.contains(c) && (#[trigger] dist[c]) < UNREACHED ==> pending(dist@, frontier@, c),
            forall|k: int| 0 <= k < i && t.contains(starts[k] as int) ==> dist[#[trigger] starts[k] as int] == 0,
        decreases starts.len() - i,
    {
        let s = starts[i];
        if s < n && dist[s] != 0 {
            proof {
                assert(origins.contains(s as int));
                t.lemma_reach_start(origins, s as int);
            }
            let ghost before = dist@;
            let ghost held = frontier@;
            dist[s] = 0;
            frontier.push(0, s);
            proof {
                assert forall|c: int| t.contains(c) && (#[trigger] dist[c]) < UNREACHED implies pending(
                    dist@,
                    frontier@,
                    c,
                ) by {
                    if c != s {
                        assert(before[c] == dist[c]);
                        assert(pending(before, held, c));
                    }
                }
                assert forall|e: (usize, usize)| #[trigger] frontier@.count(e) > 0 implies t.contains(
                    e.1 as int,
                ) && dist[e.1 as int] <= e.0 < UNREACHED by {
                    if e != (0usize, s) {
                        assert(held.count(e) > 0);
                    }
                }
                assert forall|c: int| t.contains(c) && (#[trigger] dist[c]) < UNREACHED implies t.reachable_in(
                    origins,
                    c,
                    dist[c] as nat,
                ) by {
                    if c != s {
                        assert(before[c] == dist[c]);
                    }
                }
            }
        }
        i += 1;
    }
    proof {
        assert forall|c: int| t.contains(c) && origins.contains(c) implies (#[trigger] dist[c])
            == 0 by {
            let k = choose|k: int| 0 <= k < starts@.len() && starts@[k] == c;
            assert(dist[starts[k] as int] == 0);
        }
        if dist[end as int] < UNREACHED {
            assert(holds(frontier@, dist[end as int], end as int));
        }
    }
    loop
        invariant
            t == grid@,
            origins == start_set(starts@),
            t.contains(end as int),
            frontier.wf(),
            search_inv(t, origins, dist@, frontier@, -1),
            dist[end as int] < UNREACHED ==> queued(frontier@, end as int),
        decreases total(dist@), frontier@.len(),
    {
        let ghost before = frontier@;
        let ghost size = frontier@.len();
        let ghost sum = total(dist@);
        proof {
            lemma_total_nonnegative(dist@);
        }
        match frontier.pop() {
            None => {
                proof {
                    if dist[end as int] < UNREACHED {
                        let k = choose|k: usize| #[trigger] holds(frontier@, k, end as int);
                        assert(frontier@.count((k, end)) > 0);
                        assert(false);
                    }
                    assert(frontier@ =~= Multiset::empty());
                    lemma_exhausted(t, origins, dist@, end as int);
                }
                return Err(NoPath);
            },
            Some((d, cell)) => {
                if cell == end {
                    proof {
                        assert forall|o: (usize, usize)| #[trigger] before.count(o) > 0 implies d
                            <= o.0 by {
                            assert(super::frontier::comes_first((d, cell), o));
                        }
                        lemma_first_is_final(t, origins, dist@, before, d, end as int);
                    }
                    return Ok(dist[end]);
                }
                proof {
                    lemma_pop_keeps_invariant(t, origins, dist@, before, (d, cell), end as int);
                    assert(frontier@.len() == size - 1);
                }
                if d == dist[cell] {
                    expand(grid, &mut dist, &mut frontier, cell, Ghost(origins), Ghost(end as int));
                }
                proof {
                    lemma_total_nonnegative(dist@);
                    assert(total(dist@) < sum || (total(dist@) == sum && frontier@.len() < size));
                }
            },
        }
    }
}

/// The least number of steps from the single cell `start` to `end`.
pub fn single_origin(grid: &Grid, start: usize, end: usize) -> (r: Result<usize, NoPath>)
    ensures
        is_answer(grid@, set![start as int], end as int, r),
        start == end && grid@.contains(start as int) ==> r == Ok::<usize, NoPath>(0),
{
    let mut starts: Vec<usize> = Vec::new();
    starts.push(start);
    proof {
        assert(starts@[0] == start);
        assert(start_set(starts@) =~= set![start as int]);
        if start == end && grid@.contains(start as int) {
            grid@.lemma_reach_start(set![start as int], start as int);
            grid@.lemma_distance_is(set![start as int], start as int, 0);
        }
    }
    shortest_path(grid, &starts, end)
}

/// The least number of steps to `end` from any cell whose elevation is the
/// lowest of the grid.
pub fn multi_origin(grid: &Grid, end: usize) -> (r: Result<usize, NoPath>)
    ensures
        is_answer(grid@, grid@.lowest_cells(), end as int, r),
{
    let mut starts: Vec<usize> = Vec::new();
    if let Some(m) = grid.lowest() {
        let n = grid.len();
        let ghost low = choose|c: int| grid@.contains(c) && grid@.cells[c] == m;
        let mut c: usize = 0;
        while c < n
            invariant
                c <= n == grid@.cells.len(),
                grid@.contains(low) && grid@.cells[low] == m,
                forall|c: int| grid@.contains(c) ==> m <= #[trigger] grid@.cells[c],
                forall|k: int| 0 <= k < starts.len() ==> grid@.lowest_cells().contains(#[trigger] starts[k] as int),
                forall|o: int| 0 <= o < c && grid@.lowest_cells().contains(o) ==> start_set(starts@).contains(o),
            decreases n - c,
        {
            if grid.elevation(c) == m {
                let ghost before = starts@;
                starts.push(c);
                proof {
                    assert(starts@[before.len() as int] == c);
                    assert forall|o: int| 0 <= o < c + 1 && grid@.lowest_cells().contains(
                        o,
                    ) implies start_set(starts@).contains(o) by {
                        if o < c {
                            let k = choose|k: int| 0 <= k < before.len() && before[k] == o;
                            assert(starts@[k] == o);
                        }
                    }
                }
            } else {
                proof {
                    assert(!grid@.lowest_cells().contains(c as int));
                }
            }
            c += 1;
        }
    }
    proof {
        assert(start_set(starts@) =~= grid@.lowest_cells());
    }
    shortest_path(grid, &starts, end)
}

} // verus!
