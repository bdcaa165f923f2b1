//! What holds of distances on every grid.

use super::load::{cell_byte, elevation_of, only_mark, puzzle_of, START};
use super::search::{is_answer, NoPath};
use super::terrain::Terrain;
use vstd::prelude::*;

verus! {

/// Where the end is itself a start, the distance is 0.
pub proof fn lemma_start_is_end(t: Terrain, starts: Set<int>, end: int)
    requires
        t.contains(end),
        starts.contains(end),
    ensures
        t.distance(starts, end) == Some(0nat),
{
    t.lemma_reach_start(starts, end);
    t.lemma_distance_is(starts, end, 0);
}

/// Along a walk the elevation never rises by more than one unit from a cell
/// to the next.
pub proof fn lemma_walk_climbs_gently(t: Terrain, w: Seq<int>, i: int)
    requires
        t.is_walk(w),
        0 <= i < w.len() - 1,
    ensures
        t.cells[w[i + 1]] as int - t.cells[w[i]] as int <= 1,
        t.adjacent(w[i], w[i + 1]),
{
    assert(t.step_at(w, i));
}

/// A distance is witnessed by a walk of that many steps on which the
/// elevation never rises by more than one unit at a time, and no walk
/// between the same cells is shorter.
pub proof fn lemma_distance_witness(t: Terrain, starts: Set<int>, end: int, d: nat) -> (w: Seq<int>)
    requires
        t.distance(starts, end) == Some(d),
    ensures
        t.connects(starts, w, end),
        w.len() == d + 1,
        forall|i: int|
            0 <= i < d ==> t.cells[#[trigger] w[i + 1]] as int - t.cells[w[i]] as int <= 1,
        forall|o: Seq<int>| #[trigger] t.connects(starts, o, end) ==> o.len() >= d + 1,
{
    t.lemma_distance_some(starts, end, d);
    let w = choose|w: Seq<int>| #[trigger] t.connects(starts, w, end) && w.len() == d + 1;
    assert forall|i: int| 0 <= i < d implies t.cells[#[trigger] w[i + 1]] as int
        - t.cells[w[i]] as int <= 1 by {
        lemma_walk_climbs_gently(t, w, i);
    }
    assert forall|o: Seq<int>| #[trigger] t.connects(starts, o, end) implies o.len() >= d + 1 by {
        assert(t.reachable_in(starts, end, (o.len() - 1) as nat));
    }
    w
}

/// Adding starts never makes the end farther: whatever can be reached from
/// `fewer` can be reached from `more` in no more steps.
pub proof fn lemma_more_starts_no_farther(t: Terrain, fewer: Set<int>, more: Set<int>, end: int)
    requires
        fewer.subset_of(more),
    ensures
        t.distance(fewer, end) matches Some(a) ==> (t.distance(more, end) matches Some(b) && b
            <= a),
        t.distance(more, end) is None ==> t.distance(fewer, end) is None,
{
    if let Some(a) = t.distance(fewer, end) {
        t.lemma_distance_some(fewer, end, a);
        let w = choose|w: Seq<int>| #[trigger] t.connects(fewer, w, end) && w.len() == a + 1;
        assert(t.connects(more, w, end));
        let b = t.lemma_least_steps(more, end, a);
        t.lemma_distance_is(more, end, b);
    }
}

/// Starting from every lowest cell at once never takes more steps than
/// starting from a single one of them.
pub proof fn lemma_multi_origin_no_farther(t: Terrain, start: int, end: int)
    requires
        t.lowest_cells().contains(start),
    ensures
        t.distance(set![start], end) matches Some(a) ==> (t.distance(t.lowest_cells(), end) matches Some(
            b,
        ) && b <= a),
{
    lemma_more_starts_no_farther(t, set![start], t.lowest_cells(), end);
}

/// In a puzzle read from text the start is a cell of lowest elevation, so
/// the search from every lowest cell never takes more steps than the one
/// from the start.
pub proof fn lemma_second_part_no_farther(text: Seq<u8>)
    ensures
        puzzle_of(text) matches Ok(p) ==> {
            &&& p.terrain.lowest_cells().contains(p.start)
            &&& p.terrain.distance(p.origins(false), p.end) matches Some(a) ==> (p.terrain.distance(
                p.origins(true),
                p.end,
            ) matches Some(b) && b <= a)
        },
{
    if let Ok(p) = puzzle_of(text) {
        let w = super::load::row_width(text);
        assert(only_mark(text, w, START, p.start));
        assert(p.terrain.cells[p.start] == elevation_of(cell_byte(text, w, p.start)));
        assert(p.terrain.lowest_cells().contains(p.start));
        lemma_multi_origin_no_farther(p.terrain, p.start, p.end);
    }
}

/// The answer depends on the grid, the starts and the end alone: any two
/// searches that meet the contract agree, in whatever order they expand
/// cells of equal distance.
pub proof fn lemma_answer_unique(
    t: Terrain,
    starts: Set<int>,
    end: int,
    first: Result<usize, NoPath>,
    second: Result<usize, NoPath>,
)
    requires
        is_answer(t, starts, end, first),
        is_answer(t, starts, end, second),
    ensures
        first == second,
{
    match (first, second) {
        (Ok(a), Ok(b)) => {
            assert(a as nat == b as nat);
        },
        (Err(a), Err(b)) => {
            assert(a == b);
        },
        _ => {},
    }
}

} // verus!
