use raoc22::day12::frontier::Frontier;
use raoc22::day12::grid::Grid;
use raoc22::day12::load::{parse, LoadError};
use raoc22::day12::search::{multi_origin, shortest_path, single_origin, update, NoPath, UNREACHED};
use raoc22::day12::{compute, Error};

const EXAMPLE: &str = "Sabqponm\nabcryxxl\naccszExk\nacctuvwj\nabdefghi\n";

fn grid(width: usize, rows: &str) -> Grid {
    let cells: Vec<u8> = rows.bytes().map(|b| b - b'a').collect();
    Grid::new(width, cells).unwrap()
}

#[test]
fn day12_part1_example() {
    assert_eq!(compute(EXAMPLE, false).unwrap(), 31);
}

#[test]
fn day12_part2_example() {
    assert_eq!(compute(EXAMPLE, true).unwrap(), 29);
}

#[test]
fn example_without_final_newline() {
    let text = EXAMPLE.trim_end();
    assert_eq!(compute(text, false), Ok(31));
    assert_eq!(compute(text, true), Ok(29));
}

#[test]
fn start_equal_to_end_is_zero_steps() {
    let g = grid(3, "abcdefghi");
    for c in 0..9 {
        assert_eq!(single_origin(&g, c, c), Ok(0));
    }
    assert_eq!(shortest_path(&g, &vec![8, 4, 0], 4), Ok(0));
}

#[test]
fn walled_off_end_is_no_path() {
    assert_eq!(compute("SzE", false), Err(Error::NoPath));
    assert_eq!(compute("SzE", true), Err(Error::NoPath));
    // the end sits in a ring of cells that are too high to climb
    let g = grid(5, "aaaaaazzzaazczaazzzaaaaaa");
    assert_eq!(single_origin(&g, 0, 12), Err(NoPath));
    assert_eq!(multi_origin(&g, 12), Err(NoPath));
    // neither is there a way out of the ring, but from the ring one can step down
    assert_eq!(single_origin(&g, 12, 0), Err(NoPath));
    assert_eq!(single_origin(&g, 7, 12), Ok(1));
    assert_eq!(single_origin(&g, 7, 0), Ok(3));
}

#[test]
fn climbing_is_capped_and_descending_is_free() {
    let g = grid(3, "acz");
    assert_eq!(single_origin(&g, 0, 1), Err(NoPath));
    assert_eq!(single_origin(&g, 2, 0), Ok(2));
    let h = grid(3, "abc");
    assert_eq!(single_origin(&h, 0, 2), Ok(2));
}

#[test]
fn steps_do_not_wrap_around_rows_or_go_diagonally() {
    // cell 2 ends the first row, cell 3 starts the second
    let g = grid(3, "aaaaaaaaa");
    assert_eq!(single_origin(&g, 2, 5), Ok(1));
    assert_eq!(single_origin(&g, 2, 3), Ok(3));
    assert_eq!(single_origin(&g, 0, 8), Ok(4));
    let d = grid(2, "azza");
    assert_eq!(single_origin(&d, 0, 3), Err(NoPath));
}

#[test]
fn multi_origin_is_never_farther_than_single_origin() {
    let p = parse(EXAMPLE).unwrap();
    let single = single_origin(&p.grid, p.start, p.end).unwrap();
    let multi = multi_origin(&p.grid, p.end).unwrap();
    assert!(multi <= single);
    assert_eq!((single, multi), (31, 29));
}

#[test]
fn multi_origin_considers_every_lowest_cell() {
    let text = "SbbbbcdefghijklmnopqrstuvwxyEyxwvutsrqponmlkjihgfedcba";
    assert_eq!(compute(text, false), Ok(28));
    assert_eq!(compute(text, true), Ok(25));
}

#[test]
fn lowest_cells_need_not_be_at_elevation_zero() {
    let g = grid(4, "cdcb");
    assert_eq!(g.lowest(), Some(1));
    assert_eq!(multi_origin(&g, 1), Ok(2));
    assert_eq!(multi_origin(&g, 3), Ok(0));
}

#[test]
fn more_starts_never_lengthen_the_way() {
    let p = parse(EXAMPLE).unwrap();
    let mut starts = vec![p.start];
    let mut last = shortest_path(&p.grid, &starts, p.end).unwrap();
    for extra in [39, 7, 20, 30, 21] {
        starts.push(extra);
        let next = shortest_path(&p.grid, &starts, p.end).unwrap();
        assert!(next <= last);
        last = next;
    }
    assert_eq!(last, 0);
}

#[test]
fn repeated_searches_agree() {
    let p = parse(EXAMPLE).unwrap();
    let first = single_origin(&p.grid, p.start, p.end);
    for _ in 0..5 {
        assert_eq!(single_origin(&p.grid, p.start, p.end), first);
    }
    // the order in which the starts are given does not matter either
    assert_eq!(
        shortest_path(&p.grid, &vec![0, 8, 16], p.end),
        shortest_path(&p.grid, &vec![16, 8, 0, 8], p.end)
    );
}

#[test]
fn starts_and_ends_outside_the_grid() {
    let g = grid(2, "abab");
    assert_eq!(shortest_path(&g, &vec![], 0), Err(NoPath));
    assert_eq!(shortest_path(&g, &vec![4, 100], 0), Err(NoPath));
    assert_eq!(shortest_path(&g, &vec![100, 1], 0), Ok(1));
    assert_eq!(single_origin(&g, 0, 4), Err(NoPath));
}

#[test]
fn grid_shape_is_checked() {
    assert!(Grid::new(0, vec![]).is_none());
    assert!(Grid::new(3, vec![0, 1]).is_none());
    let g = Grid::new(2, vec![5, 1, 2, 3, 4, 0]).unwrap();
    assert_eq!((g.width(), g.height(), g.len()), (2, 3, 6));
    assert_eq!(g.elevation(4), 4);
    assert_eq!(g.lowest(), Some(0));
    assert_eq!((g.up(0), g.down(0), g.left(0), g.right(0)), (None, Some(2), None, Some(1)));
    assert_eq!((g.up(5), g.down(5), g.left(5), g.right(5)), (Some(3), None, Some(4), None));
    assert_eq!(Grid::new(2, vec![]).unwrap().lowest(), None);
}

#[test]
fn relaxation_updates_only_along_legal_improving_steps() {
    let g = grid(3, "abd");
    let mut dist = vec![0, UNREACHED, UNREACHED];
    let mut frontier = Frontier::new();
    update(&g, &mut dist, &mut frontier, 0, 1);
    assert_eq!(dist, vec![0, 1, UNREACHED]);
    assert_eq!(frontier.len(), 1);
    // from b to d the climb is two units
    update(&g, &mut dist, &mut frontier, 1, 2);
    assert_eq!(dist, vec![0, 1, UNREACHED]);
    assert_eq!(frontier.len(), 1);
    // no improvement: nothing is recorded or queued
    update(&g, &mut dist, &mut frontier, 1, 0);
    assert_eq!(dist, vec![0, 1, UNREACHED]);
    assert_eq!(frontier.pop(), Some((1, 1)));
    assert_eq!(frontier.pop(), None);
}

#[test]
fn frontier_pops_by_distance_then_cell() {
    let mut f = Frontier::new();
    for (d, c) in [(3, 1), (1, 9), (2, 0), (1, 4), (1, 9)] {
        f.push(d, c);
    }
    assert_eq!(f.len(), 5);
    let mut out = Vec::new();
    while let Some(e) = f.pop() {
        out.push(e);
    }
    assert_eq!(out, vec![(1, 4), (1, 9), (1, 9), (2, 0), (3, 1)]);
}

#[test]
fn parse_reads_cells_and_markers() {
    let p = parse("Sab\nczE\n").unwrap();
    assert_eq!((p.grid.width(), p.grid.height()), (3, 2));
    assert_eq!((p.start, p.end), (0, 5));
    let cells: Vec<u8> = (0..6).map(|c| p.grid.elevation(c)).collect();
    assert_eq!(cells, vec![0, 0, 1, 2, 25, 25]);
}

#[test]
fn parse_rejects_malformed_text() {
    assert_eq!(parse("").err(), Some(LoadError::RaggedRows));
    assert_eq!(parse("\nSE").err(), Some(LoadError::RaggedRows));
    assert_eq!(parse("SaE\nab\n").err(), Some(LoadError::RaggedRows));
    assert_eq!(parse("SaE\nabc\n\n").err(), Some(LoadError::RaggedRows));
    assert_eq!(parse("Sa?E").err(), Some(LoadError::UnknownCharacter));
    assert_eq!(parse("SaE\r\nabc\r\n").err(), Some(LoadError::UnknownCharacter));
    assert_eq!(parse("abE").err(), Some(LoadError::StartMarker));
    assert_eq!(parse("SbE\nabS").err(), Some(LoadError::StartMarker));
    assert_eq!(parse("Sab").err(), Some(LoadError::EndMarker));
    assert_eq!(parse("SEE").err(), Some(LoadError::EndMarker));
    assert_eq!(compute("Sab", true), Err(Error::Input(LoadError::EndMarker)));
}
