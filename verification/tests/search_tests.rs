use tron_coding_challenge::engine::direction::Direction;
use tron_coding_challenge::engine::grid::Grid;
use tron_coding_challenge::engine::grid_cell::GridCell;
use tron_coding_challenge::players::jack_papel_bots::cut_em_offer::{cut_em_point, most_open_space_step};
use tron_coding_challenge::players::stardustz_bots::chase_bot::a_star_direction;
use tron_coding_challenge::engine::grid_position::GridPosition;
use tron_coding_challenge::engine::player_id::PlayerId;
use tron_coding_challenge::engine::NextFrameResult;
use tron_coding_challenge::players::chatgpt_bots::apex_bot::{
    all_false, center_first_moves, default_move, evaluate_voronoi, fast_bfs, flood_fill_count, is_separated,
    minimax, order_by_keys, survival_search, DRAW_EVAL,
};
use tron_coding_challenge::players::jack_papel_bots::rip_and_tear::cut_off_point;
use tron_coding_challenge::players::jack_papel_bots::search::{a_star_pathfinding, base_heuristic, empty_mask};
use tron_coding_challenge::players::jack_papel_bots::{
    shortest_step,
    direction_to, find_farthest_point, get_neighbors, path_step, pathfind, shortest_distance,
};

fn pos(x: usize, y: usize) -> GridPosition {
    GridPosition::new(x, y).unwrap()
}

#[test]
fn a_star_finds_a_walk_on_an_open_field() {
    let grid = Grid::new_default();
    let path = pathfind(pos(0, 0), pos(3, 4), &grid).unwrap();
    assert_eq!(path[0], pos(0, 0));
    assert_eq!(*path.last().unwrap(), pos(3, 4));
    for w in path.windows(2) {
        assert_eq!(w[0].manhattan_distance(&w[1]), 1);
        assert!(w[1].is_empty(&grid));
    }
}

#[test]
fn a_star_finds_no_walk_to_a_taken_cell() {
    let grid = Grid::new_default();
    assert!(pathfind(pos(0, 0), pos(9, 10), &grid).is_none());
}

#[test]
fn a_star_through_a_closed_mask() {
    let closed = vec![false; 441];
    assert!(a_star_pathfinding(pos(0, 0), pos(1, 0), &closed).is_none());
    let open = vec![true; 441];
    assert_eq!(a_star_pathfinding(pos(5, 5), pos(5, 5), &open).unwrap()[0], pos(5, 5));
    assert_eq!(empty_mask(&Grid::new_default()).iter().filter(|b| **b).count(), 439);
}

#[test]
fn heuristic_is_manhattan() {
    assert_eq!(base_heuristic(pos(1, 2), pos(4, 0)), 5);
    assert_eq!(base_heuristic(pos(4, 0), pos(1, 2)), 5);
}

#[test]
fn shortest_distances_on_an_open_field() {
    let grid = Grid::new_default();
    assert_eq!(shortest_distance(pos(0, 0), pos(3, 4), &grid), Some(7));
    assert_eq!(shortest_distance(pos(0, 0), pos(0, 0), &grid), Some(0));
    assert_eq!(shortest_distance(pos(10, 9), pos(10, 11), &grid), Some(2));
    assert_eq!(shortest_distance(pos(8, 10), pos(12, 10), &grid), Some(6));
    assert_eq!(shortest_distance(pos(0, 0), pos(9, 10), &grid), None);
}

#[test]
fn breadth_first_distances() {
    let grid = Grid::new_default();
    let visited = all_false();
    let mut dists = vec![u16::MAX; 441];
    fast_bfs(&grid, &visited, pos(0, 0), &mut dists);
    assert_eq!(dists[pos(0, 0).i()], 0);
    assert_eq!(dists[pos(20, 20).i()], 40);
    assert_eq!(dists[pos(9, 10).i()], u16::MAX);
    assert_eq!(dists.iter().filter(|d| **d != u16::MAX).count(), 439);
}

#[test]
fn region_sizes() {
    let grid = Grid::new_default();
    let mut visited = all_false();
    assert_eq!(flood_fill_count(&grid, &visited, pos(0, 0)), 439);
    for x in 0..21 {
        visited[pos(x, 1).i()] = true;
    }
    assert_eq!(flood_fill_count(&grid, &visited, pos(0, 0)), 21);
}

#[test]
fn heads_on_an_open_field_are_not_separated() {
    let grid = Grid::new_default();
    assert!(!is_separated(&grid, pos(9, 10), pos(11, 10)));
}

#[test]
fn walled_off_heads_are_separated() {
    let mut grid = Grid::new_default();
    for x in 0..21 {
        if x != 9 && x != 11 {
            *grid.get_cell_mut(pos(x, 10)) =
                tron_coding_challenge::engine::grid_cell::GridCell::Tail(PlayerId::new_o(), Direction::PositiveX, 1);
        }
    }
    *grid.get_cell_mut(pos(10, 10)) =
        tron_coding_challenge::engine::grid_cell::GridCell::Tail(PlayerId::new_o(), Direction::PositiveX, 1);
    // Heads are at (9, 10) and (11, 10); row 10 is a wall now, so the region
    // of (9, 11) is the top half, which touches both heads.
    assert!(!is_separated(&grid, pos(9, 11), pos(11, 10)));
    assert_eq!(shortest_distance(pos(0, 11), pos(0, 9), &grid), None);
}

#[test]
fn survival_counts_moves_and_room() {
    let grid = Grid::new_default();
    let mut visited = all_false();
    visited[pos(0, 0).i()] = true;
    assert_eq!(survival_search(&grid, pos(0, 0), &mut visited, 1, 1), 1000 + 439);
    let v = survival_search(&grid, pos(0, 0), &mut visited, 1, 2);
    assert_eq!(v, 2000 + 438);
    assert!(visited[pos(0, 0).i()]);
    assert_eq!(visited.iter().filter(|b| **b).count(), 1);
}

#[test]
fn meeting_heads_evaluate_as_a_draw() {
    let grid = Grid::new_default();
    let mut visited = all_false();
    assert_eq!(minimax(&grid, pos(5, 5), pos(5, 5), &mut visited, 3, -1_000_000, 1_000_000, true), DRAW_EVAL);
}

#[test]
fn depth_zero_is_the_evaluation() {
    let grid = Grid::new_default();
    let mut visited = all_false();
    let e = evaluate_voronoi(&grid, &visited, pos(9, 10), pos(11, 10));
    let m = minimax(&grid, pos(9, 10), pos(11, 10), &mut visited, 0, -1_000_000, 1_000_000, true);
    assert_eq!(e, m);
    assert!(visited.iter().all(|b| !*b));
}

#[test]
fn voronoi_of_the_start_is_balanced() {
    let grid = Grid::new_default();
    let visited = all_false();
    let mine = evaluate_voronoi(&grid, &visited, pos(9, 10), pos(11, 10));
    // Each head reaches 210 cells first (its own cell among them); (9, 10)
    // is one step from the middle, and all four of its steps are free.
    assert_eq!(mine, 0 - 2 + 20);
}

#[test]
fn stable_order_by_keys() {
    assert_eq!(
        order_by_keys(3, 1, 3, 0),
        vec![Direction::NegativeY, Direction::PositiveY, Direction::PositiveX, Direction::NegativeX]
    );
    assert_eq!(order_by_keys(5, 5, 5, 5), Direction::all());
}

#[test]
fn apex_orders_moves_towards_the_middle() {
    let grid = Grid::new_default();
    let moves = center_first_moves(&grid, pos(9, 10));
    assert_eq!(moves[0], Direction::PositiveX);
    assert_eq!(moves[1], Direction::PositiveY);
    assert_eq!(*moves.last().unwrap(), Direction::NegativeY);
}

#[test]
fn default_move_is_first_open_step() {
    let grid = Grid::new_default();
    assert_eq!(default_move(&grid, pos(9, 10)), Direction::PositiveX);
    assert_eq!(default_move(&grid, pos(10, 10)), Direction::PositiveY);
}

#[test]
fn neighbours_and_steps() {
    let grid = Grid::new_default();
    assert_eq!(get_neighbors(pos(10, 10), &grid).len(), 2);
    assert_eq!(direction_to(pos(3, 3), pos(3, 4)), Direction::PositiveY);
    assert_eq!(direction_to(pos(3, 3), pos(2, 3)), Direction::NegativeX);
    assert_eq!(direction_to(pos(3, 3), pos(5, 5)), Direction::PositiveX);
    assert_eq!(path_step(pos(0, 0), pos(0, 5), &grid), Some(Direction::PositiveY));
    assert_eq!(path_step(pos(0, 0), pos(0, 0), &grid), None);
}

#[test]
fn farthest_point_is_reachable() {
    let grid = Grid::new_default();
    let (score, far) = find_farthest_point(pos(0, 0), &grid);
    assert!(score > 0);
    assert!(far.is_empty(&grid));
    assert!(pathfind(pos(0, 0), far, &grid).is_some());
}

#[test]
fn cut_off_point_is_reached_first() {
    let grid = Grid::new_default();
    let path: Vec<GridPosition> = (0..10).map(|y| pos(15, y)).collect();
    // From (14, 5) the walk (15, 0) .. (15, 9) is reached soonest at (15, 5),
    // one step away, before the walker gets there.
    assert_eq!(cut_off_point(pos(14, 5), &path, &grid), Some(pos(15, 5)));
    // From far away no cell is reached in time.
    assert_eq!(cut_off_point(pos(0, 20), &path, &grid), None);
}

#[test]
fn a_frame_only_moves_heads() {
    let grid = Grid::new_default();
    if let NextFrameResult::NextFrame(g) = grid.next_grid(Direction::NegativeY, Direction::PositiveY, 1) {
        assert_eq!(g.get_cells().iter().filter(|c| c.is_head()).count(), 2);
        assert_eq!(g.get_cells().iter().filter(|c| c.is_tail()).count(), 2);
    } else {
        panic!("the frame should go on");
    }
}

#[test]
fn farthest_point_from_a_corner() {
    let grid = Grid::new_default();
    assert_eq!(find_farthest_point(pos(0, 0), &grid), (40, pos(20, 20)));
    let (d, far) = find_farthest_point(pos(10, 10), &grid);
    assert_eq!(shortest_distance(pos(10, 10), far, &grid), Some(d));
    assert_eq!(d, 20);
}

#[test]
fn narrow_windows_agree_with_the_full_one() {
    let grid = Grid::new_default();
    let mut visited = all_false();
    let v = minimax(&grid, pos(9, 10), pos(11, 10), &mut visited, 2, -1_000_000, 1_000_000, true);
    assert!(-1_000_000 < v && v < 1_000_000);
    assert_eq!(minimax(&grid, pos(9, 10), pos(11, 10), &mut visited, 2, v - 1, v + 1, true), v);
    let low = minimax(&grid, pos(9, 10), pos(11, 10), &mut visited, 2, v, v + 10, true);
    assert!(low <= v);
    let high = minimax(&grid, pos(9, 10), pos(11, 10), &mut visited, 2, v - 10, v, true);
    assert!(high >= v);
    assert!(visited.iter().all(|b| !*b));
}

#[test]
fn open_space_step_only_where_a_step_is_free() {
    let mut grid = Grid::new_default();
    assert!(most_open_space_step(&grid, pos(0, 0)).is_some());
    let tail = GridCell::Tail(PlayerId::new_o(), Direction::PositiveX, 1);
    *grid.get_cell_mut(pos(1, 0)) = tail;
    *grid.get_cell_mut(pos(0, 1)) = tail;
    assert_eq!(most_open_space_step(&grid, pos(0, 0)), None);
}

#[test]
fn chase_step_may_end_on_the_goal() {
    let grid = Grid::new_default();
    assert_eq!(a_star_direction(&grid, pos(10, 10), pos(11, 10)), Some(Direction::PositiveX));
    assert_eq!(a_star_direction(&grid, pos(5, 5), pos(5, 5)), None);
}

#[test]
fn a_cut_off_cell_reached_as_soon_as_the_walker_counts() {
    let grid = Grid::new_default();
    let path = vec![pos(11, 10), pos(11, 11), pos(10, 11)];
    assert_eq!(cut_em_point(pos(9, 10), &path, &grid), Some(pos(10, 11)));
}

#[test]
fn an_a_star_walk_repeats_no_cell() {
    let grid = Grid::new_default();
    let mask = empty_mask(&grid);
    let path = a_star_pathfinding(pos(0, 0), pos(20, 20), &mask).unwrap();
    for a in 0..path.len() {
        for b in (a + 1)..path.len() {
            assert_ne!(path[a], path[b]);
        }
    }
    assert_eq!(path.len(), 41);
}

#[test]
fn a_shortest_step_brings_the_goal_one_step_nearer() {
    let grid = Grid::new_default();
    let from = pos(9, 10);
    for goal in [pos(9, 3), pos(15, 10), pos(0, 0), pos(20, 20), pos(10, 10)] {
        let before = shortest_distance(from, goal, &grid).unwrap();
        let d = shortest_step(from, goal, &grid).unwrap();
        let q = from.after_moved(d).unwrap();
        assert!(q.is_empty(&grid));
        assert_eq!(shortest_distance(q, goal, &grid).unwrap() + 1, before);
    }
    assert_eq!(shortest_step(from, from, &grid), None);
    assert_eq!(shortest_step(from, pos(11, 10), &grid), None);
}
