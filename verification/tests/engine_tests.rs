use tron_coding_challenge::engine::bot::{Bot, BuildBot};
use tron_coding_challenge::engine::direction::Direction;
use tron_coding_challenge::engine::game_engine::GameEngine;
use tron_coding_challenge::engine::game_state::GameState;
use tron_coding_challenge::engine::grid::Grid;
use tron_coding_challenge::engine::grid_cell::GridCell;
use tron_coding_challenge::engine::grid_position::GridPosition;
use tron_coding_challenge::engine::player_id::PlayerId;
use tron_coding_challenge::engine::{GameOver, NextFrameResult, Tally};
use tron_coding_challenge::players::bot_template::BotTemplate;
use tron_coding_challenge::players::example_bot::ExampleBot;
use tron_coding_challenge::run_test_game;

#[test]
fn left_of_right_of_are_inverse() {
    for d in Direction::all() {
        assert_eq!(d.left_of().right_of(), d);
        assert_eq!(d.right_of().left_of(), d);
    }
}

#[test]
fn four_left_turns_come_back() {
    for d in Direction::all() {
        assert_eq!(d.left_of().left_of().left_of().left_of(), d);
    }
}

#[test]
fn directions_in_counterclockwise_order() {
    assert_eq!(
        Direction::all(),
        vec![Direction::PositiveX, Direction::PositiveY, Direction::NegativeX, Direction::NegativeY]
    );
    assert_eq!(Direction::all_slice().to_vec(), Direction::all());
    assert_eq!(Direction::PositiveX.left_of(), Direction::PositiveY);
    assert_eq!(Direction::up(), Direction::PositiveY);
    assert_eq!(Direction::down(), Direction::NegativeY);
    assert_eq!(Direction::left(), Direction::NegativeX);
    assert_eq!(Direction::right(), Direction::PositiveX);
}

#[test]
fn other_player_twice_is_same() {
    let o = PlayerId::new_o();
    let x = PlayerId::new_x();
    assert!(o.is_o() && !o.is_x());
    assert!(x.is_x() && !x.is_o());
    assert_eq!(o.other(), x);
    assert_eq!(o.other().other(), o);
    assert_eq!(o.name(), 'O');
    assert_eq!(x.name(), 'X');
}

#[test]
fn positions_and_moves() {
    let p = GridPosition::new(3, 4).unwrap();
    assert_eq!(p.i(), 3 + 4 * 21);
    assert_eq!(p.to_xy(), (3, 4));
    assert_eq!(p.after_moved(Direction::PositiveY), GridPosition::new(3, 5));
    assert_eq!(p.after_moved(Direction::NegativeX), GridPosition::new(2, 4));
    assert!(GridPosition::new(21, 0).is_none());
    assert!(GridPosition::new_from_usize(441).is_none());
    let corner = GridPosition::new(0, 0).unwrap();
    assert_eq!(corner.after_moved(Direction::NegativeX), None);
    assert_eq!(corner.after_moved(Direction::NegativeY), None);
    assert_eq!(corner.neighbors().len(), 2);
    assert_eq!(p.neighbors().len(), 4);
    let far = GridPosition::new(20, 20).unwrap();
    assert_eq!(corner.manhattan_distance(&far), 40);
    assert_eq!(GridPosition::iter_positions().len(), 441);
    assert_eq!(GridPosition::new_unchecked(5).value(), 5);
}

#[test]
fn starting_field() {
    let grid = Grid::new_default();
    let o = PlayerId::new_o();
    let x = PlayerId::new_x();
    assert_eq!(grid.player_head_position(o), GridPosition::new(9, 10).unwrap());
    assert_eq!(grid.player_head_position(x), GridPosition::new(11, 10).unwrap());
    assert_eq!(grid.player_head_direction(o), Direction::NegativeX);
    assert_eq!(grid.player_head_direction(x), Direction::PositiveX);
    assert_eq!(grid.player_head_positions(), (GridPosition(219), GridPosition(221)));
    assert_eq!(grid.player_head_positions_slice(), [GridPosition(219), GridPosition(221)]);
    assert_eq!(grid.head_positions_map().len(), 2);
    assert!(grid.cell_is_empty(GridPosition(0)));
    assert!(grid.cell_is_not_empty(GridPosition(219)));
    assert_eq!(*grid.get_cell(GridPosition(221)), GridCell::Head(x, Direction::PositiveX));
    assert_eq!(grid.try_get_cell((21, 0)), None);
    assert_eq!(grid.try_get_cell((9, 10)), Some(&GridCell::Head(o, Direction::NegativeX)));
    let empty = grid.get_cells().iter().filter(|c| c.is_empty()).count();
    assert_eq!(empty, 439);
}

#[test]
fn cell_marks() {
    let o = PlayerId::new_o();
    let x = PlayerId::new_x();
    assert_eq!(GridCell::Empty.symbol(), '.');
    assert_eq!(GridCell::Tail(o, Direction::PositiveX, 3).symbol(), 'o');
    assert_eq!(GridCell::Tail(x, Direction::PositiveX, 3).symbol(), 'x');
    assert_eq!(GridCell::Head(o, Direction::PositiveY).symbol(), '^');
    assert_eq!(GridCell::Head(o, Direction::NegativeY).symbol(), 'v');
    assert_eq!(GridCell::Head(x, Direction::PositiveX).symbol(), '>');
    assert_eq!(GridCell::Head(x, Direction::NegativeX).symbol(), '<');
    assert!(GridCell::Head(x, Direction::NegativeX).is_players_head(x));
    assert!(!GridCell::Head(x, Direction::NegativeX).is_players_head(o));
    assert!(GridCell::Tail(x, Direction::NegativeX, 1).is_tail());
    assert!(GridCell::Head(x, Direction::NegativeX).is_head());
}

#[test]
fn drawing_of_the_start() {
    let grid = Grid::new_default();
    let drawing: String = grid.render().into_iter().collect();
    let lines: Vec<&str> = drawing.lines().collect();
    assert_eq!(lines.len(), 21);
    assert_eq!(lines[0], " .".repeat(21));
    let middle = format!("{} < . >{}", " .".repeat(9), " .".repeat(9));
    assert_eq!(lines[10], middle);
}

#[test]
fn rows_of_the_field() {
    let grid = Grid::new_default();
    let rows = grid.cells();
    assert_eq!(rows.len(), 21);
    assert_eq!(rows[10][9], GridCell::Head(PlayerId::new_o(), Direction::NegativeX));
    assert_eq!(rows[10][11], GridCell::Head(PlayerId::new_x(), Direction::PositiveX));
    assert_eq!(rows[0][0], GridCell::Empty);
}

#[test]
fn one_frame_moves_both_heads() {
    let grid = Grid::new_default();
    let next = grid.next_grid(Direction::PositiveY, Direction::NegativeY, 1);
    match next {
        NextFrameResult::NextFrame(g) => {
            let o = PlayerId::new_o();
            let x = PlayerId::new_x();
            assert_eq!(g.player_head_position(o), GridPosition::new(9, 11).unwrap());
            assert_eq!(g.player_head_position(x), GridPosition::new(11, 9).unwrap());
            assert_eq!(*g.get_cell(GridPosition(219)), GridCell::Tail(o, Direction::PositiveY, 1));
            assert_eq!(g.get_cells().iter().filter(|c| c.is_empty()).count(), 437);
        },
        other => panic!("unexpected {:?}", other),
    }
}

#[test]
fn heads_meeting_is_a_draw() {
    let grid = Grid::new_default();
    assert_eq!(grid.next_grid(Direction::PositiveX, Direction::NegativeX, 1), NextFrameResult::Draw);
}

#[test]
fn leaving_the_field_loses() {
    let mut state = GameState::new();
    let mut result = NextFrameResult::Draw;
    for _ in 0..10 {
        result = state.go_to_next_frame(Direction::NegativeX, Direction::PositiveY);
        if state.is_game_over() {
            break;
        }
    }
    assert_eq!(result, NextFrameResult::Winner { player_who_won: PlayerId::new_x() });
    assert_eq!(state.game_over, Some(GameOver::Winner { player_who_won: PlayerId::new_x() }));
    assert_eq!(state.current_time(), 9);
}

#[test]
fn a_finished_game_stays_finished() {
    let mut state = GameState::new();
    let first = state.go_to_next_frame(Direction::PositiveX, Direction::NegativeX);
    assert_eq!(first, NextFrameResult::Draw);
    let frames = state.grid_history().len();
    let again = state.go_to_next_frame(Direction::PositiveY, Direction::PositiveY);
    assert_eq!(again, NextFrameResult::Draw);
    assert_eq!(state.grid_history().len(), frames);
    assert!(state.is_game_over());
}

#[test]
fn history_keeps_every_frame() {
    let mut state = GameState::new();
    state.go_to_next_frame(Direction::PositiveY, Direction::NegativeY);
    state.go_to_next_frame(Direction::PositiveY, Direction::NegativeY);
    assert_eq!(state.current_time(), 2);
    assert_eq!(state.grid_history().len(), 3);
    assert!(state.grid(0).is_some());
    assert!(state.grid(3).is_none());
    let first = state.grid(0).unwrap();
    assert_eq!(first.player_head_position(PlayerId::new_o()), GridPosition(219));
}

#[test]
fn template_bots_crash_into_the_wall() {
    let result = run_test_game::<BotTemplate, BotTemplate>();
    assert_eq!(result, GameOver::Winner { player_who_won: PlayerId::new_x() });
}

#[test]
fn an_engine_runs_a_game_to_its_end() {
    let mut engine: GameEngine<ExampleBot, BotTemplate> =
        GameEngine::new(&BuildBot::<ExampleBot>::new(), &BuildBot::<BotTemplate>::new(), false);
    let result = engine.run_game_get_result();
    assert_eq!(engine.game_state().game_over, Some(result.clone()));
    assert_eq!(result, GameOver::Winner { player_who_won: PlayerId::new_o() });
}

#[test]
fn template_moves_right() {
    let mut bot = BotTemplate::new(PlayerId::new_o());
    assert_eq!(bot.next_action(&GameState::new()), Direction::PositiveX);
}

#[test]
fn writing_a_cell_by_coordinates() {
    let mut grid = Grid::new_default();
    let o = PlayerId::new_o();
    *grid.try_get_cell_mut((4, 5)).unwrap() = GridCell::Tail(o, Direction::PositiveY, 7);
    assert_eq!(grid.try_get_cell((4, 5)), Some(&GridCell::Tail(o, Direction::PositiveY, 7)));
    assert!(grid.try_get_cell_mut((4, 21)).is_none());
    assert!(grid.cell_is_not_empty(GridPosition::new(4, 5).unwrap()));
}

#[test]
fn a_bot_that_gives_no_move_loses_to_x() {
    let mut engine: GameEngine<ExampleBot, BotTemplate> =
        GameEngine::new(&BuildBot::<ExampleBot>::new(), &BuildBot::<BotTemplate>::new(), false);
    assert!(matches!(engine.play_frame(None, None), NextFrameResult::Draw));
    assert!(matches!(
        engine.play_frame(None, Some(Direction::PositiveX)),
        NextFrameResult::Winner { player_who_won } if player_who_won == PlayerId::new_x()
    ));
    assert!(matches!(
        engine.play_frame(Some(Direction::NegativeX), None),
        NextFrameResult::Winner { player_who_won } if player_who_won == PlayerId::new_x()
    ));
    assert_eq!(engine.game_state().current_time(), 0);
    assert!(matches!(
        engine.play_frame(Some(Direction::NegativeX), Some(Direction::PositiveX)),
        NextFrameResult::NextFrame(_)
    ));
    assert_eq!(engine.game_state().current_time(), 1);
}

#[test]
fn a_tally_counts_each_ending() {
    let mut t = Tally::new();
    t.record(GameOver::Winner { player_who_won: PlayerId::new_o() });
    t.record(GameOver::Winner { player_who_won: PlayerId::new_x() });
    t.record(GameOver::Winner { player_who_won: PlayerId::new_x() });
    t.record(GameOver::Draw);
    assert_eq!((t.o_wins, t.x_wins, t.draws), (1, 2, 1));
    assert_eq!(t.total(), 4);
}

#[test]
fn the_history_grows_by_the_frames_played() {
    let mut s = GameState::new();
    let start = s.current_grid().clone();
    s.go_to_next_frame(Direction::NegativeX, Direction::PositiveX);
    s.go_to_next_frame(Direction::NegativeX, Direction::PositiveX);
    assert_eq!(s.current_time(), 2);
    assert!(s.grid(0).unwrap() == &start);
    assert!(s.grid(2).unwrap() == s.current_grid());
    assert!(s.grid(3).is_none());
}
