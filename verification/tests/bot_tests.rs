use tron_coding_challenge::clock::within_budget;
use tron_coding_challenge::engine::bot::Bot;
use tron_coding_challenge::engine::direction::Direction;
use tron_coding_challenge::engine::game_state::GameState;
use tron_coding_challenge::engine::grid::Grid;
use tron_coding_challenge::engine::grid_position::GridPosition;
use tron_coding_challenge::engine::player_id::PlayerId;
use tron_coding_challenge::players::chatgpt_bots::apex_bot::ApexBot;
use tron_coding_challenge::players::chatgpt_bots::myr::{
    find_articulation_points, flood_fill_count as myr_flood_fill, is_separated as myr_separated,
    minimax as myr_minimax, BitBoard, Myr, SearchContext,
};
use tron_coding_challenge::players::example_bot::ExampleBot;
use tron_coding_challenge::players::jack_papel_bots::cut_em_offer::CutEmOffer;
use tron_coding_challenge::players::jack_papel_bots::freedom_eater::FreedomEater;
use tron_coding_challenge::players::jack_papel_bots::hallucinator::Hallucinator;
use tron_coding_challenge::players::jack_papel_bots::rip_and_tear::RipAndTear;
use tron_coding_challenge::players::lunar::rngesus::Rngesus;
use tron_coding_challenge::players::lunar::Lunar;
use tron_coding_challenge::players::stardustz_bots::chase_bot::ChaseBot;
use tron_coding_challenge::players::stardustz_bots::opponents::{NegYBot, PosYBot};

fn safe_from_start(player: PlayerId, d: Direction) -> bool {
    let grid = Grid::new_default();
    let head = grid.player_head_position(player);
    match head.after_moved(d) {
        Some(p) => p.is_empty(&grid),
        None => false,
    }
}

#[test]
fn example_bot_moves_to_a_calm_cell() {
    let state = GameState::new();
    let mut bot = ExampleBot::new(PlayerId::new_o());
    // Right of O is the cell between the heads, next to X's head.
    assert_eq!(bot.next_action(&state), Direction::PositiveY);
    assert_eq!(bot.not_instant_crash_directions(&state).len(), 4);
    assert_eq!(bot.ideal_directions(&state).len(), 3);
}

#[test]
fn jack_bots_step_into_empty_cells() {
    let state = GameState::new();
    for player in [PlayerId::new_o(), PlayerId::new_x()] {
        let d = FreedomEater::new(player).next_action(&state);
        assert!(safe_from_start(player, d));
        let d = RipAndTear::new(player).next_action(&state);
        assert!(safe_from_start(player, d));
        let d = CutEmOffer::new(player).next_action(&state);
        assert!(safe_from_start(player, d));
        let mut h = Hallucinator::new(player);
        let d = h.next_action(&state);
        assert!(safe_from_start(player, d));
    }
}

#[test]
fn hallucinator_fruit_lands_on_an_empty_cell() {
    let state = GameState::new();
    let mut h = Hallucinator::new(PlayerId::new_o());
    assert_eq!(Hallucinator::generate_initial_fruit_location(), GridPosition::new(15, 15).unwrap());
    let mut seen = std::collections::HashSet::new();
    for _ in 0..50 {
        h.generate_new_fruit_location(&state);
        assert!(h.fruit_location.is_empty(state.current_grid()));
        seen.insert(h.fruit_location);
    }
    // A random pick, not the same cell every time.
    assert!(seen.len() > 1);
}

#[test]
fn apex_bot_moves_safely_at_the_start() {
    let state = GameState::new();
    for player in [PlayerId::new_o(), PlayerId::new_x()] {
        let d = ApexBot::new(player).next_action(&state);
        assert!(safe_from_start(player, d));
    }
}

#[test]
fn apex_bot_plan_without_rounds_is_the_default() {
    let state = GameState::new();
    let bot = ApexBot::new(PlayerId::new_o());
    assert_eq!(bot.planned_move(&state, 0), Direction::PositiveX);
    let d = bot.planned_move(&state, 2);
    assert!(safe_from_start(PlayerId::new_o(), d));
}

#[test]
fn myr_moves_safely_at_the_start() {
    let state = GameState::new();
    for player in [PlayerId::new_o(), PlayerId::new_x()] {
        let d = Myr::new(player).next_action(&state);
        assert!(safe_from_start(player, d));
    }
}

#[test]
fn chase_bot_heads_for_the_other_player() {
    let state = GameState::new();
    let d = ChaseBot::new(PlayerId::new_o()).next_action(&state);
    assert!(safe_from_start(PlayerId::new_o(), d));
}

#[test]
fn fixed_bots() {
    let state = GameState::new();
    assert_eq!(NegYBot::new(PlayerId::new_o()).next_action(&state), Direction::NegativeY);
    assert_eq!(PosYBot::new(PlayerId::new_x()).next_action(&state), Direction::PositiveY);
    assert_eq!(Lunar::new(PlayerId::new_x()).id, PlayerId::new_x());
    let r: Rngesus<3> = Rngesus::new(PlayerId::new_o());
    assert_eq!(r.id, PlayerId::new_o());
}

#[test]
fn bit_board_reads_back_what_was_written() {
    let mut b = BitBoard::new();
    assert!(!b.get(70));
    b.set(70);
    assert!(b.get(70));
    assert!(!b.get(69) && !b.get(71));
    b.set(440);
    b.clear(70);
    assert!(!b.get(70));
    assert!(b.get(440));
}

#[test]
fn epochs_count_up() {
    let mut ctx = SearchContext::new();
    assert_eq!(ctx.current_epoch, 0);
    assert_eq!(ctx.next_epoch(), 1);
    assert_eq!(ctx.next_epoch(), 2);
}

#[test]
fn myr_searches_agree_with_the_field() {
    let grid = Grid::new_default();
    let board = BitBoard::new();
    let mut ctx = SearchContext::new();
    assert_eq!(myr_flood_fill(&grid, &board, GridPosition(0), &mut ctx), 439);
    assert!(!myr_separated(&grid, GridPosition(219), GridPosition(221), &mut ctx));
    assert_eq!(ctx.current_epoch, 2);
}

#[test]
fn an_open_field_has_no_cut_point() {
    let grid = Grid::new_default();
    let board = BitBoard::new();
    let mut ctx = SearchContext::new();
    find_articulation_points(&grid, &board, &mut ctx);
    assert!((0..441).all(|i| !ctx.art_board.get(i)));
}

#[test]
fn a_corridor_cell_is_a_cut_point() {
    let grid = Grid::new_default();
    let mut board = BitBoard::new();
    // Leave open only row 0 from column 0 to 4.
    for i in 0..441 {
        if !(i < 5) {
            board.set(i);
        }
    }
    let mut ctx = SearchContext::new();
    find_articulation_points(&grid, &board, &mut ctx);
    let marked: Vec<usize> = (0..441).filter(|&i| ctx.art_board.get(i)).collect();
    assert_eq!(marked, vec![1, 2, 3]);
}

#[test]
fn a_large_budget_is_not_spent_at_once() {
    let start = std::time::Instant::now();
    assert!(within_budget(&start, 1_000_000));
}

#[test]
fn an_empty_budget_is_always_spent() {
    let start = std::time::Instant::now();
    assert!(!within_budget(&start, 0));
}

#[test]
fn setting_then_clearing_a_clear_bit_restores_the_board() {
    let mut b = BitBoard::new();
    b.set(3);
    b.set(440);
    let before = b.0;
    b.set(100);
    b.clear(100);
    assert_eq!(b.0, before);
}

#[test]
fn a_short_myr_search_sees_a_head_on_draw() {
    let grid = Grid::new_default();
    let mut board = BitBoard::new();
    board.set(GridPosition::new(10, 9).unwrap().i());
    board.set(GridPosition::new(10, 11).unwrap().i());
    let before = board.0;
    let mut abort = false;
    let mut ctx = SearchContext::new();
    let start = std::time::Instant::now();
    let my = GridPosition::new(10, 10).unwrap();
    let opp = GridPosition::new(11, 10).unwrap();
    let v = myr_minimax(&grid, my, opp, &mut board, 1, -1_000_000, 1_000_000, true, &start, &mut abort, &mut ctx);
    assert_eq!(v, 0);
    assert!(!abort);
    assert_eq!(board.0, before);
}

#[test]
fn a_trapped_myr_player_scores_the_minimum() {
    let grid = Grid::new_default();
    let mut board = BitBoard::new();
    board.set(GridPosition::new(10, 9).unwrap().i());
    board.set(GridPosition::new(10, 11).unwrap().i());
    let mut abort = false;
    let mut ctx = SearchContext::new();
    let start = std::time::Instant::now();
    let my = GridPosition::new(10, 10).unwrap();
    let opp = GridPosition::new(0, 0).unwrap();
    let v = myr_minimax(&grid, my, opp, &mut board, 1, -1_000_000, 1_000_000, true, &start, &mut abort, &mut ctx);
    assert_eq!(v, -999_961);
    assert!(!abort);
}

#[test]
fn a_myr_search_past_the_epoch_limit_stops_at_once() {
    let grid = Grid::new_default();
    let mut board = BitBoard::new();
    let mut abort = false;
    let mut ctx = SearchContext::new();
    ctx.current_epoch = u32::MAX - 1;
    let start = std::time::Instant::now();
    let v = myr_minimax(
        &grid,
        GridPosition(219),
        GridPosition(221),
        &mut board,
        2,
        -1_000_000,
        1_000_000,
        true,
        &start,
        &mut abort,
        &mut ctx,
    );
    assert_eq!(v, 0);
    assert!(abort);
}
