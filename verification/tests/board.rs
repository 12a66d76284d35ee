use dot_board::board::{BoardState, MOVE_LIMIT};
use dot_board::color::BoardColor;
use dot_board::grid::BOARD_SIZE;

fn paint(board: &mut BoardState, color: BoardColor) {
    for x in 0..BOARD_SIZE {
        for y in 0..BOARD_SIZE {
            board.set_color(x, y, color);
        }
    }
}

fn assert_no_empty(board: &BoardState) {
    for x in 0..BOARD_SIZE {
        for y in 0..BOARD_SIZE {
            assert_ne!(board.color_at(x, y), BoardColor::Empty);
        }
    }
}

#[test]
pub fn test_drop() {
    let mut board = BoardState::new();
    board.trail.push((0, 0));
    board.trail.push((0, 1));
    board.trail.push((1, 1));
    board.trail.push((1, 0));
    board.trail.push((0, 0));
    assert!(board.has_loop());
    assert_ne!(board.finish_trail(), 0);
}

#[test]
fn new_board_is_playable() {
    let board = BoardState::new();
    assert_eq!(board.score(), 0);
    assert_eq!(board.moves_left(), MOVE_LIMIT);
    assert!(!board.is_terminal());
    assert!(board.trail.is_empty());
    assert_no_empty(&board);
}

#[test]
fn default_board_matches_new() {
    let board = BoardState::default();
    assert_eq!(board.score(), 0);
    assert_eq!(board.moves_left(), MOVE_LIMIT);
    assert!(board.trail.is_empty());
    assert_no_empty(&board);
}

#[test]
fn random_color_is_playable_and_varies() {
    let mut seen_glyphs = Vec::new();
    for _ in 0..400 {
        let c = BoardColor::random();
        assert_ne!(c, BoardColor::Empty);
        let g = c.get_glyph();
        if !seen_glyphs.contains(&g) {
            seen_glyphs.push(g);
        }
    }
    // a draw stuck on a single color would mean the underlying range draw
    // ignored its bound
    assert!(seen_glyphs.len() >= 2);
}

#[test]
fn glyphs_and_hex_codes() {
    assert_eq!(BoardColor::Red.get_glyph(), 'R');
    assert_eq!(BoardColor::Blue.get_glyph(), 'B');
    assert_eq!(BoardColor::Green.get_glyph(), 'G');
    assert_eq!(BoardColor::Yellow.get_glyph(), 'Y');
    assert_eq!(BoardColor::Empty.get_glyph(), 'E');
    assert_eq!(BoardColor::Red.get_color(), "#FF0000");
    assert_eq!(BoardColor::Blue.get_color(), "#00AAFF");
    assert_eq!(BoardColor::Green.get_color(), "#00FF00");
    assert_eq!(BoardColor::Yellow.get_color(), "#FFFF00");
    assert_eq!(BoardColor::Empty.get_color(), "#000000");
}

#[test]
fn index_is_row_major() {
    assert_eq!(BoardState::index(0, 0), 0);
    assert_eq!(BoardState::index(3, 4), 43);
    assert_eq!(BoardState::index(9, 9), 99);
}

#[test]
fn set_color_then_color_at() {
    let mut board = BoardState::new();
    board.set_color(7, 2, BoardColor::Green);
    assert_eq!(board.color_at(7, 2), BoardColor::Green);
    board.set_color(7, 2, BoardColor::Yellow);
    assert_eq!(board.color_at(7, 2), BoardColor::Yellow);
}

#[test]
fn first_click_always_connects() {
    let board = BoardState::new();
    for x in 0..BOARD_SIZE {
        for y in 0..BOARD_SIZE {
            assert!(board.can_connect(x, y));
        }
    }
}

#[test]
fn can_connect_rejects_non_adjacent_and_diagonal() {
    let mut board = BoardState::new();
    paint(&mut board, BoardColor::Red);
    board.handle_click(3, 3);
    assert!(!board.can_connect(4, 4)); // diagonal
    assert!(!board.can_connect(2, 2)); // diagonal
    assert!(!board.can_connect(3, 3)); // same cell
    assert!(!board.can_connect(6, 3)); // distant
    assert!(!board.can_connect(3, 6)); // distant
    assert!(board.can_connect(3, 4)); // adjacent, same color
    assert!(board.can_connect(4, 3)); // adjacent, same color
}

#[test]
fn can_connect_rejects_color_mismatch() {
    let mut board = BoardState::new();
    paint(&mut board, BoardColor::Red);
    board.set_color(3, 4, BoardColor::Blue);
    board.handle_click(3, 3);
    assert!(!board.can_connect(3, 4));
    assert!(board.can_connect(2, 3));
}

#[test]
fn can_connect_rejects_immediate_backtrack() {
    let mut board = BoardState::new();
    paint(&mut board, BoardColor::Red);
    board.handle_click(3, 3);
    board.handle_click(3, 4);
    assert!(!board.can_connect(3, 3)); // stepping straight back is refused
    assert!(board.can_connect(3, 5));
    assert!(board.can_connect(2, 4));
}

#[test]
fn loop_trail_clears_whole_color() {
    let mut board = BoardState::new();
    paint(&mut board, BoardColor::Blue);
    board.set_color(0, 0, BoardColor::Red);
    board.set_color(0, 1, BoardColor::Red);
    board.set_color(1, 1, BoardColor::Red);
    board.set_color(1, 0, BoardColor::Red);
    board.set_color(5, 5, BoardColor::Red);
    board.set_color(9, 9, BoardColor::Red);
    board.trail.push((0, 0));
    board.trail.push((0, 1));
    board.trail.push((1, 1));
    board.trail.push((1, 0));
    board.trail.push((0, 0));
    assert!(board.has_loop());
    // all six red cells are cleared, not just the four on the trail
    assert_eq!(board.finish_trail(), 6);
    assert!(board.trail.is_empty());
    assert_no_empty(&board);
}

#[test]
fn full_board_loop_wipes_everything() {
    let mut board = BoardState::new();
    paint(&mut board, BoardColor::Red);
    board.trail.push((0, 0));
    board.trail.push((0, 1));
    board.trail.push((1, 1));
    board.trail.push((1, 0));
    board.trail.push((0, 0));
    assert!(board.has_loop());
    assert_eq!(board.finish_trail(), BOARD_SIZE * BOARD_SIZE);
    assert_no_empty(&board);
}

#[test]
fn two_cell_trail_is_no_loop_and_clears_two() {
    let mut board = BoardState::new();
    paint(&mut board, BoardColor::Red);
    board.trail.push((3, 3));
    board.trail.push((3, 4));
    assert!(!board.has_loop());
    assert_eq!(board.finish_trail(), 2);
    assert!(board.trail.is_empty());
    assert_no_empty(&board);
}

#[test]
fn completion_click_scores_two_and_spends_a_move() {
    let mut board = BoardState::new();
    paint(&mut board, BoardColor::Red);
    board.handle_click(3, 3);
    board.handle_click(3, 4);
    board.handle_click(3, 4); // clicking the head completes the trail
    assert_eq!(board.score(), 2);
    assert_eq!(board.moves_left(), MOVE_LIMIT - 1);
    assert!(board.trail.is_empty());
    assert_no_empty(&board);
}

#[test]
fn finish_trail_on_short_trail_is_a_noop() {
    let mut board = BoardState::new();
    let mut before = Vec::new();
    for x in 0..BOARD_SIZE {
        for y in 0..BOARD_SIZE {
            before.push(board.color_at(x, y));
        }
    }
    assert_eq!(board.finish_trail(), 0); // empty trail
    board.trail.push((4, 4));
    assert_eq!(board.finish_trail(), 0); // single-cell trail
    let mut i = 0;
    for x in 0..BOARD_SIZE {
        for y in 0..BOARD_SIZE {
            assert_eq!(board.color_at(x, y), before[i]);
            i += 1;
        }
    }
    assert_eq!(board.trail.len(), 1);
    assert!(board.trail_contains(4, 4));
}

#[test]
fn finish_trail_leaves_columns_resolved() {
    let mut board = BoardState::new();
    paint(&mut board, BoardColor::Blue);
    board.trail.push((4, 0));
    board.trail.push((4, 1));
    assert_eq!(board.finish_trail(), 2);
    assert!(board.trail.is_empty());
    // nothing is empty, so in particular no empty cell sits below a solid one
    for x in 0..BOARD_SIZE {
        let mut seen_solid_above_empty = false;
        let mut seen_empty = false;
        for y in 0..BOARD_SIZE {
            if board.color_at(x, y) == BoardColor::Empty {
                seen_empty = true;
            } else if seen_empty {
                seen_solid_above_empty = true;
            }
        }
        assert!(!seen_solid_above_empty);
        assert!(!seen_empty);
    }
}

#[test]
fn cancelled_trail_costs_no_move() {
    let mut board = BoardState::new();
    paint(&mut board, BoardColor::Red);
    board.handle_click(0, 0);
    assert!(board.trail_contains(0, 0));
    board.handle_click(5, 5); // neither completion nor connectable: cancel
    assert!(board.trail.is_empty());
    assert_eq!(board.moves_left(), MOVE_LIMIT);
    assert_eq!(board.score(), 0);
}

#[test]
fn moves_run_out_and_clicks_become_noops() {
    let mut board = BoardState::new();
    for done in 0..MOVE_LIMIT {
        board.set_color(0, 0, BoardColor::Red);
        board.set_color(0, 1, BoardColor::Red);
        board.set_color(0, 2, BoardColor::Blue); // keep the trail to two cells
        board.set_color(1, 0, BoardColor::Blue);
        board.set_color(1, 1, BoardColor::Blue);
        board.handle_click(0, 0);
        board.handle_click(0, 1);
        board.handle_click(0, 1);
        assert_eq!(board.moves_left(), MOVE_LIMIT - done - 1);
    }
    assert!(board.is_terminal());
    let score_at_end = board.score();
    board.handle_click(5, 5);
    board.handle_click(5, 6);
    assert!(board.trail.is_empty());
    assert_eq!(board.score(), score_at_end);
    assert_eq!(board.moves_left(), 0);
    assert!(board.is_terminal());
}

#[test]
fn is_trail_head_tracks_the_last_click() {
    let mut board = BoardState::new();
    paint(&mut board, BoardColor::Green);
    board.handle_click(2, 2);
    assert!(board.is_trail_head(2, 2));
    board.handle_click(2, 3);
    assert!(!board.is_trail_head(2, 2));
    assert!(board.is_trail_head(2, 3));
    assert!(board.trail_contains(2, 2));
    assert!(board.trail_contains(2, 3));
    assert!(!board.trail_contains(7, 7));
}

#[test]
fn reset_restores_everything() {
    let mut board = BoardState::new();
    paint(&mut board, BoardColor::Red);
    board.handle_click(0, 0);
    board.handle_click(0, 1);
    board.handle_click(0, 1); // one completed move
    board.handle_click(4, 4); // leave a trail in progress
    assert!(board.score() > 0);
    board.reset();
    assert_eq!(board.score(), 0);
    assert_eq!(board.moves_left(), MOVE_LIMIT);
    assert!(board.trail.is_empty());
    assert_no_empty(&board);
}

#[test]
fn reset_leaves_terminal_state() {
    let mut board = BoardState::new();
    for _ in 0..MOVE_LIMIT {
        board.set_color(0, 0, BoardColor::Red);
        board.set_color(0, 1, BoardColor::Red);
        board.handle_click(0, 0);
        board.handle_click(0, 1);
        board.handle_click(0, 1);
    }
    assert!(board.is_terminal());
    board.reset();
    assert!(!board.is_terminal());
    assert_eq!(board.moves_left(), MOVE_LIMIT);
    // the game is playable again: a completed move spends a move
    board.set_color(0, 0, BoardColor::Red);
    board.set_color(0, 1, BoardColor::Red);
    board.handle_click(0, 0);
    board.handle_click(0, 1);
    board.handle_click(0, 1);
    assert_eq!(board.moves_left(), MOVE_LIMIT - 1);
}
