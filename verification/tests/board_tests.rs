use gomoku_core::board::Board;
use gomoku_core::board::ShapeId;
use gomoku_core::player::Role;

#[test]
fn test_board_put_undo() {
    let mut board = Board::new(5);
    assert_eq!(board.history.len(), 0);

    let ok = board.put(2, 2, Role::White);
    assert!(ok);
    assert_eq!(board.get_cell(2, 2), 1);
    assert_eq!(board.history.len(), 1);

    let undone = board.undo();
    assert!(undone);
    assert_eq!(board.get_cell(2, 2), 0);
    assert_eq!(board.history.len(), 0);
}

#[test]
fn test_put_out_of_bounds() {
    let mut board = Board::new(5);
    let ok1 = board.put(5, 2, Role::Black);
    let ok2 = board.put(4, 10, Role::Black);
    assert!(!ok1);
    assert!(!ok2);
    assert_eq!(board.history.len(), 0);
}

#[test]
fn test_put_on_occupied() {
    let mut board = Board::new(5);
    board.put(1, 1, Role::Black);
    let ok = board.put(1, 1, Role::White);
    assert!(!ok, "Should not allow placing on occupied cell");
    assert_eq!(board.history.len(), 1);
}

#[test]
fn test_check_pattern_simple() {
    let mut board = Board::new(5);

    board.put(1, 1, Role::White);
    board.put(1, 2, Role::White);
    board.put(1, 3, Role::White);

    let role_val = Role::White.to_int();
    // The window reads (1,1)..(1,5); (1,5) lies off a 5-board, classifies
    // as a wall (2), and a template 0 demands an empty cell, so the
    // pattern's open tail cannot run off the edge.
    let found = board.check_pattern(role_val, 1, 2, 0, 1, 1, &[1, 1, 1, 0, 0]);
    assert!(!found, "an open template position is not satisfied by the wall");

    // On a board with room for the whole window the pattern is detected.
    let mut wide = Board::new(7);
    wide.put(1, 1, Role::White);
    wide.put(1, 2, Role::White);
    wide.put(1, 3, Role::White);
    let found_wide = wide.check_pattern(role_val, 1, 2, 0, 1, 1, &[1, 1, 1, 0, 0]);
    assert!(found_wide, "Should detect the pattern [1,1,1] with activation in the middle");
}

#[test]
fn test_find_best_pattern_in_dir() {
    let mut b = Board::new(10);

    b.put(1, 1, Role::White);
    b.put(1, 2, Role::White);
    b.put(1, 3, Role::White);
    b.put(1, 4, Role::White);

    let (sh_id, cost) = b.find_best_pattern_in_dir(Role::White, 1, 0, 1);
    println!("sh_id: {:?}, cost: {:?}", sh_id, cost);
    match sh_id {
        ShapeId::Pattern(idx) => {
            let pat = &b.patterns[idx];
            assert_eq!(pat.2, 4_000_000);
        }
        _ => panic!("Pattern not found"),
    }
    assert_eq!(cost, 4_000_000);

    let (sh2, cost2) = b.find_best_pattern_in_dir(Role::White, 2, 2, 1);
    match sh2 {
        ShapeId::Pattern(idx) => {
            let pat = &b.patterns[idx];
            assert_eq!(pat.2, 10);
        }
        _ => panic!("Pattern not found"),
    }
    assert_eq!(cost2, 10);
}

#[test]
fn test_cacl_score_for_point_defensive() {
    let mut brd = Board::new(10);

    brd.put(1, 1, Role::Black);
    brd.put(1, 2, Role::Black);
    brd.put(1, 3, Role::Black);

    brd.cacl_score_for_point(1, 4);

    let wsc = brd.get_role_score(Role::White, 1, 4);
    let bsc = brd.get_role_score(Role::Black, 1, 4);

    println!("wsc: {:?}, bsc: {:?}", wsc, bsc);

    assert!(wsc >= 800_000, "White sees a big threat from Black => adds defense bonus");
    assert!(
        bsc >= 2_000_000,
        "Black also sees the same location as a finishing move => big score"
    );
}

#[test]
fn test_no_winner_initial() {
    let mut b = Board::new(5);
    let w = b.get_winner();
    assert_eq!(w, 0);
    assert!(!b.is_game_over());
}

#[test]
fn test_winner_black_horizontal() {
    let mut b = Board::new(5);
    b.put(0, 2, Role::Black);
    b.put(1, 2, Role::Black);
    b.put(2, 2, Role::Black);
    b.put(3, 2, Role::Black);
    b.put(4, 2, Role::Black);

    let w = b.get_winner();
    assert_eq!(w, -1, "Black's role_val=-1 => means black wins");
    assert!(b.is_game_over());
}

#[test]
fn test_winner_white_diagonal() {
    let mut b = Board::new(5);
    for i in 0..5 {
        b.put(i, i, Role::White);
    }
    let w = b.get_winner();
    assert_eq!(w, 1, "White=+1");
    assert!(b.is_game_over());
}

#[test]
fn test_get_moves_basic() {
    let mut b = Board::new(5);
    b.put(0, 0, Role::Black);
    b.put(4, 4, Role::White);
    b.put(1, 1, Role::White);
    let moves = b.get_moves(Role::Black, 1, false, false);
    assert_eq!(moves.len(), 22);
}

#[test]
fn test_get_moves_filter_four() {
    let mut b = Board::new(5);
    b.set_role_score(Role::Black, 2, 2, 1_500_000);
    let moves = b.get_moves(Role::Black, 2, false, true);
    assert_eq!(moves.len(), 1);
    assert_eq!(moves[0], (2, 2));
}

#[test]
fn test_get_valuable_moves_cached() {
    let mut b = Board::new(5);
    let mv1 = b.get_valuable_moves(Role::White, 2, false, false);
    let mv2 = b.get_valuable_moves(Role::White, 2, false, false);
    assert_eq!(mv1, mv2);
    assert!(!mv1.is_empty());
}

#[test]
fn test_put_undo_restores_everything() {
    let mut b = Board::new(9);
    b.put(4, 4, Role::Black);
    b.put(4, 5, Role::White);

    let hash_before = b.hash();
    let mut cells_before = Vec::new();
    let mut scores_before = Vec::new();
    for x in 0..9 {
        for y in 0..9 {
            cells_before.push(b.get_cell(x, y));
            scores_before.push((b.get_role_score(Role::Black, x, y), b.get_role_score(Role::White, x, y)));
        }
    }

    assert!(b.put(5, 5, Role::Black));
    assert!(b.undo());

    assert_eq!(b.hash(), hash_before, "fingerprint must return to its old value");
    let mut i = 0;
    for x in 0..9 {
        for y in 0..9 {
            assert_eq!(b.get_cell(x, y), cells_before[i]);
            assert_eq!(
                (b.get_role_score(Role::Black, x, y), b.get_role_score(Role::White, x, y)),
                scores_before[i]
            );
            i += 1;
        }
    }
}

#[test]
fn test_undo_on_empty_history() {
    let mut b = Board::new(5);
    assert!(!b.undo());
}

#[test]
fn test_four_in_row_is_no_win() {
    let mut b = Board::new(9);
    b.put(2, 2, Role::Black);
    b.put(3, 2, Role::Black);
    b.put(4, 2, Role::Black);
    b.put(5, 2, Role::Black);
    assert_eq!(b.get_winner(), 0, "four in a row is not a win");
    assert!(!b.is_game_over());
}

#[test]
fn test_evaluate_sentinels_on_won_board() {
    let mut b = Board::new(9);
    for i in 0..5 {
        b.put(i, 3, Role::Black);
    }
    assert_eq!(b.evaluate(Role::Black), 10_000_000);
    assert_eq!(b.evaluate(Role::White), -10_000_000);
}

#[test]
fn test_evaluate_neutral_on_empty_board() {
    let mut b = Board::new(7);
    assert_eq!(b.evaluate(Role::White), 0);
    assert_eq!(b.evaluate(Role::Black), 0);
}

#[test]
fn test_fresh_board_scores_exact() {
    let b = Board::new(5);
    assert_eq!(b.get_role_score(Role::Black, 2, 2), 40);
    assert_eq!(b.get_role_score(Role::White, 2, 2), 40);
    // a corner has no room for any window, its open ends would cross the wall
    assert_eq!(b.get_role_score(Role::Black, 0, 0), 0);
}

#[test]
fn test_no_fours_on_empty_board() {
    let mut b = Board::new(15);
    let moves = b.get_moves(Role::White, 1, false, true);
    assert!(moves.is_empty(), "an empty board offers no fours");
    let moves2 = b.get_valuable_moves(Role::White, 1, false, true);
    assert!(moves2.is_empty());
}

#[test]
fn test_reverse_swaps_roles() {
    let mut b = Board::new(7);
    b.put(1, 1, Role::Black);
    b.put(2, 2, Role::White);
    let r = b.reverse();
    assert_eq!(r.get_cell(1, 1), 1);
    assert_eq!(r.get_cell(2, 2), -1);
    assert_eq!(r.get_cell(3, 3), 0);
    assert_eq!(r.history.len(), 2);
}

#[test]
fn test_find_critical_threats_sees_open_four() {
    let mut b = Board::new(11);
    // Black (the opponent of White here) holds an open four.
    b.put(3, 5, Role::Black);
    b.put(4, 5, Role::Black);
    b.put(5, 5, Role::Black);
    b.put(6, 5, Role::Black);
    b.put(0, 0, Role::White);
    let threats = b.find_critical_threats(Role::White);
    assert!(!threats.is_empty());
    let top = threats[0];
    assert_eq!(top.2, 10_000_000, "completing the four makes five");
    assert!(top.1 == 5 && (top.0 == 2 || top.0 == 7));
}

#[test]
fn test_get_moves_orders_by_score() {
    let mut b = Board::new(9);
    b.put(4, 4, Role::Black);
    let moves = b.get_moves(Role::Black, 1, false, false);
    // every listed cell is empty, and scores never increase down the list
    let mut prev = i64::MAX;
    for &(x, y) in &moves {
        assert_eq!(b.get_cell(x, y), 0);
        let s = b.get_role_score(Role::Black, x, y).max(b.get_role_score(Role::White, x, y));
        assert!(s <= prev);
        prev = s;
    }
    assert_eq!(moves.len(), 80);
}

#[test]
fn test_full_board_without_five_is_draw() {
    let mut b = Board::new(1);
    assert!(!b.is_game_over());
    assert!(b.put(0, 0, Role::Black));
    assert_eq!(b.get_winner(), 0);
    assert!(b.is_game_over(), "a full board without a five ends the game");
}
