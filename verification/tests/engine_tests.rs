use gomoku_core::ai::AIEngine;
use gomoku_core::board::Board;
use gomoku_core::cache::{Cache, CacheConfig};
use gomoku_core::player::Role;

#[test]
fn test_first_move_is_center() {
    let mut board = Board::new(15);
    let mut engine = AIEngine::new(2);
    let (value, mv, path) = engine.make_move(&mut board, Role::Black);
    assert_eq!(value, 0, "the opening move carries a neutral score");
    assert_eq!(mv, Some((7, 7)), "the opening move is the exact center");
    assert!(path.is_empty());
    assert_eq!(board.get_cell(7, 7), -1, "the stone is placed");
}

#[test]
fn test_open_four_is_finished() {
    let mut board = Board::new(15);
    // White holds an open four on row 7; black has answered elsewhere.
    board.put(7, 3, Role::White);
    board.put(0, 0, Role::Black);
    board.put(7, 4, Role::White);
    board.put(0, 1, Role::Black);
    board.put(7, 5, Role::White);
    board.put(0, 2, Role::Black);
    board.put(7, 6, Role::White);
    let mut engine = AIEngine::new(1);
    let (value, mv, _path) = engine.make_move(&mut board, Role::White);
    assert!(value >= 4_000_000, "a decisive score is reported, got {}", value);
    let m = mv.expect("a completing move is proposed");
    assert!(m == (7, 2) || m == (7, 7), "the move completes the five, got {:?}", m);
}

#[test]
fn test_make_move_is_deterministic() {
    let mut board = Board::new(9);
    board.put(4, 4, Role::Black);
    board.put(4, 5, Role::White);
    board.put(5, 5, Role::Black);
    let mut e1 = AIEngine::new(1);
    let mut e2 = AIEngine::new(1);
    let (v1, m1, _) = e1.make_move(&mut board, Role::White);
    let (v2, m2, _) = e2.make_move(&mut board, Role::White);
    assert_eq!(v1, v2, "two fresh engines agree on the value");
    assert_eq!(m1, m2, "two fresh engines agree on the move");
}

#[test]
fn test_make_move_leaves_board_restored() {
    let mut board = Board::new(9);
    board.put(4, 4, Role::Black);
    let hash_before = board.hash();
    let history_before = board.history.len();
    let mut engine = AIEngine::new(1);
    let (_v, mv, _p) = engine.make_move(&mut board, Role::White);
    assert!(mv.is_some());
    assert_eq!(board.hash(), hash_before, "a proposed move is not played");
    assert_eq!(board.history.len(), history_before);
}

#[test]
fn test_cache_fifo_eviction() {
    let mut c: Cache<i32> = Cache::new(CacheConfig { capacity: 2, enable_cache: true });
    c.put(1, 10);
    c.put(2, 20);
    assert!(c.has(&1) && c.has(&2));
    c.put(3, 30);
    assert!(!c.has(&1), "the oldest key is evicted first");
    assert!(c.has(&2) && c.has(&3));
    assert_eq!(c.get(&2), Some(&20));
    // updating an existing key does not change the eviction order:
    // key 2 stays the oldest and is the one evicted next
    c.put(2, 21);
    c.put(4, 40);
    assert!(!c.has(&2), "an update keeps the old eviction order");
    assert!(c.has(&3) && c.has(&4));
}

#[test]
fn test_cache_disabled_stores_nothing() {
    let mut c: Cache<i32> = Cache::new(CacheConfig { capacity: 10, enable_cache: false });
    c.put(1, 10);
    assert!(!c.has(&1));
    assert_eq!(c.get(&1), None);
}

#[test]
fn test_cache_zero_capacity_means_large_default() {
    let mut c: Cache<i32> = Cache::new(CacheConfig { capacity: 0, enable_cache: true });
    for k in 0..100u64 {
        c.put(k, k as i32);
    }
    for k in 0..100u64 {
        assert_eq!(c.get(&k), Some(&(k as i32)), "nothing is evicted under the default");
    }
}
