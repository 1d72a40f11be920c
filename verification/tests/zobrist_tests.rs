use gomoku_core::zobrist_cache::ZobristCache;

#[test]
fn test_zobrist_toggle() {
    let size = 5;
    let mut z = ZobristCache::new(size);
    let h0 = z.get_hash();

    z.toggle_piece(2, 2, 1);
    let h1 = z.get_hash();
    assert_ne!(h0, h1, "Hash must change after toggling a piece");

    z.toggle_piece(2, 2, 1);
    let h2 = z.get_hash();
    assert_eq!(h0, h2, "Hash must revert after toggling same piece again");

    z.toggle_piece(1, 3, -1);
    let h3 = z.get_hash();
    assert_ne!(h0, h3);
    assert_ne!(h1, h3);
}

#[test]
fn test_zobrist_collisions() {
    let size = 3;
    let mut z = ZobristCache::new(size);
    let h0 = z.get_hash();
    z.toggle_piece(0, 0, 1);
    let h1 = z.get_hash();
    z.toggle_piece(2, 2, -1);
    let h2 = z.get_hash();

    assert_ne!(h0, h1);
    assert_ne!(h0, h2);
    assert_ne!(h1, h2);
}

#[test]
fn test_zobrist_order_independent() {
    let size = 4;
    let mut z = ZobristCache::new(size);
    z.toggle_piece(0, 0, 1);
    z.toggle_piece(3, 3, -1);
    let h_ab = z.get_hash();
    // undo both, then apply in the other order
    z.toggle_piece(3, 3, -1);
    z.toggle_piece(0, 0, 1);
    z.toggle_piece(3, 3, -1);
    z.toggle_piece(0, 0, 1);
    let h_ba = z.get_hash();
    assert_eq!(h_ab, h_ba, "the fingerprint ignores move order");
}
