use gerrymandering::Board;

#[test]
fn test_board_new_is_empty() {
    let b = Board::new(3, 2);
    assert_eq!(b.width(), 3);
    assert_eq!(b.height(), 2);
    assert_eq!(b.area(), 6);
    assert_eq!(b.board_id(), 0);
    for y in 0..2_i64 {
        for x in 0..3_i64 {
            assert!(!b.get(x, y));
        }
    }
}

#[test]
fn test_board_of_no_cells() {
    let b = Board::new(0, 0);
    assert_eq!(b.area(), 0);
    assert_eq!(b.board_id(), 0);
    let c = Board::new(0, 5);
    assert_eq!(c.area(), 0);
    let d = Board::new(7, 0);
    assert_eq!(d.area(), 0);
}

#[test]
fn test_board_of_full_capacity() {
    let mut b = Board::new(8, 8);
    assert_eq!(b.area(), 64);
    b.set(7, 7);
    assert_eq!(b.board_id(), 0x8000_0000_0000_0000);
    b.toggle_all();
    assert_eq!(b.board_id(), 0x7FFF_FFFF_FFFF_FFFF);
}

#[test]
fn test_board_identity_is_row_major() {
    let mut b = Board::new(3, 3);
    b.set(0, 0);
    assert_eq!(b.board_id(), 0x1);
    b.set(2, 0);
    assert_eq!(b.board_id(), 0x5);
    b.set(0, 1);
    assert_eq!(b.board_id(), 0xD);
    b.set(2, 2);
    assert_eq!(b.board_id(), 0x10D);
    assert!(b.get(0, 0));
    assert!(!b.get(1, 0));
    assert!(b.get(2, 0));
    assert!(b.get(0, 1));
    assert!(!b.get(1, 1));
    assert!(b.get(2, 2));
}

#[test]
fn test_board_identity_depends_on_width() {
    let mut narrow = Board::new(2, 3);
    let mut wide = Board::new(3, 2);
    narrow.set(1, 1);
    wide.set(1, 1);
    assert_eq!(narrow.board_id(), 0x8);
    assert_eq!(wide.board_id(), 0x10);
}

#[test]
fn test_board_clear_frees_a_cell() {
    let mut b = Board::new(2, 2);
    b.set(1, 0);
    b.set(1, 1);
    assert_eq!(b.board_id(), 0xA);
    b.clear(1, 0);
    assert_eq!(b.board_id(), 0x8);
    assert!(!b.get(1, 0));
    assert!(b.get(1, 1));
    b.clear(0, 0);
    assert_eq!(b.board_id(), 0x8);
}

#[test]
fn test_board_toggle_all_flips_every_cell() {
    let mut b = Board::new(3, 2);
    b.set(1, 0);
    b.set(2, 1);
    assert_eq!(b.board_id(), 0x22);
    b.toggle_all();
    assert_eq!(b.board_id(), 0x1D);
    assert_eq!(b.width(), 3);
    assert_eq!(b.height(), 2);
    b.toggle_all();
    assert_eq!(b.board_id(), 0x22);
}

#[test]
fn test_board_toggle_all_leaves_no_bit_outside() {
    let mut b = Board::new(2, 2);
    b.toggle_all();
    assert_eq!(b.board_id(), 0xF);
    let mut e = Board::new(0, 3);
    e.toggle_all();
    assert_eq!(e.board_id(), 0);
}

#[test]
fn test_board_clone_and_equality() {
    let mut a = Board::new(2, 2);
    a.set(0, 1);
    let mut b = a.clone();
    assert_eq!(a, b);
    assert_eq!(b.board_id(), 0x4);
    b.set(1, 1);
    assert_ne!(a, b);
    assert_eq!(a.board_id(), 0x4);
    assert_eq!(b.board_id(), 0xC);
    assert_ne!(Board::new(1, 4), Board::new(4, 1));
}

#[test]
fn test_board_toggle_flips_one_cell() {
    let mut b = Board::new(3, 2);
    b.set(0, 0);
    b.set(2, 1);
    assert_eq!(b.board_id(), 0x21);
    let before = b.clone();
    b.toggle(1, 1);
    assert_eq!(b.board_id(), 0x31);
    assert_eq!(b.width(), 3);
    assert_eq!(b.height(), 2);
    for y in 0..2_i64 {
        for x in 0..3_i64 {
            if (x, y) == (1, 1) {
                assert_eq!(b.get(x, y), !before.get(x, y));
            } else {
                assert_eq!(b.get(x, y), before.get(x, y));
            }
        }
    }
    b.toggle(0, 0);
    assert_eq!(b.board_id(), 0x30);
    assert!(!b.get(0, 0));
    b.toggle(1, 1);
    b.toggle(0, 0);
    assert_eq!(b, before);
}

#[test]
fn test_board_toggle_on_a_single_cell_board() {
    let mut b = Board::new(1, 1);
    b.toggle(0, 0);
    assert_eq!(b.board_id(), 0x1);
    b.toggle(0, 0);
    assert_eq!(b.board_id(), 0x0);
}

#[test]
fn test_board_toggle_of_the_last_cell() {
    let mut b = Board::new(8, 8);
    b.toggle(7, 7);
    assert_eq!(b.board_id(), 0x8000_0000_0000_0000);
    b.toggle(0, 0);
    assert_eq!(b.board_id(), 0x8000_0000_0000_0001);
    b.toggle(7, 7);
    assert_eq!(b.board_id(), 0x1);
}
