use picross::board::{display_bool, display_option_bool, Board};

#[test]
fn sound_dangling_drop() {
    let _drop: Board<bool> = Board::default();
}

#[test]
fn new_fills_every_cell() {
    let b: Board<u8> = Board::new(3, 2, 7);
    assert_eq!(b.width(), 3);
    assert_eq!(b.height(), 2);
    assert_eq!(b.row(0), vec![7, 7, 7]);
    assert_eq!(b.row(1), vec![7, 7, 7]);
    assert_eq!(b.col(2), vec![7, 7]);
}

#[test]
fn new_default_uses_the_default_value() {
    let b: Board<Option<bool>> = Board::new_default(2, 2);
    assert_eq!(b.row(0), vec![None, None]);
    assert_eq!(b.row(1), vec![None, None]);
}

#[test]
fn rows_and_columns_round_trip() {
    let mut b: Board<u8> = Board::new(3, 2, 0);
    b.set_row(0, vec![1, 2, 3]);
    b.set_row(1, vec![4, 5, 6]);
    assert_eq!(b.row(0), vec![1, 2, 3]);
    assert_eq!(b.col(0), vec![1, 4]);
    assert_eq!(b.col(1), vec![2, 5]);
    b.set_col(1, vec![9, 8]);
    assert_eq!(b.row(0), vec![1, 9, 3]);
    assert_eq!(b.row(1), vec![4, 8, 6]);
    b.set_row_slice(1, &vec![7, 7, 7]);
    assert_eq!(b.row(1), vec![7, 7, 7]);
}

#[test]
fn positions_read_and_write() {
    let mut b: Board<u8> = Board::new(2, 2, 0);
    b.set_pos(1, 0, 5);
    assert_eq!(b.pos(1, 0), 5);
    assert_eq!(b.pos(0, 0), 0);
}

#[test]
fn pos_mut_writes_through() {
    let mut b: Board<u8> = Board::new(2, 2, 0);
    *b.pos_mut(1, 1) = 4;
    assert_eq!(b.pos(1, 1), 4);
    assert_eq!(b.pos(0, 1), 0);
    assert_eq!(b.pos(1, 0), 0);
}

#[test]
fn clone_is_independent() {
    let mut b: Board<u8> = Board::new(2, 1, 1);
    let c = b.clone();
    b.set_pos(0, 0, 9);
    assert_eq!(c.pos(0, 0), 1);
    assert_eq!(b.pos(0, 0), 9);
}

#[test]
fn cell_characters() {
    assert_eq!(display_bool(true), 'X');
    assert_eq!(display_bool(false), '.');
    assert_eq!(display_option_bool(Some(true)), 'X');
    assert_eq!(display_option_bool(Some(false)), '.');
    assert_eq!(display_option_bool(None), '?');
}
