use cljvindent::helpers::{
    absolute_col_in_slice, line_start_byte, local_col, shift_block_all_lines,
    shift_multiline_block,
};

#[test]
fn columns_within_lines() {
    assert_eq!(line_start_byte(b"ab\ncd", 4), 3);
    assert_eq!(line_start_byte(b"ab\ncd", 2), 0);
    assert_eq!(line_start_byte(b"ab\n", 3), 3);
    assert_eq!(local_col(b"ab\ncd", 4), 1);
    assert_eq!(local_col(b"abcd", 3), 3);
}

#[test]
fn absolute_columns_in_a_slice() {
    assert_eq!(absolute_col_in_slice(b"abcd", 5, 2), 7);
    assert_eq!(absolute_col_in_slice(b"ab\ncd", 5, 4), 1);
    assert_eq!(absolute_col_in_slice(b"", 9, 0), 9);
}

#[test]
fn multiline_block_moves_later_lines() {
    assert_eq!(shift_multiline_block(b"a\n  b\n\n c", 2), b"a\n    b\n\n   c".to_vec());
    assert_eq!(shift_multiline_block(b"a\n    b\n c", -2), b"a\n  b\nc".to_vec());
    assert_eq!(shift_multiline_block(b"abc", 3), b"abc".to_vec());
    assert_eq!(shift_multiline_block(b"a\n b", 0), b"a\n b".to_vec());
}

#[test]
fn block_moves_every_line() {
    assert_eq!(shift_block_all_lines(b" a\nb", 1), b"  a\n b".to_vec());
    assert_eq!(shift_block_all_lines(b"   a\n b\n", -2), b" a\nb\n".to_vec());
    assert_eq!(shift_block_all_lines(b"", 4), b"".to_vec());
}

#[test]
fn moving_right_then_left_gives_the_block_back() {
    let t: &[u8] = b"(f x\n  (g y)\n\n   z)";
    let moved = shift_multiline_block(t, 3);
    assert_ne!(moved, t.to_vec());
    assert_eq!(shift_multiline_block(&moved, -3), t.to_vec());
    let all = shift_block_all_lines(t, 5);
    assert_eq!(shift_block_all_lines(&all, -5), t.to_vec());
}

#[test]
fn moving_left_first_can_lose_indentation() {
    let t: &[u8] = b"a\n b";
    let moved = shift_multiline_block(t, -2);
    assert_eq!(moved, b"a\nb".to_vec());
    assert_eq!(shift_multiline_block(&moved, 2), b"a\n  b".to_vec());
}

#[test]
fn two_moves_right_are_one_move_by_the_sum() {
    let t: &[u8] = b"(f x\n  (g y)\n\n   z)";
    let twice = shift_multiline_block(&shift_multiline_block(t, 2), 3);
    assert_eq!(twice, shift_multiline_block(t, 5));
    assert_eq!(twice, b"(f x\n       (g y)\n\n        z)".to_vec());
}

#[test]
fn moving_all_lines_is_spaces_before_moving_later_lines() {
    let t: &[u8] = b"(f x\n  (g y)\n\n   z)";
    let mut expected = b"   ".to_vec();
    expected.extend(shift_multiline_block(t, 3));
    assert_eq!(shift_block_all_lines(t, 3), expected);
    let empty_first: &[u8] = b"\n x";
    assert_eq!(shift_block_all_lines(empty_first, 2), b"\n   x".to_vec());
}
