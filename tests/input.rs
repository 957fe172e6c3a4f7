use nonogram_bits::board::render_board;
use nonogram_bits::input::{parse_numbers, ParseError};

#[test]
fn reads_numbers_separated_by_white_space() {
    assert_eq!(parse_numbers(b"3 4\n"), Ok(vec![3, 4]));
    assert_eq!(parse_numbers(b"  12\t0  7 \r\n"), Ok(vec![12, 0, 7]));
}

#[test]
fn empty_line_holds_no_runs() {
    assert_eq!(parse_numbers(b""), Ok(vec![]));
    assert_eq!(parse_numbers(b"\n"), Ok(vec![]));
    assert_eq!(parse_numbers(b"   "), Ok(vec![]));
}

#[test]
fn malformed_token_is_a_parse_error() {
    assert_eq!(parse_numbers(b"1 x 2"), Err(ParseError));
    assert_eq!(parse_numbers(b"12a"), Err(ParseError));
    assert_eq!(parse_numbers(b"-3"), Err(ParseError));
}

#[test]
fn number_above_usize_is_a_parse_error() {
    let max = format!("{}", usize::MAX);
    assert_eq!(parse_numbers(max.as_bytes()), Ok(vec![usize::MAX]));
    let over = format!("{}0", usize::MAX);
    assert_eq!(parse_numbers(over.as_bytes()), Err(ParseError));
}

#[test]
fn board_is_drawn_row_by_row() {
    let board = vec![vec![true, false, true], vec![false, false, true]];
    assert_eq!(render_board(&board), b"#.#\n..#\n".to_vec());
    assert_eq!(render_board(&vec![]), Vec::<u8>::new());
}
