use maze_solver::grid::Point;
use maze_solver::parse::{parse_marked_point, parse_point, parse_row, ParseError};

#[test]
fn point_from_parentheses() {
    assert_eq!(parse_point("(0,0)"), Ok(Point(0, 0)));
    assert_eq!(parse_point("(12,34)"), Ok(Point(12, 34)));
}

#[test]
fn point_skips_pieces_that_are_not_numbers() {
    assert_eq!(parse_point("(a,3,4)"), Ok(Point(3, 4)));
    assert_eq!(parse_point("((7),,8)"), Ok(Point(7, 8)));
}

#[test]
fn point_piece_with_space_is_not_a_number() {
    assert_eq!(parse_point("(1, 2)"), Err(ParseError::MissingCoordinate));
}

#[test]
fn point_needs_two_numbers() {
    assert_eq!(parse_point(""), Err(ParseError::MissingCoordinate));
    assert_eq!(parse_point("(5)"), Err(ParseError::MissingCoordinate));
}

#[test]
fn point_too_large() {
    assert_eq!(
        parse_point("(1,99999999999999999999999)"),
        Err(ParseError::InvalidCoordinate)
    );
    assert_eq!(
        parse_point("(1,2,99999999999999999999999)"),
        Err(ParseError::InvalidCoordinate)
    );
    assert_eq!(
        parse_point("(18446744073709551615,0)"),
        Ok(Point(usize::MAX, 0))
    );
}

#[test]
fn row_of_codes() {
    assert_eq!(parse_row("0 1 2"), Ok(vec![0, 1, 2]));
    assert_eq!(parse_row("  0\t1  "), Ok(vec![0, 1]));
    assert_eq!(parse_row(""), Ok(vec![]));
}

#[test]
fn row_skips_pieces_that_are_not_numbers() {
    assert_eq!(parse_row("0 x 1 2a 3"), Ok(vec![0, 1, 3]));
}

#[test]
fn row_code_too_large() {
    assert_eq!(parse_row("0 256 1"), Err(ParseError::CellCodeTooLarge));
    assert_eq!(parse_row("255"), Ok(vec![255]));
    assert_eq!(parse_row("1 300"), Err(ParseError::CellCodeTooLarge));
}

#[test]
fn row_splits_at_unicode_white_space() {
    assert_eq!(parse_row("0\u{a0}1"), Ok(vec![0, 1]));
    assert_eq!(parse_row("1\u{3000}0\u{2003}1\u{85}0"), Ok(vec![1, 0, 1, 0]));
    assert_eq!(parse_row("2\u{1680}0\u{2028}1\u{202f}1\u{205f}0"), Ok(vec![2, 0, 1, 1, 0]));
    assert_eq!(parse_row("0\u{0b}1"), Ok(vec![0, 1]));
}

#[test]
fn row_code_too_large_across_unicode_space() {
    assert_eq!(parse_row("300\u{a0}1"), Err(ParseError::CellCodeTooLarge));
}

#[test]
fn row_other_non_ascii_is_not_a_cut() {
    assert_eq!(parse_row("1\u{e9}2 3"), Ok(vec![3]));
    assert_eq!(parse_row("1\u{2010}2 3"), Ok(vec![3]));
}

#[test]
fn point_non_ascii_numeral_is_an_error() {
    assert_eq!(parse_point("(\u{663},1,2)"), Err(ParseError::InvalidCoordinate));
    assert_eq!(parse_point("(1,2\u{b2})"), Err(ParseError::InvalidCoordinate));
}

#[test]
fn point_non_numeric_piece_is_skipped() {
    assert_eq!(parse_point("(\u{e9},1,2)"), Ok(Point(1, 2)));
}

fn marks(line: &str, numeric: &[char]) -> Vec<(char, bool)> {
    line.chars()
        .map(|c| (c, c.is_ascii_digit() || numeric.contains(&c)))
        .collect()
}

#[test]
fn marked_point_follows_the_marks() {
    assert_eq!(parse_marked_point(&marks("(x,3,4)", &[])), Ok(Point(3, 4)));
    assert_eq!(
        parse_marked_point(&marks("(x,3,4)", &['x'])),
        Err(ParseError::InvalidCoordinate)
    );
    assert_eq!(
        parse_marked_point(&marks("(5)", &[])),
        Err(ParseError::MissingCoordinate)
    );
}
