use nonograms::{
    parse_list, parse_usize, trim_bytes, unquote, BuilderError, Outcome, Parser, ParserError,
    Solver,
};

const PLUS: &str = "catalogue \"plus\"\ntitle \"Plus\"\nwidth 3\nheight 3\n\nrows\n1\n3\n1\n\ncolumns\n1\n3\n1\n\ngoal \"010111010\"\n";

#[test]
fn parses_a_full_description() {
    let n = Parser::new().parse(PLUS.as_bytes()).unwrap();
    assert_eq!(n.width(), 3);
    assert_eq!(n.height(), 3);
    assert_eq!(n.rows, vec![vec![1], vec![3], vec![1]]);
    assert_eq!(n.cols, vec![vec![1], vec![3], vec![1]]);
    assert_eq!(n.cells.len(), 9);
}

#[test]
fn parsed_puzzle_solves() {
    let mut n = Parser::new().parse(PLUS.as_bytes()).unwrap();
    let mut s = Solver::new(&n);
    assert_eq!(s.solve(&mut n), Outcome::Solved);
    assert_eq!(n.as_text(), " \u{2588} \n\u{2588}\u{2588}\u{2588}\n \u{2588} \n");
}

#[test]
fn block_ends_without_blank_line_and_crlf() {
    let src = "width 2\r\nheight 1\r\ncolumns\r\n0\r\n1, 0\r\nrows\r\n 1 , 0 \r\n";
    let n = Parser::default().parse(src.as_bytes()).unwrap();
    assert_eq!(n.cols, vec![vec![0], vec![1, 0]]);
    assert_eq!(n.rows, vec![vec![1, 0]]);
}

#[test]
fn empty_list_line_ends_block() {
    let src = "width 1\nheight 1\nrows\n1\n\n2\ncolumns\n1";
    let n = Parser::new().parse(src.as_bytes()).unwrap();
    assert_eq!(n.rows, vec![vec![1]]);
    assert_eq!(n.cols, vec![vec![1]]);
}

#[test]
fn bad_dimension_is_parse_int_error() {
    let r = Parser::new().parse(b"width x\n");
    assert!(matches!(r, Err(ParserError::ParseIntError)));
    let r = Parser::new().parse(b"height 99999999999999999999999\n");
    assert!(matches!(r, Err(ParserError::ParseIntError)));
}

#[test]
fn repeated_dimension_is_builder_error() {
    let r = Parser::new().parse(b"width 1\nwidth 2\n");
    assert!(matches!(r, Err(ParserError::BuilderError(BuilderError::WidthAlreadySet))));
    let r = Parser::new().parse(b"height 1\nheight 1\n");
    assert!(matches!(r, Err(ParserError::BuilderError(BuilderError::HeightAlreadySet))));
}

#[test]
fn count_mismatch_is_invalid() {
    let r = Parser::new().parse(b"width 2\nheight 1\nrows\n1\ncolumns\n1\n");
    assert!(matches!(r, Err(ParserError::BuilderError(BuilderError::ColumnCountMismatch))));
    let r = Parser::new().parse(b"width 1\nheight 2\nrows\n1\ncolumns\n1\n");
    assert!(matches!(r, Err(ParserError::BuilderError(BuilderError::RowCountMismatch))));
    let r = Parser::new().parse(b"");
    assert!(matches!(r, Err(ParserError::BuilderError(BuilderError::MissingWidth))));
    let r = Parser::new().parse(b"width 1\n");
    assert!(matches!(r, Err(ParserError::BuilderError(BuilderError::MissingHeight))));
}

#[test]
fn number_lists() {
    assert_eq!(parse_list(b"1,2, 3 "), Some(vec![1, 2, 3]));
    assert_eq!(parse_list(b"+4"), Some(vec![4]));
    assert_eq!(parse_list(b"1,,2"), None);
    assert_eq!(parse_list(b"rows"), None);
    assert_eq!(parse_usize(b"18446744073709551615"), Some(usize::MAX));
    assert_eq!(parse_usize(b"18446744073709551616"), None);
    assert_eq!(parse_usize(b"+"), None);
    assert_eq!(parse_usize(b"-1"), None);
    assert_eq!(parse_usize(b"007"), Some(7));
}

#[test]
fn trimming_and_unquoting() {
    assert_eq!(trim_bytes(b" \t ab c\r\n"), b"ab c");
    assert_eq!(trim_bytes(b"   "), b"");
    assert_eq!(unquote(b"\"01\""), b"01".to_vec());
    assert_eq!(unquote(b"01"), b"01".to_vec());
    assert_eq!(unquote(b"\""), b"\"".to_vec());
}

#[test]
fn unicode_whitespace_is_trimmed() {
    let src = "width 2\u{a0}\nheight 1\nrows\n1\u{a0}\ncolumns\n\u{3000}1\n0\u{2003}\n";
    let n = Parser::new().parse(src.as_bytes()).unwrap();
    assert_eq!(n.width(), 2);
    assert_eq!(n.rows, vec![vec![1]]);
    assert_eq!(n.cols, vec![vec![1], vec![0]]);
    assert_eq!(trim_bytes("\u{85}\u{1680} x y\u{205f}\u{2029}".as_bytes()), b"x y");
}
