use sudoku_solver::codec::ParseError;
use sudoku_solver::sudoku::Sudoku;

#[test]
fn test_parse() {
    let s = "001,022,033,044,149,888";
    let sudoku: Sudoku = s.parse().unwrap();
    println!("{}", sudoku.render());
    assert_eq!(sudoku.get(0, 0), Some(1));
    assert_eq!(sudoku.get(0, 2), Some(2));
    assert_eq!(sudoku.get(0, 3), Some(3));
    assert_eq!(sudoku.get(0, 4), Some(4));
    assert_eq!(sudoku.get(1, 4), Some(9));
    assert_eq!(sudoku.get(8, 8), Some(8));
}

#[test]
fn test_parse2() {
    let mut s = Sudoku::new();
    s.fill(0, 1, 4);
    s.fill(0, 2, 3);
    s.fill(0, 4, 8);
    s.fill(0, 6, 2);
    s.fill(0, 7, 5);

    s.fill(1, 0, 6);

    s.fill(2, 5, 1);
    s.fill(2, 7, 9);
    s.fill(2, 8, 4);

    s.fill(3, 0, 9);
    s.fill(3, 5, 4);
    s.fill(3, 7, 7);

    s.fill(4, 3, 6);
    s.fill(4, 5, 8);

    s.fill(5, 1, 1);
    s.fill(5, 3, 2);
    s.fill(5, 8, 3);

    s.fill(6, 0, 8);
    s.fill(6, 1, 2);
    s.fill(6, 3, 5);

    s.fill(7, 8, 5);

    s.fill(8, 1, 3);
    s.fill(8, 2, 4);
    s.fill(8, 4, 9);
    s.fill(8, 6, 7);
    s.fill(8, 7, 1);

    let s1: Sudoku = "014,023,048,062,075,106,251,279,284,309,354,377,436,458,\
            511,532,583,608,612,635,785,813,824,849,867,871"
        .parse()
        .unwrap();
    assert_eq!(s.grid(), s1.grid());
}

#[test]
fn parse_fills_only_the_named_cells() {
    let board: Sudoku = "001,022,033,044,149,888".parse().unwrap();
    let mut expected = [None; 81];
    expected[0] = Some(1);
    expected[2] = Some(2);
    expected[3] = Some(3);
    expected[4] = Some(4);
    expected[13] = Some(9);
    expected[80] = Some(8);
    assert_eq!(board.grid(), expected);
}

#[test]
fn empty_text_is_the_empty_board() {
    let board: Sudoku = "".parse().unwrap();
    assert_eq!(board, Sudoku::new());
    let board: Sudoku = ",,,".parse().unwrap();
    assert_eq!(board, Sudoku::new());
    let board = Sudoku::from_bytes(b"   ").unwrap();
    assert_eq!(board, Sudoku::new());
}

#[test]
fn fields_of_another_length_are_passed_over() {
    let board: Sudoku = "01, 0123,,014,x,99,12345".parse().unwrap();
    let mut expected = [None; 81];
    expected[1] = Some(4);
    assert_eq!(board.grid(), expected);
}

#[test]
fn fields_are_trimmed_of_white_space() {
    let board: Sudoku = " 014 ,\t023\r\n,\n\n048,\u{b}\u{c}062 \t".parse().unwrap();
    let plain: Sudoku = "014,023,048,062".parse().unwrap();
    assert_eq!(board, plain);
    assert_eq!(board.get(0, 6), Some(2));
}

#[test]
fn fields_are_trimmed_of_white_space_beyond_ascii() {
    let text = "\u{a0}014\u{3000},\u{2003}\u{85}023\u{1680},\u{2028}\u{2029}048\u{202f}\u{205f},\u{2000}062\u{200a}";
    let board: Sudoku = text.parse().unwrap();
    let plain: Sudoku = "014,023,048,062".parse().unwrap();
    assert_eq!(board, plain);
    for field in text.split(',') {
        assert_eq!(field.trim().len(), 3);
    }
}

#[test]
fn white_space_inside_a_token_is_kept() {
    let board: Sudoku = "0 1 4,023".parse().unwrap();
    let plain: Sudoku = "023".parse().unwrap();
    assert_eq!(board, plain);
    assert_eq!(
        "0 4".parse::<Sudoku>(),
        Err(ParseError { row: b'0', col: b' ', digit: b'4' })
    );
}

#[test]
fn a_later_token_replaces_an_earlier_one() {
    let board: Sudoku = "014,015".parse().unwrap();
    assert_eq!(board.get(0, 1), Some(5));
    let board: Sudoku = "015,888,014".parse().unwrap();
    assert_eq!(board.get(0, 1), Some(4));
    assert_eq!(board.get(8, 8), Some(8));
}

#[test]
fn a_row_that_is_no_digit_below_nine_is_refused() {
    assert_eq!(
        "914".parse::<Sudoku>(),
        Err(ParseError { row: b'9', col: b'1', digit: b'4' })
    );
    assert_eq!(
        "/14".parse::<Sudoku>(),
        Err(ParseError { row: b'/', col: b'1', digit: b'4' })
    );
    assert_eq!(
        "a14".parse::<Sudoku>(),
        Err(ParseError { row: b'a', col: b'1', digit: b'4' })
    );
}

#[test]
fn a_column_that_is_no_digit_below_nine_is_refused() {
    assert_eq!(
        "094".parse::<Sudoku>(),
        Err(ParseError { row: b'0', col: b'9', digit: b'4' })
    );
    assert_eq!(
        "0-4".parse::<Sudoku>(),
        Err(ParseError { row: b'0', col: b'-', digit: b'4' })
    );
}

#[test]
fn a_value_that_is_no_digit_from_one_to_nine_is_refused() {
    assert_eq!(
        "010".parse::<Sudoku>(),
        Err(ParseError { row: b'0', col: b'1', digit: b'0' })
    );
    assert_eq!(
        "01:".parse::<Sudoku>(),
        Err(ParseError { row: b'0', col: b'1', digit: b':' })
    );
    assert_eq!(
        "01x".parse::<Sudoku>(),
        Err(ParseError { row: b'0', col: b'1', digit: b'x' })
    );
}

#[test]
fn a_token_of_three_bytes_that_holds_no_digits_is_refused() {
    assert_eq!(
        "\u{e9}1".parse::<Sudoku>(),
        Err(ParseError { row: 0xc3, col: 0xa9, digit: b'1' })
    );
    assert_eq!(
        "\u{20ac}".parse::<Sudoku>(),
        Err(ParseError { row: 0xe2, col: 0x82, digit: 0xac })
    );
}

#[test]
fn the_first_refused_token_is_the_error() {
    assert_eq!(
        "014,999,0x0,023".parse::<Sudoku>(),
        Err(ParseError { row: b'9', col: b'9', digit: b'9' })
    );
    assert_eq!(
        "12, abc ,014,000".parse::<Sudoku>(),
        Err(ParseError { row: b'a', col: b'b', digit: b'c' })
    );
}

#[test]
fn the_corner_cells_are_accepted() {
    let board: Sudoku = "001,089,801,889".parse().unwrap();
    assert_eq!(board.get(0, 0), Some(1));
    assert_eq!(board.get(0, 8), Some(9));
    assert_eq!(board.get(8, 0), Some(1));
    assert_eq!(board.get(8, 8), Some(9));
}

#[test]
fn from_bytes_reads_what_from_str_reads() {
    let text = "014, 023 ,,048,1,062";
    let a: Sudoku = text.parse().unwrap();
    let b = Sudoku::from_bytes(text.as_bytes()).unwrap();
    assert_eq!(a, b);
    assert_eq!(
        Sudoku::from_bytes(b"0\xff4"),
        Err(ParseError { row: b'0', col: 0xff, digit: b'4' })
    );
}

#[test]
fn to_bytes_writes_one_token_for_each_filled_cell() {
    assert_eq!(Sudoku::new().to_bytes(), b"".to_vec());
    let mut s = Sudoku::new();
    s.fill(8, 8, 8);
    assert_eq!(s.to_bytes(), b"888".to_vec());
    s.fill(0, 1, 4);
    assert_eq!(s.to_bytes(), b"014,888".to_vec());
    s.fill(4, 0, 9);
    s.fill(0, 0, 1);
    assert_eq!(s.to_bytes(), b"001,014,409,888".to_vec());
}

#[test]
fn reading_the_text_of_a_board_gives_the_board_back() {
    let text = "014,023,048,062,075,106,251,279,284,309,354,377,436,458,\
            511,532,583,608,612,635,785,813,824,849,867,871";
    let board: Sudoku = text.parse().unwrap();
    let written = String::from_utf8(board.to_bytes()).unwrap();
    assert_eq!(written, text);
    let again: Sudoku = written.parse().unwrap();
    assert_eq!(again, board);
}

#[test]
fn reading_the_text_of_a_solved_board_gives_the_board_back() {
    let mut board: Sudoku = "014,023,048,062,075,106,251,279,284,309,354,377,436,458,\
            511,532,583,608,612,635,785,813,824,849,867,871"
        .parse()
        .unwrap();
    assert!(board.solve());
    let written = board.to_bytes();
    assert_eq!(written.len(), 81 * 4 - 1);
    let again = Sudoku::from_bytes(&written).unwrap();
    assert_eq!(again.grid(), board.grid());
}
