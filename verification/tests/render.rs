use sudoku_solver::sudoku::Sudoku;

#[test]
fn the_empty_board_is_drawn_with_blank_cells() {
    let expected = "    0   1   2   3   4   5   6   7   8\n\
\x20 ┏━━━┯━━━┯━━━┳━━━┯━━━┯━━━┳━━━┯━━━┯━━━┓\n\
0 ┃   │   │   ┃   │   │   ┃   │   │   ┃\n\
\x20 ┠───┼───┼───╂───┼───┼───╂───┼───┼───┨\n\
1 ┃   │   │   ┃   │   │   ┃   │   │   ┃\n\
\x20 ┠───┼───┼───╂───┼───┼───╂───┼───┼───┨\n\
2 ┃   │   │   ┃   │   │   ┃   │   │   ┃\n\
\x20 ┣━━━┿━━━┿━━━╋━━━┿━━━┿━━━╋━━━┿━━━┿━━━┫\n\
3 ┃   │   │   ┃   │   │   ┃   │   │   ┃\n\
\x20 ┠───┼───┼───╂───┼───┼───╂───┼───┼───┨\n\
4 ┃   │   │   ┃   │   │   ┃   │   │   ┃\n\
\x20 ┠───┼───┼───╂───┼───┼───╂───┼───┼───┨\n\
5 ┃   │   │   ┃   │   │   ┃   │   │   ┃\n\
\x20 ┣━━━┿━━━┿━━━╋━━━┿━━━┿━━━╋━━━┿━━━┿━━━┫\n\
6 ┃   │   │   ┃   │   │   ┃   │   │   ┃\n\
\x20 ┠───┼───┼───╂───┼───┼───╂───┼───┼───┨\n\
7 ┃   │   │   ┃   │   │   ┃   │   │   ┃\n\
\x20 ┠───┼───┼───╂───┼───┼───╂───┼───┼───┨\n\
8 ┃   │   │   ┃   │   │   ┃   │   │   ┃\n\
\x20 ┗━━━┷━━━┷━━━┻━━━┷━━━┷━━━┻━━━┷━━━┷━━━┛\n";
    assert_eq!(Sudoku::new().render(), expected);
}

#[test]
fn the_sample_puzzle_is_drawn_with_its_clues() {
    let board: Sudoku = "014,023,048,062,075,106,251,279,284,309,354,377,436,458,\
            511,532,583,608,612,635,785,813,824,849,867,871"
        .parse()
        .unwrap();
    let expected = "    0   1   2   3   4   5   6   7   8\n\
\x20 ┏━━━┯━━━┯━━━┳━━━┯━━━┯━━━┳━━━┯━━━┯━━━┓\n\
0 ┃   │ 4 │ 3 ┃   │ 8 │   ┃ 2 │ 5 │   ┃\n\
\x20 ┠───┼───┼───╂───┼───┼───╂───┼───┼───┨\n\
1 ┃ 6 │   │   ┃   │   │   ┃   │   │   ┃\n\
\x20 ┠───┼───┼───╂───┼───┼───╂───┼───┼───┨\n\
2 ┃   │   │   ┃   │   │ 1 ┃   │ 9 │ 4 ┃\n\
\x20 ┣━━━┿━━━┿━━━╋━━━┿━━━┿━━━╋━━━┿━━━┿━━━┫\n\
3 ┃ 9 │   │   ┃   │   │ 4 ┃   │ 7 │   ┃\n\
\x20 ┠───┼───┼───╂───┼───┼───╂───┼───┼───┨\n\
4 ┃   │   │   ┃ 6 │   │ 8 ┃   │   │   ┃\n\
\x20 ┠───┼───┼───╂───┼───┼───╂───┼───┼───┨\n\
5 ┃   │ 1 │   ┃ 2 │   │   ┃   │   │ 3 ┃\n\
\x20 ┣━━━┿━━━┿━━━╋━━━┿━━━┿━━━╋━━━┿━━━┿━━━┫\n\
6 ┃ 8 │ 2 │   ┃ 5 │   │   ┃   │   │   ┃\n\
\x20 ┠───┼───┼───╂───┼───┼───╂───┼───┼───┨\n\
7 ┃   │   │   ┃   │   │   ┃   │   │ 5 ┃\n\
\x20 ┠───┼───┼───╂───┼───┼───╂───┼───┼───┨\n\
8 ┃   │ 3 │ 4 ┃   │ 9 │   ┃ 7 │ 1 │   ┃\n\
\x20 ┗━━━┷━━━┷━━━┻━━━┷━━━┷━━━┻━━━┷━━━┷━━━┛\n";
    assert_eq!(board.render(), expected);
}

#[test]
fn the_solved_puzzle_is_drawn_with_every_digit() {
    let mut board: Sudoku = "014,023,048,062,075,106,251,279,284,309,354,377,436,458,\
            511,532,583,608,612,635,785,813,824,849,867,871"
        .parse()
        .unwrap();
    assert!(board.solve());
    let expected = "    0   1   2   3   4   5   6   7   8\n\
\x20 ┏━━━┯━━━┯━━━┳━━━┯━━━┯━━━┳━━━┯━━━┯━━━┓\n\
0 ┃ 1 │ 4 │ 3 ┃ 9 │ 8 │ 6 ┃ 2 │ 5 │ 7 ┃\n\
\x20 ┠───┼───┼───╂───┼───┼───╂───┼───┼───┨\n\
1 ┃ 6 │ 7 │ 9 ┃ 4 │ 2 │ 5 ┃ 3 │ 8 │ 1 ┃\n\
\x20 ┠───┼───┼───╂───┼───┼───╂───┼───┼───┨\n\
2 ┃ 2 │ 8 │ 5 ┃ 7 │ 3 │ 1 ┃ 6 │ 9 │ 4 ┃\n\
\x20 ┣━━━┿━━━┿━━━╋━━━┿━━━┿━━━╋━━━┿━━━┿━━━┫\n\
3 ┃ 9 │ 6 │ 2 ┃ 3 │ 5 │ 4 ┃ 1 │ 7 │ 8 ┃\n\
\x20 ┠───┼───┼───╂───┼───┼───╂───┼───┼───┨\n\
4 ┃ 3 │ 5 │ 7 ┃ 6 │ 1 │ 8 ┃ 9 │ 4 │ 2 ┃\n\
\x20 ┠───┼───┼───╂───┼───┼───╂───┼───┼───┨\n\
5 ┃ 4 │ 1 │ 8 ┃ 2 │ 7 │ 9 ┃ 5 │ 6 │ 3 ┃\n\
\x20 ┣━━━┿━━━┿━━━╋━━━┿━━━┿━━━╋━━━┿━━━┿━━━┫\n\
6 ┃ 8 │ 2 │ 1 ┃ 5 │ 6 │ 7 ┃ 4 │ 3 │ 9 ┃\n\
\x20 ┠───┼───┼───╂───┼───┼───╂───┼───┼───┨\n\
7 ┃ 7 │ 9 │ 6 ┃ 1 │ 4 │ 3 ┃ 8 │ 2 │ 5 ┃\n\
\x20 ┠───┼───┼───╂───┼───┼───╂───┼───┼───┨\n\
8 ┃ 5 │ 3 │ 4 ┃ 8 │ 9 │ 2 ┃ 7 │ 1 │ 6 ┃\n\
\x20 ┗━━━┷━━━┷━━━┻━━━┷━━━┷━━━┻━━━┷━━━┷━━━┛\n";
    assert_eq!(board.render(), expected);
}

#[test]
fn the_drawing_has_twenty_lines_of_equal_width() {
    let text = Sudoku::new().render();
    let lines: Vec<&str> = text.lines().collect();
    assert_eq!(lines.len(), 20);
    assert_eq!(lines[0].chars().count(), 37);
    for line in &lines[1..] {
        assert_eq!(line.chars().count(), 39);
    }
    assert!(text.ends_with('\n'));
}
