use minesweeper::annotate;
use minesweeper::try_annotate;
use minesweeper::GridError;

#[test]
fn empty_board_stays_empty() {
    let board: Vec<&str> = vec![];
    let annotated = annotate(&board);
    assert!(annotated.is_empty());
}

#[test]
fn surrounded_cell_counts_all_eight() {
    let board = vec!["***", "* *", "***"];
    let annotated = annotate(&board);
    assert_eq!(annotated, vec!["***", "*8*", "***"]);
}

#[test]
fn vertical_mines_with_middle_counts() {
    let board = vec![" * ", "   ", " * "];
    let annotated = annotate(&board);
    assert_eq!(annotated, vec!["1*1", "222", "1*1"]);
}

#[test]
fn single_row_mine_and_blank() {
    let board = vec!["* "];
    let annotated = annotate(&board);
    assert_eq!(annotated, vec!["*1"]);
}

#[test]
fn board_with_no_mines_is_unchanged() {
    let board = vec!["   ", "   ", "   "];
    let annotated = annotate(&board);
    assert_eq!(annotated, vec!["   ", "   ", "   "]);
}

#[test]
fn single_mine_is_kept() {
    let board = vec!["*"];
    let annotated = annotate(&board);
    assert_eq!(annotated, vec!["*"]);
}

#[test]
fn cross_of_mines() {
    let board = vec![" * ", "***", " * "];
    let annotated = annotate(&board);
    assert_eq!(annotated, vec!["3*3", "***", "3*3"]);
}

#[test]
fn larger_board_with_corner_mines() {
    let board = vec!["*  ", "   ", "  *"];
    let annotated = annotate(&board);
    assert_eq!(annotated, vec!["*1 ", "121", " 1*"]);
}

#[test]
fn try_annotate_accepts_a_well_formed_board() {
    let board = vec![" * ", "   ", " * "];
    let annotated = try_annotate(&board).unwrap();
    assert_eq!(annotated, vec!["1*1", "222", "1*1"]);
}

#[test]
fn try_annotate_accepts_the_empty_board() {
    let board: Vec<&str> = vec![];
    let annotated = try_annotate(&board).unwrap();
    assert!(annotated.is_empty());
}

#[test]
fn try_annotate_rejects_ragged_rows() {
    let board = vec!["* ", "*"];
    assert_eq!(try_annotate(&board), Err(GridError::InvalidGrid));
}

#[test]
fn try_annotate_rejects_unknown_cells() {
    let board = vec!["* ", " x"];
    assert_eq!(try_annotate(&board), Err(GridError::InvalidCell));
}
