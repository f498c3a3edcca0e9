use nonograms::{BuilderError, CellState, Nonogram, NonogramBuilder};
use CellState::{Empty as E, Filled as F, Undecided as U};

fn three_by_two() -> Nonogram {
    let mut b = NonogramBuilder::new();
    b.width(3).unwrap().height(2).unwrap();
    b.push_row_constraint(vec![1]).push_row_constraint(vec![2]);
    b.push_col_constraint(vec![1]).push_col_constraint(vec![1]).push_col_constraint(vec![1]);
    b.build().unwrap()
}

#[test]
fn new_grid_is_undecided() {
    let n = Nonogram::new(3, 2, vec![vec![]; 3], vec![vec![]; 2]);
    assert_eq!(n.width(), 3);
    assert_eq!(n.height(), 2);
    assert_eq!(n.cells, vec![U; 6]);
}

#[test]
fn builder_sets_each_dimension_once() {
    let mut b = Nonogram::builder();
    assert!(b.width(4).is_ok());
    assert!(matches!(b.width(5), Err(BuilderError::WidthAlreadySet)));
    assert!(b.height(1).is_ok());
    assert!(matches!(b.height(2), Err(BuilderError::HeightAlreadySet)));
    assert_eq!(b.width, Some(4));
    assert_eq!(b.height, Some(1));
}

#[test]
fn builder_validates_counts() {
    let mut b = NonogramBuilder::default();
    assert_eq!(b.validate(), Err(BuilderError::MissingWidth));
    b.width(1).unwrap();
    assert_eq!(b.validate(), Err(BuilderError::MissingHeight));
    b.height(1).unwrap();
    assert_eq!(b.validate(), Err(BuilderError::RowCountMismatch));
    b.push_row_constraint(vec![1]);
    assert_eq!(b.validate(), Err(BuilderError::ColumnCountMismatch));
    b.push_col_constraint(vec![1]);
    assert_eq!(b.validate(), Ok(()));
    let n = b.build().unwrap();
    assert_eq!(n.rows, vec![vec![1]]);
    assert_eq!(n.cols, vec![vec![1]]);
}

#[test]
fn build_refuses_mismatch() {
    let mut b = NonogramBuilder::new();
    b.width(2).unwrap();
    b.height(1).unwrap();
    b.push_row_constraint(vec![1]);
    b.push_col_constraint(vec![1]);
    assert!(matches!(b.build(), Err(BuilderError::ColumnCountMismatch)));
}

#[test]
fn rows_columns_and_indices() {
    let mut n = three_by_two();
    assert_eq!(n.xy_to_index(2, 1), 5);
    assert_eq!(n.xy_to_index(0, 1), 3);
    n.set(1, 0, F);
    n.set(2, 1, E);
    assert_eq!(n.get(1, 0), F);
    assert_eq!(n.row(0).unwrap(), &[U, F, U][..]);
    assert_eq!(n.row(1).unwrap(), &[U, U, E][..]);
    assert!(n.row(2).is_none());
    assert_eq!(n.column(1).unwrap(), vec![F, U]);
    assert_eq!(n.column(2).unwrap(), vec![U, E]);
    assert!(n.column(3).is_none());
}

#[test]
fn text_rendering() {
    let mut n = three_by_two();
    n.set(0, 0, F);
    n.set(1, 0, E);
    assert_eq!(n.as_text(), "\u{2588} ?\n???\n");
}

#[test]
fn clear_solution_resets_cells() {
    let mut n = three_by_two();
    n.set(0, 0, F);
    n.set(2, 1, E);
    n.clear_solution();
    assert_eq!(n.cells, vec![U; 6]);
    assert_eq!(n.width(), 3);
    assert_eq!(n.rows, vec![vec![1], vec![2]]);
}

#[test]
fn cell_from_bool() {
    assert_eq!(CellState::from(true), F);
    assert_eq!(CellState::from(false), E);
    let c: CellState = false.into();
    assert_eq!(c, E);
}
