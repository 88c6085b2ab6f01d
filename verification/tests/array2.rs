use rpeg::array2::Array2;

fn sample() -> Array2<u32> {
    // 3 columns, 2 rows:
    //   10 11 12
    //   20 21 22
    Array2::from_row_major(vec![10, 11, 12, 20, 21, 22], 3, 2)
}

#[test]
fn from_row_major_keeps_what_it_was_given() {
    let grid = sample();
    assert_eq!(grid.width, 3);
    assert_eq!(grid.height, 2);
    assert_eq!(grid.linear_array, vec![10, 11, 12, 20, 21, 22]);
    assert_eq!(grid.len(), 6);
}

#[test]
fn new_fills_the_grid() {
    let grid = Array2::new(7_u8, 4, 3);
    assert_eq!(grid.width, 4);
    assert_eq!(grid.height, 3);
    assert_eq!(grid.linear_array, vec![7_u8; 12]);
    assert_eq!(grid.len(), 12);
    let empty = Array2::new(String::from("x"), 0, 5);
    assert_eq!(empty.len(), 0);
    assert!(empty.linear_array.is_empty());
}

#[test]
fn get_value_reads_column_then_row() {
    let grid = sample();
    assert_eq!(grid.get_value((0, 0)), Some(&10));
    assert_eq!(grid.get_value((2, 0)), Some(&12));
    assert_eq!(grid.get_value((0, 1)), Some(&20));
    assert_eq!(grid.get_value((2, 1)), Some(&22));
    assert_eq!(grid.get_value((1, 1)), Some(&21));
}

#[test]
fn get_value_out_of_bounds_is_none() {
    let grid = sample();
    assert_eq!(grid.get_value((3, 0)), None);
    assert_eq!(grid.get_value((0, 2)), None);
    assert_eq!(grid.get_value((usize::MAX, usize::MAX)), None);
}

#[test]
fn get_mut_changes_one_element() {
    let mut grid = sample();
    *grid.get_mut(1, 1).unwrap() = 99;
    assert_eq!(grid.linear_array, vec![10, 11, 12, 20, 99, 22]);
    assert_eq!(grid.get_value((1, 1)), Some(&99));
    assert!(grid.get_mut(3, 1).is_none());
    assert!(grid.get_mut(1, 2).is_none());
    assert_eq!(grid.width, 3);
    assert_eq!(grid.height, 2);
}

#[test]
fn iter_row_major_goes_row_after_row() {
    let grid = sample();
    let items: Vec<(usize, usize, u32)> =
        grid.iter_row_major().into_iter().map(|(c, r, v)| (c, r, *v)).collect();
    assert_eq!(
        items,
        vec![(0, 0, 10), (1, 0, 11), (2, 0, 12), (0, 1, 20), (1, 1, 21), (2, 1, 22)]
    );
}

#[test]
fn iter_col_major_goes_column_after_column() {
    let grid = sample();
    let items: Vec<(usize, usize, u32)> =
        grid.iter_col_major().into_iter().map(|(c, r, v)| (c, r, *v)).collect();
    assert_eq!(
        items,
        vec![(0, 0, 10), (0, 1, 20), (1, 0, 11), (1, 1, 21), (2, 0, 12), (2, 1, 22)]
    );
}

#[test]
fn walks_of_an_empty_grid_are_empty() {
    let grid: Array2<u8> = Array2::from_row_major(Vec::new(), 0, 0);
    assert!(grid.iter_row_major().is_empty());
    assert!(grid.iter_col_major().is_empty());
    let no_rows: Array2<u8> = Array2::from_row_major(Vec::new(), 3, 0);
    assert!(no_rows.iter_row_major().is_empty());
    assert!(no_rows.iter_col_major().is_empty());
    assert_eq!(no_rows.get_value((0, 0)), None);
}

#[test]
fn grids_compare_and_clone() {
    let grid = sample();
    let copy = grid.clone();
    assert_eq!(grid, copy);
    let other = Array2::from_row_major(vec![10, 11, 12, 20, 21, 22], 2, 3);
    assert_ne!(grid, other);
}
