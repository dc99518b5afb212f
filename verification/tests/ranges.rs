use ndarray::Array1;
use process_hits::error::QueryError;
use process_hits::offsets::row_range;

#[test]
fn three_queries_over_five_rows() {
    let offsets = Array1::from_vec(vec![0i64, 2, 5]);
    assert_eq!(row_range(&offsets, 5, 0), Ok((0, 2)));
    assert_eq!(row_range(&offsets, 5, 1), Ok((2, 5)));
    assert_eq!(row_range(&offsets, 5, 2), Ok((5, 5)));
}

#[test]
fn last_query_extends_to_the_last_row() {
    let offsets = Array1::from_vec(vec![0i64, 2]);
    assert_eq!(row_range(&offsets, 5, 0), Ok((0, 2)));
    assert_eq!(row_range(&offsets, 5, 1), Ok((2, 5)));
    let single = Array1::from_vec(vec![0i64]);
    assert_eq!(row_range(&single, 7, 0), Ok((0, 7)));
}

#[test]
fn only_the_last_entry_is_extended() {
    let offsets = Array1::from_vec(vec![0i64, 2, 3]);
    assert_eq!(row_range(&offsets, 10, 1), Ok((2, 3)));
    assert_eq!(row_range(&offsets, 10, 2), Ok((3, 10)));
}

#[test]
fn equal_offsets_give_an_empty_query() {
    let offsets = Array1::from_vec(vec![0i64, 3, 3, 4]);
    assert_eq!(row_range(&offsets, 6, 1), Ok((3, 3)));
    assert_eq!(row_range(&offsets, 6, 2), Ok((3, 4)));
}

#[test]
fn first_offset_need_not_be_zero() {
    let offsets = Array1::from_vec(vec![1i64, 4]);
    assert_eq!(row_range(&offsets, 6, 0), Ok((1, 4)));
}

#[test]
fn range_past_the_last_row_is_refused() {
    let offsets = Array1::from_vec(vec![0i64, 6]);
    assert_eq!(row_range(&offsets, 5, 0), Err(QueryError::RowRange));
    assert_eq!(row_range(&offsets, 5, 1), Err(QueryError::RowRange));
    assert_eq!(row_range(&offsets, 6, 0), Ok((0, 6)));
    assert_eq!(row_range(&offsets, 6, 1), Ok((6, 6)));
}

#[test]
fn negative_offset_is_refused() {
    let offsets = Array1::from_vec(vec![-1i64, 2]);
    assert_eq!(row_range(&offsets, 5, 0), Err(QueryError::RowRange));
    let offsets = Array1::from_vec(vec![0i64, -2]);
    assert_eq!(row_range(&offsets, 5, 0), Err(QueryError::RowRange));
    assert_eq!(row_range(&offsets, 5, 1), Err(QueryError::RowRange));
}

#[test]
fn decreasing_offsets_are_refused_for_the_query_they_end() {
    let offsets = Array1::from_vec(vec![0i64, 3, 1]);
    assert_eq!(row_range(&offsets, 5, 0), Ok((0, 3)));
    assert_eq!(row_range(&offsets, 5, 1), Err(QueryError::RowRange));
    assert_eq!(row_range(&offsets, 5, 2), Ok((1, 5)));
}

#[test]
fn no_rows_at_all() {
    let offsets = Array1::from_vec(vec![0i64, 0]);
    assert_eq!(row_range(&offsets, 0, 0), Ok((0, 0)));
    assert_eq!(row_range(&offsets, 0, 1), Ok((0, 0)));
}
