use magic_merge_excel::preview::{PreviewTable, SortDirection};

fn strings(v: &[&str]) -> Vec<String> {
    v.iter().map(|x| x.to_string()).collect()
}

fn preview() -> PreviewTable {
    let mut p = PreviewTable::new();
    p.set_preview_data_with_columns(
        strings(&["name", "qty"]),
        vec![strings(&["b", "10"]), strings(&["a", "9"]), strings(&["c", "10"])],
    );
    p
}

#[test]
fn first_data_sets_columns_and_clears_sorts() {
    let p = preview();
    assert_eq!(p.columns, strings(&["name", "qty"]));
    assert_eq!(p.column_sorts.len(), 2);
    assert!(!p.is_sorted());
    assert!(p.has_sorted_data());
}

#[test]
fn sorting_by_a_column_reorders_the_rows() {
    let mut p = preview();
    p.set_column_sort(1, SortDirection::Ascending);
    assert_eq!(p.column_sorts[1].priority, Some(1));
    let (_, rows) = p.get_sorted_data();
    assert_eq!(rows, vec![strings(&["a", "9"]), strings(&["b", "10"]), strings(&["c", "10"])]);
    p.set_column_sort(0, SortDirection::Descending);
    assert_eq!(p.column_sorts[0].priority, Some(2));
    let (_, rows) = p.get_sorted_data();
    assert_eq!(rows, vec![strings(&["a", "9"]), strings(&["c", "10"]), strings(&["b", "10"])]);
    assert!(p.is_sorted());
}

#[test]
fn clearing_a_sort_moves_later_priorities_down() {
    let mut p = preview();
    p.set_column_sort(1, SortDirection::Ascending);
    p.set_column_sort(0, SortDirection::Ascending);
    p.set_column_sort(1, SortDirection::Unsorted);
    assert_eq!(p.column_sorts[1].priority, None);
    assert_eq!(p.column_sorts[0].priority, Some(1));
}

#[test]
fn moving_columns_swaps_names_and_cells() {
    let mut p = preview();
    p.move_column_left(1);
    assert_eq!(p.columns, strings(&["qty", "name"]));
    assert_eq!(p.preview_data[0], strings(&["10", "b"]));
    p.move_column_right(0);
    assert_eq!(p.columns, strings(&["name", "qty"]));
    p.move_column_left(0);
    p.move_column_right(1);
    assert_eq!(p.columns, strings(&["name", "qty"]));
}

#[test]
fn new_data_keeps_the_current_column_order() {
    let mut p = preview();
    p.move_column_left(1);
    p.set_preview_data_with_columns(strings(&["name", "qty"]), vec![strings(&["z", "1"])]);
    assert_eq!(p.columns, strings(&["qty", "name"]));
    assert_eq!(p.preview_data, vec![strings(&["1", "z"])]);
}

#[test]
fn moving_columns_carries_their_sort_settings() {
    let mut p = preview();
    p.set_column_sort(1, SortDirection::Descending);
    p.move_column_left(1);
    assert_eq!(p.column_sorts[0].direction, SortDirection::Descending);
    assert_eq!(p.column_sorts[1].direction, SortDirection::Unsorted);
    p.move_column_right(0);
    assert_eq!(p.column_sorts[1].direction, SortDirection::Descending);
    let mut empty = PreviewTable::new();
    empty.move_column_right(0);
    empty.move_column_left(0);
    assert!(empty.columns.is_empty());
}

#[test]
fn preview_sort_compares_pairs_and_ties_short_rows() {
    let mut p = PreviewTable::new();
    p.set_preview_data_with_columns(strings(&["n"]), vec![strings(&["10"]), strings(&["9"]), strings(&["abc"])]);
    p.set_column_sort(0, SortDirection::Ascending);
    assert_eq!(p.preview_data, vec![strings(&["9"]), strings(&["10"]), strings(&["abc"])]);
    let mut q = PreviewTable::new();
    q.set_preview_data_with_columns(strings(&["a", "b"]), vec![strings(&["x", "2"]), strings(&["y"]), strings(&["z", "1"])]);
    q.set_column_sort(1, SortDirection::Ascending);
    assert_eq!(q.preview_data, vec![strings(&["x", "2"]), strings(&["y"]), strings(&["z", "1"])]);
    let mut r = PreviewTable::new();
    r.set_preview_data_with_columns(strings(&["a", "b"]), vec![strings(&["x", "2"]), strings(&["z", "1"]), strings(&["y"])]);
    r.set_column_sort(1, SortDirection::Ascending);
    assert_eq!(r.preview_data, vec![strings(&["z", "1"]), strings(&["x", "2"]), strings(&["y"])]);
}
