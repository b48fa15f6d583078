use magic_merge_excel::cleaner::clean_and_infer_columns;
use magic_merge_excel::difference::add_difference_columns;
use magic_merge_excel::grouping::{group_and_split, group_rows, split_rows};
use magic_merge_excel::join::{join, JoinType};
use magic_merge_excel::naming::{alternate_file_name, chunk_file_name, sanitize_filename, sanitize_sheet_name};
use magic_merge_excel::pipeline::{build_result, comparison_columns, join_stages, MergeMode, MergeRequest};
use magic_merge_excel::projection::{project, SortKey, SortOrder};
use magic_merge_excel::table::{Column, ColumnType, PipelineError, Table};

fn s(v: &str) -> String {
    v.to_string()
}

fn strings(v: &[&str]) -> Vec<String> {
    v.iter().map(|x| x.to_string()).collect()
}

fn table(header: &[&str], columns: &[&[&str]]) -> Table {
    let cols: Vec<Vec<String>> = columns.iter().map(|c| strings(c)).collect();
    clean_and_infer_columns(&strings(header), &cols)
}

fn column<'a>(t: &'a Table, name: &str) -> &'a [Option<String>] {
    let c = t.columns.iter().find(|c| c.name == name).expect("column");
    &c.values
}

fn cell(v: &str) -> Option<String> {
    Some(v.to_string())
}

fn amounts_a() -> Table {
    table(&["id", "amt"], &[&["1", "2"], &["100", "200"]])
}

fn amounts_b() -> Table {
    table(&["id", "amt"], &[&["1", "3"], &["90", "50"]])
}

#[test]
fn cleaner_pads_ragged_columns_to_the_longest() {
    let t = table(&["name", "qty"], &[&["a", "b", "c"], &["1"]]);
    assert_eq!(t.height, 3);
    assert_eq!(column(&t, "qty"), &[cell("1"), None, None]);
}

#[test]
fn cleaner_keeps_identifier_columns_as_trimmed_text() {
    let t = table(&["Customer Code", "amount"], &[&[" \"007\" ", "A12", "N/A"], &["5", "x", "7"]]);
    assert_eq!(t.columns[0].kind, ColumnType::Text);
    assert_eq!(column(&t, "Customer Code"), &[cell("007"), cell("A12"), None]);
}

#[test]
fn cleaner_prefers_integer_then_decimal_then_text() {
    let t = table(&["a", "b", "c", "d"], &[&["1", "2.5", "x"], &["2.5", "3.0", ""], &["x", "y", "N/A"], &["1", "2.5", ""]]);
    assert_eq!(t.columns[0].kind, ColumnType::Text);
    assert_eq!(column(&t, "a"), &[cell("1"), cell("2.5"), cell("x")]);
    assert_eq!(t.columns[3].kind, ColumnType::Integer);
    assert_eq!(column(&t, "d"), &[cell("1"), None, None]);
    assert_eq!(t.columns[1].kind, ColumnType::Float);
    assert_eq!(column(&t, "b"), &[cell("2.5"), cell("3.0"), None]);
    assert_eq!(t.columns[2].kind, ColumnType::Text);
    assert_eq!(column(&t, "c"), &[cell("x"), cell("y"), None]);
}

#[test]
fn cleaner_ignores_columns_beyond_the_header() {
    let t = table(&["only"], &[&["1"], &["9", "9", "9"]]);
    assert_eq!(t.columns.len(), 1);
    assert_eq!(t.height, 1);
}

#[test]
fn full_outer_join_example() {
    let j = join(&amounts_a(), &amounts_b(), &strings(&["id"]), JoinType::FullOuter).unwrap();
    assert_eq!(j.height, 3);
    let names: Vec<&str> = j.columns.iter().map(|c| c.name.as_str()).collect();
    assert_eq!(names, vec!["id", "amt", "amt_right"]);
    assert_eq!(column(&j, "id"), &[cell("1"), cell("2"), cell("3")]);
    assert_eq!(column(&j, "amt"), &[cell("100"), cell("200"), None]);
    assert_eq!(column(&j, "amt_right"), &[cell("90"), None, cell("50")]);
    let d = add_difference_columns(&j);
    assert_eq!(column(&d, "差額_amtvsamt"), &[cell("10"), cell("200"), cell("-50")]);
    assert_eq!(d.columns[3].kind, ColumnType::Float);
}

#[test]
fn left_join_keeps_every_left_row_once() {
    let a = table(&["k", "v"], &[&["1", "1", "2"], &["a", "b", "c"]]);
    let b = table(&["k", "w"], &[&["1", "1"], &["x", "y"]]);
    let j = join(&a, &b, &strings(&["k"]), JoinType::Left).unwrap();
    assert_eq!(j.height, a.height);
    assert_eq!(column(&j, "w"), &[cell("x"), cell("x"), None]);
}

#[test]
fn inner_join_keeps_matching_left_rows() {
    let j = join(&amounts_a(), &amounts_b(), &strings(&["id"]), JoinType::Inner).unwrap();
    assert_eq!(j.height, 1);
    assert_eq!(column(&j, "id"), &[cell("1")]);
    assert_eq!(column(&j, "amt_right"), &[cell("90")]);
}

#[test]
fn right_join_is_left_join_with_sides_exchanged() {
    let j = join(&amounts_a(), &amounts_b(), &strings(&["id"]), JoinType::Right).unwrap();
    assert_eq!(j.height, 2);
    assert_eq!(column(&j, "id"), &[cell("1"), cell("3")]);
    assert_eq!(column(&j, "amt"), &[cell("90"), cell("50")]);
    assert_eq!(column(&j, "amt_right"), &[cell("100"), None]);
}

#[test]
fn full_outer_is_at_least_both_left_joins() {
    let a = amounts_a();
    let b = amounts_b();
    let keys = strings(&["id"]);
    let full = join(&a, &b, &keys, JoinType::FullOuter).unwrap();
    let left = join(&a, &b, &keys, JoinType::Left).unwrap();
    let right = join(&b, &a, &keys, JoinType::Left).unwrap();
    assert!(full.height >= left.height);
    assert!(full.height >= right.height);
}

#[test]
fn concat_stacks_rows_and_ignores_keys() {
    let a = table(&["x", "y"], &[&["1"], &["2"]]);
    let b = table(&["y", "z"], &[&["3", "4"], &["5", "6"]]);
    let j = join(&a, &b, &strings(&["missing"]), JoinType::Concat).unwrap();
    assert_eq!(j.height, 3);
    assert_eq!(column(&j, "x"), &[cell("1"), None, None]);
    assert_eq!(column(&j, "y"), &[cell("2"), cell("3"), cell("4")]);
    assert_eq!(column(&j, "z"), &[None, cell("5"), cell("6")]);
}

#[test]
fn join_reports_a_missing_key() {
    let r = join(&amounts_a(), &amounts_b(), &strings(&["nope"]), JoinType::Left);
    assert_eq!(r.err(), Some(PipelineError::KeyNotFound(s("nope"))));
}

#[test]
fn null_keys_match_nothing() {
    let a = table(&["k", "v"], &[&[""], &["1"]]);
    let b = table(&["k", "w"], &[&[""], &["2"]]);
    let j = join(&a, &b, &strings(&["k"]), JoinType::Inner).unwrap();
    assert_eq!(j.height, 0);
}

#[test]
fn two_stage_join_is_two_left_joins() {
    let a = table(&["k", "a"], &[&["1", "2"], &["x", "y"]]);
    let b = table(&["k", "m"], &[&["1", "2"], &["p", "q"]]);
    let c = table(&["m", "c"], &[&["q"], &["z"]]);
    let t = join_stages(&a, &b, &c, &strings(&["k"]), &strings(&["m"])).unwrap();
    assert_eq!(t.height, 2);
    assert_eq!(column(&t, "c"), &[None, cell("z")]);
}

#[test]
fn difference_reads_separators_decimals_and_nulls() {
    let text = |name: &str, v: Vec<Option<String>>| Column { name: s(name), kind: ColumnType::Text, values: v };
    let t = Table {
        columns: vec![
            text("price", vec![cell("\"1,000\""), cell("100.5"), None]),
            text("price_right", vec![cell("250"), cell(" 90 "), cell("3")]),
        ],
        height: 3,
    };
    let d = add_difference_columns(&t);
    assert_eq!(column(&d, "差額_pricevsprice"), &[cell("750"), cell("10.5"), cell("-3")]);
}

#[test]
fn difference_columns_twice_equal_once() {
    let j = join(&amounts_a(), &amounts_b(), &strings(&["id"]), JoinType::FullOuter).unwrap();
    let once = add_difference_columns(&j);
    let twice = add_difference_columns(&once);
    assert_eq!(once.columns.len(), 4);
    assert_eq!(twice.columns.len(), once.columns.len());
    for (x, y) in once.columns.iter().zip(twice.columns.iter()) {
        assert_eq!(x.name, y.name);
        assert_eq!(x.values, y.values);
    }
}

#[test]
fn text_columns_without_partner_get_no_difference() {
    let t = table(&["note", "note_right"], &[&["a", "b"], &["c", "d"]]);
    let d = add_difference_columns(&t);
    assert_eq!(d.columns.len(), 2);
}

#[test]
fn split_example_by_region() {
    let mut region: Vec<&str> = vec!["East"; 1500];
    region.extend(vec!["West"; 1000]);
    let t = table(&["region"], &[&region]);
    let parts = group_and_split(&t, &strings(&["region"]), 1000).unwrap();
    assert_eq!(parts.len(), 2);
    assert_eq!(parts[0].key, "East");
    let east: Vec<usize> = parts[0].chunks.iter().map(|c| c.len()).collect();
    assert_eq!(east, vec![1000, 500]);
    assert_eq!(parts[1].key, "West");
    let west: Vec<usize> = parts[1].chunks.iter().map(|c| c.len()).collect();
    assert_eq!(west, vec![1000]);
    assert_eq!(chunk_file_name(&parts[0].key, 2), "East_2.xlsx");
}

#[test]
fn grouping_joins_key_values_with_underscores() {
    let t = table(&["a", "b"], &[&["x", "x", "y"], &["1", "1", "1"]]);
    let groups = group_rows(&t, &strings(&["a", "b"])).unwrap();
    assert_eq!(groups.len(), 2);
    assert_eq!(groups[0].key, "x_1");
    assert_eq!(groups[0].rows, vec![0, 1]);
    assert_eq!(groups[1].key, "y_1");
    assert_eq!(groups[1].rows, vec![2]);
}

#[test]
fn grouping_reports_a_missing_key() {
    let t = table(&["a"], &[&["x"]]);
    assert_eq!(group_rows(&t, &strings(&["a", "b"])).err(), Some(PipelineError::KeyNotFound(s("b"))));
}

#[test]
fn chunks_cover_the_rows_in_order() {
    let rows: Vec<usize> = (0..7).collect();
    let chunks = split_rows(&rows, 3);
    assert_eq!(chunks, vec![vec![0, 1, 2], vec![3, 4, 5], vec![6]]);
    assert_eq!(split_rows(&Vec::new(), 3), Vec::<Vec<usize>>::new());
}

#[test]
fn file_names_lose_forbidden_characters() {
    assert_eq!(sanitize_filename(&s("__a<b>:c__")), "a_b_c");
    assert_eq!(sanitize_filename(&s("x/y")), "x_y");
    assert_eq!(sanitize_filename(&s("???")), "");
}

#[test]
fn sheet_names_are_cut_to_31_characters() {
    assert_eq!(sanitize_sheet_name(&s("a:b\"c")), "a_bc");
    let long = "x".repeat(40);
    assert_eq!(sanitize_sheet_name(&long).chars().count(), 31);
}

#[test]
fn alternate_name_goes_before_the_extension() {
    assert_eq!(alternate_file_name(&s("out.xlsx"), &s("0101")), "out_0101.xlsx");
    assert_eq!(alternate_file_name(&s("out"), &s("0101")), "out_0101");
}

#[test]
fn projection_selects_and_orders_columns() {
    let t = table(&["a", "b", "c"], &[&["1", "2"], &["x", "y"], &["p", "q"]]);
    let out = project(&t, &strings(&["c", "a", "c"]), &Vec::new(), false, false).unwrap();
    assert_eq!(out.columns, strings(&["c", "a"]));
    assert_eq!(out.rows, vec![strings(&["p", "1"]), strings(&["q", "2"])]);
}

#[test]
fn projection_without_selection_shows_all_columns() {
    let t = table(&["a", "b"], &[&["1"], &["2"]]);
    let out = project(&t, &Vec::new(), &Vec::new(), false, false).unwrap();
    assert_eq!(out.columns, strings(&["a", "b"]));
}

#[test]
fn projection_drops_missing_columns_and_reports_missing_sort_keys() {
    let t = table(&["a", "b"], &[&["1"], &["2"]]);
    let out = project(&t, &strings(&["zz", "b"]), &Vec::new(), false, false).unwrap();
    assert_eq!(out.columns, strings(&["b"]));
    let out = project(&t, &strings(&["zz"]), &Vec::new(), false, false).unwrap();
    assert_eq!(out.columns, strings(&["a", "b"]));
    let key = SortKey { column: s("nope"), order: SortOrder::Ascending };
    let r = project(&t, &Vec::new(), &vec![key], false, false);
    assert_eq!(r.err(), Some(PipelineError::ColumnNotFound(s("nope"))));
}

#[test]
fn loose_selection_finds_renamed_columns() {
    let t = table(&["金額_right"], &[&["1"]]);
    let exact = project(&t, &strings(&["金額", "x"]), &Vec::new(), false, false).unwrap();
    assert_eq!(exact.columns, strings(&["金額_right"]));
    assert_eq!(project(&t, &strings(&["金額"]), &Vec::new(), false, false).unwrap().rows, vec![strings(&["1"])]);
    let out = project(&t, &strings(&["金額"]), &Vec::new(), true, false).unwrap();
    assert_eq!(out.columns, strings(&["金額_right"]));
}

#[test]
fn sorting_is_numeric_when_every_value_is_a_number() {
    let t = table(&["n", "tag"], &[&["10", "9", "100"], &["a", "b", "c"]]);
    let key = SortKey { column: s("n"), order: SortOrder::Ascending };
    let out = project(&t, &strings(&["n"]), &vec![key], false, false).unwrap();
    assert_eq!(out.rows, vec![strings(&["9"]), strings(&["10"]), strings(&["100"])]);
    let key = SortKey { column: s("tag"), order: SortOrder::Descending };
    let out = project(&t, &strings(&["tag"]), &vec![key], false, false).unwrap();
    assert_eq!(out.rows, vec![strings(&["c"]), strings(&["b"]), strings(&["a"])]);
}

#[test]
fn sorting_is_stable_and_uses_later_keys_for_ties() {
    let t = table(&["g", "v", "w"], &[&["b", "a", "b", "a"], &["1", "2", "3", "4"], &["x", "x", "y", "x"]]);
    let key = SortKey { column: s("g"), order: SortOrder::Ascending };
    let out = project(&t, &strings(&["v"]), &vec![key], false, false).unwrap();
    assert_eq!(out.rows, vec![strings(&["2"]), strings(&["4"]), strings(&["1"]), strings(&["3"])]);
    let keys = vec![
        SortKey { column: s("w"), order: SortOrder::Ascending },
        SortKey { column: s("v"), order: SortOrder::Descending },
    ];
    let out = project(&t, &strings(&["v"]), &keys, false, false).unwrap();
    assert_eq!(out.rows, vec![strings(&["4"]), strings(&["2"]), strings(&["1"]), strings(&["3"])]);
}

#[test]
fn nulls_show_as_zero_only_in_comparison_output() {
    let t = table(&["n", "t"], &[&["1", ""], &["a", ""]]);
    let plain = project(&t, &Vec::new(), &Vec::new(), false, false).unwrap();
    assert_eq!(plain.rows[1], strings(&["", ""]));
    let zero = project(&t, &Vec::new(), &Vec::new(), false, true).unwrap();
    assert_eq!(zero.rows[1], strings(&["0", ""]));
}

#[test]
fn saved_text_round_trips_through_the_cleaner() {
    let t = table(&["id", "name"], &[&["01", "02"], &["a", "b"]]);
    let out = project(&t, &Vec::new(), &Vec::new(), false, false).unwrap();
    let cols: Vec<Vec<String>> = (0..out.columns.len()).map(|c| out.rows.iter().map(|r| r[c].clone()).collect()).collect();
    let again = clean_and_infer_columns(&out.columns, &cols);
    let back = project(&again, &Vec::new(), &Vec::new(), false, false).unwrap();
    assert_eq!(back.columns, out.columns);
    assert_eq!(back.rows, out.rows);
}

#[test]
fn period_comparison_result() {
    let req = MergeRequest {
        mode: MergeMode::ZennenTaihi,
        join_type: JoinType::Left,
        keys: strings(&["id"]),
        stage2_keys: Vec::new(),
        selected_columns: strings(&["id", "amt"]),
        sort_keys: Vec::new(),
    };
    let out = build_result(&vec![amounts_a(), amounts_b()], &req).unwrap();
    assert_eq!(out.columns, strings(&["id", "amt", "amt_right", "差額_amtvsamt"]));
    assert_eq!(out.rows[0], strings(&["1", "100", "90", "10"]));
    assert_eq!(out.rows[1], strings(&["2", "200", "0", "200"]));
    assert_eq!(out.rows[2], strings(&["3", "0", "50", "-50"]));
}

#[test]
fn comparison_columns_pick_current_previous_and_difference() {
    let j = join(&amounts_a(), &amounts_b(), &strings(&["id"]), JoinType::FullOuter).unwrap();
    let d = add_difference_columns(&j);
    assert_eq!(comparison_columns(&d, &strings(&["amt", "zz"])), strings(&["amt", "amt_right", "差額_amtvsamt"]));
}

#[test]
fn plain_merge_uses_the_picked_join() {
    let req = MergeRequest {
        mode: MergeMode::Plain,
        join_type: JoinType::Inner,
        keys: strings(&["id"]),
        stage2_keys: Vec::new(),
        selected_columns: strings(&["amt"]),
        sort_keys: Vec::new(),
    };
    let out = build_result(&vec![amounts_a(), amounts_b()], &req).unwrap();
    assert_eq!(out.rows, vec![strings(&["100"])]);
}

#[test]
fn merge_reports_a_key_missing_from_the_second_file() {
    let b = table(&["code", "amt"], &[&["1"], &["5"]]);
    let req = MergeRequest {
        mode: MergeMode::ZennenTaihi,
        join_type: JoinType::Left,
        keys: strings(&["id"]),
        stage2_keys: Vec::new(),
        selected_columns: strings(&["amt"]),
        sort_keys: Vec::new(),
    };
    let r = build_result(&vec![amounts_a(), b], &req);
    assert_eq!(r.err(), Some(PipelineError::KeyNotFound(s("id"))));
}

#[test]
fn chained_merge_reads_three_files() {
    let a = table(&["k", "a"], &[&["1", "2"], &["x", "y"]]);
    let b = table(&["k", "m"], &[&["1", "2"], &["p", "q"]]);
    let c = table(&["m", "c"], &[&["q"], &["z"]]);
    let req = MergeRequest {
        mode: MergeMode::MultiStageJoin,
        join_type: JoinType::Inner,
        keys: strings(&["k"]),
        stage2_keys: strings(&["m"]),
        selected_columns: strings(&["k", "c"]),
        sort_keys: vec![SortKey { column: s("k"), order: SortOrder::Descending }],
    };
    let out = build_result(&vec![a, b, c], &req).unwrap();
    assert_eq!(out.rows, vec![strings(&["2", "z"]), strings(&["1", ""])]);
}

#[test]
fn one_text_cell_makes_the_column_text() {
    let t = table(&["v"], &[&["1", "x"]]);
    assert_eq!(t.columns[0].kind, ColumnType::Text);
    assert_eq!(column(&t, "v"), &[cell("1"), cell("x")]);
}

#[test]
fn exponent_forms_are_numbers() {
    let t = table(&["v"], &[&["1e5", "2.5E-3", "7"]]);
    assert_eq!(t.columns[0].kind, ColumnType::Integer);
    assert_eq!(column(&t, "v"), &[None, None, cell("7")]);
    let t = table(&["v"], &[&["1e5", "2.5E-3", "-.5", "1e"]]);
    assert_eq!(t.columns[0].kind, ColumnType::Text);
    let t = table(&["v"], &[&["1e5", "2.5E-3", "-.5"]]);
    assert_eq!(t.columns[0].kind, ColumnType::Float);
    assert_eq!(column(&t, "v"), &[cell("1e5"), cell("2.5E-3"), cell("-.5")]);
}

#[test]
fn full_outer_join_keeps_right_rows_with_a_shared_key() {
    let a = table(&["id", "x"], &[&["1"], &["a"]]);
    let b = table(&["id", "y"], &[&["1", "1"], &["p", "q"]]);
    let keys = strings(&["id"]);
    let full = join(&a, &b, &keys, JoinType::FullOuter).unwrap();
    let swapped = join(&b, &a, &keys, JoinType::Left).unwrap();
    assert_eq!(full.height, 2);
    assert!(full.height >= swapped.height);
    assert_eq!(column(&full, "id"), &[cell("1"), cell("1")]);
    assert_eq!(column(&full, "x"), &[cell("a"), cell("a")]);
    assert_eq!(column(&full, "y"), &[cell("p"), cell("q")]);
    let c = table(&["id", "y"], &[&["2"], &["r"]]);
    let full = join(&a, &c, &keys, JoinType::FullOuter).unwrap();
    assert_eq!(column(&full, "id"), &[cell("1"), cell("2")]);
    assert_eq!(column(&full, "x"), &[cell("a"), None]);
}

#[test]
fn mixed_columns_compare_numbers_as_numbers() {
    let t = table(&["n"], &[&["10", "9", "abc"]]);
    let key = SortKey { column: s("n"), order: SortOrder::Ascending };
    let out = project(&t, &Vec::new(), &vec![key], false, false).unwrap();
    assert_eq!(out.rows, vec![strings(&["9"]), strings(&["10"]), strings(&["abc"])]);
}

#[test]
fn amount_named_text_columns_get_no_difference() {
    let t = table(&["amount", "amount_right"], &[&["x", "y", "z"], &["1", "2", "3"]]);
    let d = add_difference_columns(&t);
    assert_eq!(d.columns.len(), 2);
}

#[test]
fn renamed_right_columns_never_repeat_a_name() {
    let a = table(&["id", "v", "v_right"], &[&["1"], &["a"], &["b"]]);
    let b = table(&["id", "v", "v_right"], &[&["1"], &["c"], &["d"]]);
    let j = join(&a, &b, &strings(&["id"]), JoinType::Left).unwrap();
    let names: Vec<&str> = j.columns.iter().map(|c| c.name.as_str()).collect();
    assert_eq!(names, vec!["id", "v", "v_right", "v_right_right", "v_right_right_right"]);
    assert_eq!(column(&j, "v_right_right"), &[cell("c")]);
    assert_eq!(column(&j, "v_right_right_right"), &[cell("d")]);
}
