use magic_merge_excel::join::JoinType;
use magic_merge_excel::projection::SortOrder;
use magic_merge_excel::session::{
    toggle_key, CompareFileSelector, CompareKeySelector, JoinTypePicker, KeySelector, MultiStageFileSelector,
    MultiStageKeySelector, SaveError, SavePanel, SortSettings, SplitFileSelector,
};

fn strings(v: &[&str]) -> Vec<String> {
    v.iter().map(|x| x.to_string()).collect()
}

#[test]
fn toggling_keys_adds_once_and_removes_all() {
    let mut keys = strings(&["a"]);
    toggle_key(&mut keys, &"b".to_string(), true);
    toggle_key(&mut keys, &"b".to_string(), true);
    assert_eq!(keys, strings(&["a", "b"]));
    toggle_key(&mut keys, &"a".to_string(), false);
    assert_eq!(keys, strings(&["b"]));
}

#[test]
fn selectors_start_empty() {
    assert!(KeySelector::new().selected_keys.is_empty());
    assert!(CompareKeySelector::new().available_keys.is_empty());
    assert!(JoinTypePicker::new().selected_join_type.is_none());
    assert!(CompareFileSelector::new().selected_files.iter().all(|f| f.is_none()));
    assert!(MultiStageFileSelector::new().selected_files.iter().all(|f| f.is_none()));
    assert!(SplitFileSelector::new().selected_file.is_none());
    let mut p = JoinTypePicker::new();
    p.selected_join_type = Some(JoinType::Inner);
    assert_eq!(p.selected_join_type, Some(JoinType::Inner));
}

#[test]
fn new_available_keys_clear_the_choice() {
    let mut c = CompareKeySelector::new();
    c.selected_keys = strings(&["x"]);
    c.set_available_keys(strings(&["a", "b"]));
    assert_eq!(c.available_keys, strings(&["a", "b"]));
    assert!(c.selected_keys.is_empty());
    let mut m = MultiStageKeySelector::new();
    m.selected_keys_stage1 = strings(&["x"]);
    m.set_available_keys(strings(&["a"]), strings(&["b"]));
    assert!(m.selected_keys_stage1.is_empty());
    assert_eq!(m.available_keys_stage2, strings(&["b"]));
    assert!(!m.is_ready());
}

#[test]
fn sort_keys_take_the_next_unused_candidate() {
    let mut s = SortSettings::new(strings(&["a", "b"]));
    s.add_sort_key();
    s.add_sort_key();
    s.add_sort_key();
    let cols: Vec<&str> = s.sort_keys.iter().map(|k| k.column.as_str()).collect();
    assert_eq!(cols, vec!["a", "b"]);
    assert!(s.sort_keys.iter().all(|k| k.order == SortOrder::Ascending));
}

#[test]
fn save_errors_read_as_messages() {
    assert_eq!(SaveError::FileInUse("x.xlsx".to_string()).user_friendly_message(), "ファイルが使用中です: x.xlsx");
    assert_eq!(SaveError::PermissionDenied("p".to_string()).user_friendly_message(), "アクセス権限がありません: p");
    assert_eq!(SaveError::PathNotFound("q".to_string()).user_friendly_message(), "ファイルが見つかりません: q");
    assert_eq!(SaveError::Other("boom".to_string()).user_friendly_message(), "保存エラー: boom");
}

#[test]
fn save_panel_keeps_and_clears_its_error() {
    let mut p = SavePanel::new("merged_output.xlsx".to_string());
    p.set_error(SaveError::Other("e".to_string()));
    assert_eq!(p.error, Some(SaveError::Other("e".to_string())));
    p.clear_error();
    assert!(p.error.is_none());
    assert_eq!(p.save_path, "merged_output.xlsx");
}
