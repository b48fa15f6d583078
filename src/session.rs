//! The state that the wizard keeps between steps: chosen files, keys, join
//! type, sort keys and the outcome of saving. File paths are held as text.
use vstd::prelude::*;
use crate::join::JoinType;
use crate::projection::{SortKey, SortOrder};

verus! {

/// `keys` with every copy of `key` removed.
pub open spec fn without_key(keys: Seq<Seq<char>>, key: Seq<char>) -> Seq<Seq<char>>
    decreases keys.len(),
{
    if keys.len() == 0 {
        keys
    } else if keys.last() == key {
        without_key(keys.drop_last(), key)
    } else {
        without_key(keys.drop_last(), key).push(keys.last())
    }
}

pub open spec fn names_view(v: Seq<String>) -> Seq<Seq<char>> {
    v.map_values(|s: String| s@)
}

/// Checks or unchecks `key` in a list of chosen keys: a checked key is
/// appended unless it is there already; an unchecked one is removed.
pub fn toggle_key(selected: &mut Vec<String>, key: &String, checked: bool)
    ensures
        checked && names_view(old(selected)@).contains(key@) ==> names_view(final(selected)@) == names_view(old(selected)@),
        checked && !names_view(old(selected)@).contains(key@) ==> names_view(final(selected)@) == names_view(
            old(selected)@,
        ).push(key@),
        !checked ==> names_view(final(selected)@) == without_key(names_view(old(selected)@), key@),
{
    let ghost before = names_view(selected@);
    if checked {
        let mut k: usize = 0;
        while k < selected.len()
            invariant
                checked,
                0 <= k <= selected.len(),
                before == names_view(selected@),
                forall|q: int| 0 <= q < k ==> selected@[q]@ != key@,
            decreases selected.len() - k,
        {
            if selected[k] == *key {
                assert(before[k as int] == key@);
                return;
            }
            k += 1;
        }
        assert(!before.contains(key@)) by {
            if before.contains(key@) {
                let w = choose|w: int| 0 <= w < before.len() && before[w] == key@;
                assert(selected@[w]@ == key@);
            }
        }
        selected.push(key.clone());
        assert(names_view(selected@) =~= before.push(key@));
    } else {
        let mut kept: Vec<String> = Vec::new();
        let mut k: usize = 0;
        while k < selected.len()
            invariant
                0 <= k <= selected.len(),
                before == names_view(selected@),
                names_view(kept@) == without_key(before.subrange(0, k as int), key@),
            decreases selected.len() - k,
        {
            assert(before.subrange(0, k + 1).drop_last() =~= before.subrange(0, k as int));
            if selected[k] != *key {
                kept.push(selected[k].clone());
                assert(names_view(kept@) =~= without_key(before.subrange(0, k as int), key@).push(before[k as int]));
            }
            k += 1;
        }
        assert(before.subrange(0, k as int) =~= before);
        *selected = kept;
    }
}

/// Picks the key columns of one join.
#[derive(Clone, Debug)]
pub struct KeySelector {
    pub selected_keys: Vec<String>,
    pub available_keys: Vec<String>,
}

impl KeySelector {
    pub fn new() -> (r: Self)
        ensures
            r.selected_keys@.len() == 0,
            r.available_keys@.len() == 0,
    {
        KeySelector { selected_keys: Vec::new(), available_keys: Vec::new() }
    }
}

/// Picks the key columns of a period comparison.
#[derive(Clone, Debug)]
pub struct CompareKeySelector {
    pub available_keys: Vec<String>,
    pub selected_keys: Vec<String>,
}

impl CompareKeySelector {
    pub fn new() -> (r: Self)
        ensures
            r.available_keys@.len() == 0,
            r.selected_keys@.len() == 0,
    {
        CompareKeySelector { available_keys: Vec::new(), selected_keys: Vec::new() }
    }

    /// Offers new keys and clears the choice.
    pub fn set_available_keys(&mut self, keys: Vec<String>)
        ensures
            final(self).available_keys@ == keys@,
            final(self).selected_keys@.len() == 0,
    {
        self.available_keys = keys;
        self.selected_keys = Vec::new();
    }
}

/// Picks the keys of both stages of a chained join.
#[derive(Clone, Debug)]
pub struct MultiStageKeySelector {
    pub available_keys_stage1: Vec<String>,
    pub selected_keys_stage1: Vec<String>,
    pub available_keys_stage2: Vec<String>,
    pub selected_keys_stage2: Vec<String>,
}

impl MultiStageKeySelector {
    pub fn new() -> (r: Self)
        ensures
            r.available_keys_stage1@.len() == 0,
            r.selected_keys_stage1@.len() == 0,
            r.available_keys_stage2@.len() == 0,
            r.selected_keys_stage2@.len() == 0,
    {
        MultiStageKeySelector {
            available_keys_stage1: Vec::new(),
            selected_keys_stage1: Vec::new(),
            available_keys_stage2: Vec::new(),
            selected_keys_stage2: Vec::new(),
        }
    }

    /// Offers new keys for both stages and clears both choices.
    pub fn set_available_keys(&mut self, stage1: Vec<String>, stage2: Vec<String>)
        ensures
            final(self).available_keys_stage1@ == stage1@,
            final(self).selected_keys_stage1@.len() == 0,
            final(self).available_keys_stage2@ == stage2@,
            final(self).selected_keys_stage2@.len() == 0,
    {
        self.available_keys_stage1 = stage1;
        self.selected_keys_stage1 = Vec::new();
        self.available_keys_stage2 = stage2;
        self.selected_keys_stage2 = Vec::new();
    }

    /// Both stages have keys.
    pub fn is_ready(&self) -> (r: bool)
        ensures
            r == (self.selected_keys_stage1@.len() > 0 && self.selected_keys_stage2@.len() > 0),
    {
        self.selected_keys_stage1.len() > 0 && self.selected_keys_stage2.len() > 0
    }
}

/// The join type picked, if any.
#[derive(Clone, Debug)]
pub struct JoinTypePicker {
    pub selected_join_type: Option<JoinType>,
}

impl JoinTypePicker {
    pub fn new() -> (r: Self)
        ensures
            r.selected_join_type is None,
    {
        JoinTypePicker { selected_join_type: None }
    }
}

/// The two files of a period comparison: current, then previous.
#[derive(Clone, Debug)]
pub struct CompareFileSelector {
    pub selected_files: [Option<String>; 2],
}

impl CompareFileSelector {
    pub fn new() -> (r: Self)
        ensures
            r.selected_files@[0] is None,
            r.selected_files@[1] is None,
    {
        CompareFileSelector { selected_files: [None, None] }
    }
}

/// The three files of a chained join.
#[derive(Clone, Debug)]
pub struct MultiStageFileSelector {
    pub selected_files: [Option<String>; 3],
}

impl MultiStageFileSelector {
    pub fn new() -> (r: Self)
        ensures
            r.selected_files@[0] is None,
            r.selected_files@[1] is None,
            r.selected_files@[2] is None,
    {
        MultiStageFileSelector { selected_files: [None, None, None] }
    }
}

/// The file to split.
#[derive(Clone, Debug)]
pub struct SplitFileSelector {
    pub selected_file: Option<String>,
}

impl SplitFileSelector {
    pub fn new() -> (r: Self)
        ensures
            r.selected_file is None,
    {
        SplitFileSelector { selected_file: None }
    }
}

/// Candidate columns and the chosen sort keys, in priority order.
#[derive(Clone, Debug)]
pub struct SortSettings {
    pub candidates: Vec<String>,
    pub sort_keys: Vec<SortKey>,
}

impl SortSettings {
    pub fn new(candidates: Vec<String>) -> (r: Self)
        ensures
            r.candidates@ == candidates@,
            r.sort_keys@.len() == 0,
    {
        SortSettings { candidates, sort_keys: Vec::new() }
    }

    pub open spec fn used(&self, name: Seq<char>) -> bool {
        exists|k: int| 0 <= k < self.sort_keys.len() && (#[trigger] self.sort_keys@[k]).column@ == name
    }

    /// Adds an ascending key on the first candidate that no key uses yet
    /// (an empty name when all are used), while there are fewer keys than
    /// candidates.
    pub fn add_sort_key(&mut self)
        ensures
            final(self).candidates@ == old(self).candidates@,
            old(self).sort_keys.len() >= old(self).candidates.len() ==> final(self).sort_keys@ == old(self).sort_keys@,
            old(self).sort_keys.len() < old(self).candidates.len() ==> {
                &&& final(self).sort_keys.len() == old(self).sort_keys.len() + 1
                &&& final(self).sort_keys@.subrange(0, old(self).sort_keys.len() as int) == old(self).sort_keys@
                &&& final(self).sort_keys@.last().order == SortOrder::Ascending
                &&& {
                    let name = final(self).sort_keys@.last().column@;
                    ||| exists|c: int|
                        0 <= c < old(self).candidates.len() && (#[trigger] old(self).candidates@[c])@ == name && !old(self).used(name) && forall|d: int| 0 <= d < c ==> old(self).used(#[trigger] old(self).candidates@[d]@)
                    ||| name.len() == 0 && forall|d: int|
                        0 <= d < old(self).candidates.len() ==> old(self).used(#[trigger] old(self).candidates@[d]@)
                }
            },
    {
        if self.sort_keys.len() >= self.candidates.len() {
            return;
        }
        let mut c: usize = 0;
        while c < self.candidates.len()
            invariant
                *self == *old(self),
                self.sort_keys.len() < self.candidates.len(),
                0 <= c <= self.candidates.len(),
                forall|d: int| 0 <= d < c ==> self.used(#[trigger] self.candidates@[d]@),
            decreases self.candidates.len() - c,
        {
            let mut k: usize = 0;
            let mut taken = false;
            while k < self.sort_keys.len()
                invariant
                    *self == *old(self),
                    0 <= k <= self.sort_keys.len(),
                    c < self.candidates.len(),
                    taken == exists|q: int| 0 <= q < k && (#[trigger] self.sort_keys@[q]).column@ == self.candidates@[c as int]@,
                decreases self.sort_keys.len() - k,
            {
                if self.sort_keys[k].column == self.candidates[c] {
                    taken = true;
                }
                k += 1;
            }
            if !taken {
                let name = self.candidates[c].clone();
                let ghost before = self.sort_keys@;
                self.sort_keys.push(SortKey { column: name, order: SortOrder::Ascending });
                assert(self.sort_keys@.subrange(0, before.len() as int) =~= before);
                return;
            }
            c += 1;
        }
        let ghost before = self.sort_keys@;
        self.sort_keys.push(SortKey { column: String::new(), order: SortOrder::Ascending });
        assert(self.sort_keys@.subrange(0, before.len() as int) =~= before);
    }
}

/// Why saving failed; each calls for a different remedy.
#[derive(Clone, Debug, PartialEq, Eq)]
pub enum SaveError {
    FileInUse(String),
    PermissionDenied(String),
    PathNotFound(String),
    Other(String),
}

pub open spec fn save_message(e: SaveError) -> Seq<char> {
    match e {
        SaveError::FileInUse(p) => "ファイルが使用中です: "@ + p@,
        SaveError::PermissionDenied(p) => "アクセス権限がありません: "@ + p@,
        SaveError::PathNotFound(p) => "ファイルが見つかりません: "@ + p@,
        SaveError::Other(m) => "保存エラー: "@ + m@,
    }
}

impl SaveError {
    /// The message shown to the user.
    pub fn user_friendly_message(&self) -> (r: String)
        ensures
            r@ == save_message(*self),
    {
        let mut s = String::new();
        match self {
            SaveError::FileInUse(p) => {
                s.append("ファイルが使用中です: ");
                s.append(p.as_str());
            },
            SaveError::PermissionDenied(p) => {
                s.append("アクセス権限がありません: ");
                s.append(p.as_str());
            },
            SaveError::PathNotFound(p) => {
                s.append("ファイルが見つかりません: ");
                s.append(p.as_str());
            },
            SaveError::Other(m) => {
                s.append("保存エラー: ");
                s.append(m.as_str());
            },
        }
        s
    }
}

/// Where the result is saved, the last place it was saved, and the last error.
#[derive(Clone, Debug)]
pub struct SavePanel {
    pub error: Option<SaveError>,
    pub save_path: String,
    pub last_saved_path: Option<String>,
}

impl SavePanel {
    pub fn new(save_path: String) -> (r: Self)
        ensures
            r.error is None,
            r.save_path@ == save_path@,
            r.last_saved_path is None,
    {
        SavePanel { error: None, save_path, last_saved_path: None }
    }

    pub fn set_error(&mut self, error: SaveError)
        ensures
            final(self).error == Some(error),
            final(self).save_path == old(self).save_path,
            final(self).last_saved_path == old(self).last_saved_path,
    {
        self.error = Some(error);
    }

    pub fn clear_error(&mut self)
        ensures
            final(self).error is None,
            final(self).save_path == old(self).save_path,
            final(self).last_saved_path == old(self).last_saved_path,
    {
        self.error = None;
    }
}

} // verus!
