//! The preview of a result: its rows can be re-sorted by up to five
//! prioritised columns and its columns moved, and it is what gets saved.
use vstd::prelude::*;
use crate::projection::{is_sorted_by, sort_order, SortPlan};
use crate::session::names_view;
use crate::table::{cell_view, first_index, lemma_first_index_found, Column, ColumnType, Table};

verus! {

/// How one preview column is sorted.
#[derive(Clone, Copy, Debug, PartialEq, Eq, Structural)]
pub enum SortDirection {
    Unsorted,
    Ascending,
    Descending,
}

/// The sort of one column and its priority (1 to 5) among the sorted ones.
#[derive(Clone, Copy, Debug, PartialEq, Eq, Structural)]
pub struct ColumnSort {
    pub direction: SortDirection,
    pub priority: Option<usize>,
}

/// Rows of text under named columns, with a sort setting per column.
#[derive(Clone, Debug)]
pub struct PreviewTable {
    pub preview_data: Vec<Vec<String>>,
    pub columns: Vec<String>,
    pub page: usize,
    pub initialized: bool,
    pub column_sorts: Vec<ColumnSort>,
    pub last_render_frame: u64,
}

pub open spec fn unsorted(n: nat) -> Seq<ColumnSort> {
    Seq::new(n, |i: int| ColumnSort { direction: SortDirection::Unsorted, priority: None })
}

/// Whether some column has priority `p`.
pub open spec fn priority_used(sorts: Seq<ColumnSort>, p: usize) -> bool {
    exists|i: int| 0 <= i < sorts.len() && (#[trigger] sorts[i]).priority == Some(p)
}

/// The smallest priority from 1 to 5 that no column has.
pub open spec fn next_priority(sorts: Seq<ColumnSort>) -> Option<usize> {
    if !priority_used(sorts, 1) {
        Some(1)
    } else if !priority_used(sorts, 2) {
        Some(2)
    } else if !priority_used(sorts, 3) {
        Some(3)
    } else if !priority_used(sorts, 4) {
        Some(4)
    } else if !priority_used(sorts, 5) {
        Some(5)
    } else {
        None
    }
}

pub open spec fn compacted(sorts: Seq<ColumnSort>, removed: usize) -> Seq<ColumnSort> {
    Seq::new(
        sorts.len(),
        |i: int|
            match sorts[i].priority {
                Some(p) => if p > removed {
                    ColumnSort { direction: sorts[i].direction, priority: Some((p - 1) as usize) }
                } else {
                    sorts[i]
                },
                None => sorts[i],
            },
    )
}

/// The column with priority `p`, the first if several have it.
pub open spec fn column_with_priority(sorts: Seq<ColumnSort>, p: usize, n: int) -> Option<int>
    decreases n,
{
    if n <= 0 {
        None
    } else {
        match column_with_priority(sorts, p, n - 1) {
            Some(i) => Some(i),
            None => if sorts[n - 1].priority == Some(p) {
                Some(n - 1)
            } else {
                None
            },
        }
    }
}

/// The sort keys, by priority from 1 up to `p`: each a column and whether it
/// sorts descending.
pub open spec fn priority_keys(sorts: Seq<ColumnSort>, p: int) -> Seq<(usize, bool)>
    decreases p,
{
    if p <= 0 {
        Seq::empty()
    } else {
        let s = priority_keys(sorts, p - 1);
        match column_with_priority(sorts, p as usize, sorts.len() as int) {
            Some(i) => s.push((i as usize, sorts[i].direction == SortDirection::Descending)),
            None => s,
        }
    }
}

pub open spec fn key_cols(keys: Seq<(usize, bool)>) -> Seq<usize> {
    keys.map_values(|k: (usize, bool)| k.0)
}

pub open spec fn key_desc(keys: Seq<(usize, bool)>) -> Seq<bool> {
    keys.map_values(|k: (usize, bool)| k.1)
}

/// `order` sorts the rows of `data`, read as the table `t`, by the
/// prioritised keys of `sorts`.
pub open spec fn sorted_preview(t: Table, order: Seq<usize>, data: Seq<Vec<String>>, sorts: Seq<ColumnSort>) -> bool {
    let keys = priority_keys(sorts, 5);
    &&& as_table_of(t, data, sorts.len() as nat)
    &&& is_sorted_by(
        t,
        key_cols(keys),
        key_desc(keys),
        true,
        order,
        t.height as int,
    )
}

/// `after` is `before` sorted by the prioritised keys of `sorts`, or
/// `before` itself when no column has a priority.
pub open spec fn resorted(before: Seq<Vec<String>>, after: Seq<Vec<String>>, sorts: Seq<ColumnSort>) -> bool {
    if priority_keys(sorts, 5).len() == 0 {
        after == before
    } else {
        exists|t: Table, order: Seq<usize>|
            #[trigger] sorted_preview(t, order, before, sorts) && after.len() == order.len() && forall|k: int|
                0 <= k < order.len() ==> rows_view(after)[k] == rows_view(before)[#[trigger] order[k] as int]
    }
}

/// The sort settings after column `col` is set to `direction`: a column
/// that stops sorting gives its priority up and the higher ones move down;
/// one that starts sorting takes the smallest free priority; one that keeps
/// sorting keeps its priority.
pub open spec fn sorts_after(sorts: Seq<ColumnSort>, col: int, direction: SortDirection) -> Seq<ColumnSort> {
    let cur = sorts[col].priority;
    if direction == SortDirection::Unsorted {
        match cur {
            Some(p) => compacted(sorts.update(col, ColumnSort { direction, priority: None }), p),
            None => sorts.update(col, ColumnSort { direction, priority: None }),
        }
    } else {
        match cur {
            Some(p) => sorts.update(col, ColumnSort { direction, priority: Some(p) }),
            None => sorts.update(col, ColumnSort { direction, priority: next_priority(sorts) }),
        }
    }
}

/// `r` holds the rows of `data` laid out by `mapping`: cell `k` of a row is
/// the row's cell `mapping[k]` (empty past its end); with no mapping, `r`
/// holds the rows as they are.
pub open spec fn is_reordering(mapping: Option<Seq<usize>>, data: Seq<Vec<String>>, r: Seq<Vec<String>>) -> bool {
    &&& r.len() == data.len()
    &&& match mapping {
        Some(m) => forall|i: int|
            0 <= i < data.len() ==> (#[trigger] r[i]).len() == m.len() && forall|k: int|
                0 <= k < m.len() ==> (#[trigger] r[i]@[k])@ == (if m[k] < data[i].len() {
                    data[i]@[m[k] as int]@
                } else {
                    Seq::empty()
                }),
        None => rows_view(r) == rows_view(data),
    }
}

/// Row `r` of the preview, cell `c`; `None` past the end of a short row.
pub open spec fn preview_cell(data: Seq<Vec<String>>, c: int, r: int) -> Option<Seq<char>> {
    if 0 <= c < data[r].len() {
        Some(data[r]@[c]@)
    } else {
        None
    }
}

/// The preview rows as a table of text columns.
pub open spec fn as_table_of(t: Table, data: Seq<Vec<String>>, width: nat) -> bool {
    &&& t.wf()
    &&& t.height == data.len()
    &&& t.width() == width
    &&& forall|c: int, r: int| 0 <= c < width && 0 <= r < data.len() ==> #[trigger] t.cell(c, r) == preview_cell(data, c, r)
}

pub open spec fn rows_view(data: Seq<Vec<String>>) -> Seq<Seq<Seq<char>>> {
    data.map_values(|row: Vec<String>| row_text(row))
}

pub open spec fn row_text(row: Vec<String>) -> Seq<Seq<char>> {
    row@.map_values(|s: String| s@)
}

fn copy_row(row: &Vec<String>) -> (r: Vec<String>)
    ensures
        row_text(r) == row_text(*row),
{
    let mut out: Vec<String> = Vec::new();
    let mut k: usize = 0;
    while k < row.len()
        invariant
            0 <= k <= row.len(),
            out.len() == k,
            forall|q: int| 0 <= q < k ==> (#[trigger] out@[q])@ == row@[q]@,
        decreases row.len() - k,
    {
        out.push(row[k].clone());
        k += 1;
    }
    assert(row_text(out) =~= row_text(*row));
    out
}

/// The rows `order` of `data`, copied.
fn rows_in_order(data: &Vec<Vec<String>>, order: &Vec<usize>) -> (r: Vec<Vec<String>>)
    requires
        forall|q: int| 0 <= q < order.len() ==> (#[trigger] order@[q]) < data.len(),
    ensures
        r.len() == order.len(),
        forall|k: int| 0 <= k < order.len() ==> row_text(#[trigger] r@[k]) == row_text(data@[order@[k] as int]),
{
    let mut out: Vec<Vec<String>> = Vec::new();
    let mut i: usize = 0;
    while i < order.len()
        invariant
            forall|q: int| 0 <= q < order.len() ==> (#[trigger] order@[q]) < data.len(),
            0 <= i <= order.len(),
            out.len() == i,
            forall|k: int| 0 <= k < i ==> row_text(#[trigger] out@[k]) == row_text(data@[order@[k] as int]),
        decreases order.len() - i,
    {
        out.push(copy_row(&data[order[i]]));
        i += 1;
    }
    out
}

fn preview_as_table(data: &Vec<Vec<String>>, width: usize) -> (t: Table)
    ensures
        as_table_of(t, data@, width as nat),
{
    let mut cols: Vec<Column> = Vec::new();
    let mut c: usize = 0;
    while c < width
        invariant
            0 <= c <= width,
            cols.len() == c,
            forall|q: int| 0 <= q < c ==> (#[trigger] cols@[q]).values.len() == data.len(),
            forall|q: int, r: int|
                0 <= q < c && 0 <= r < data.len() ==> cell_view(#[trigger] cols@[q].values@[r]) == preview_cell(data@, q, r),
        decreases width - c,
    {
        let mut values: Vec<Option<String>> = Vec::new();
        let mut r: usize = 0;
        while r < data.len()
            invariant
                0 <= r <= data.len(),
                values.len() == r,
                forall|q: int| 0 <= q < r ==> cell_view(#[trigger] values@[q]) == preview_cell(data@, c as int, q),
            decreases data.len() - r,
        {
            if c < data[r].len() {
                values.push(Some(data[r][c].clone()));
            } else {
                values.push(None);
            }
            r += 1;
        }
        cols.push(Column { name: String::new(), kind: ColumnType::Text, values });
        c += 1;
    }
    Table { columns: cols, height: data.len() }
}

impl PreviewTable {
    pub fn new() -> (r: Self)
        ensures
            r.preview_data@.len() == 0,
            r.columns@.len() == 0,
            r.page == 0,
            !r.initialized,
            r.column_sorts@.len() == 0,
            r.last_render_frame == 0,
    {
        PreviewTable {
            preview_data: Vec::new(),
            columns: Vec::new(),
            page: 0,
            initialized: false,
            column_sorts: Vec::new(),
            last_render_frame: 0,
        }
    }

    /// One unsorted setting per column.
    fn initialize_sort_settings(&mut self)
        ensures
            final(self).column_sorts@ == unsorted(old(self).columns.len() as nat),
            final(self).columns == old(self).columns,
            final(self).preview_data == old(self).preview_data,
            final(self).page == old(self).page,
    {
        let mut sorts: Vec<ColumnSort> = Vec::new();
        let mut i: usize = 0;
        while i < self.columns.len()
            invariant
                0 <= i <= self.columns.len(),
                sorts@ == unsorted(i as nat),
            decreases self.columns.len() - i,
        {
            sorts.push(ColumnSort { direction: SortDirection::Unsorted, priority: None });
            assert(sorts@ =~= unsorted((i + 1) as nat));
            i += 1;
        }
        self.column_sorts = sorts;
    }

    /// Replaces the rows, back on the first page with no sort.
    pub fn set_preview_data(&mut self, data: Vec<Vec<String>>)
        ensures
            final(self).preview_data@ == data@,
            final(self).columns == old(self).columns,
            final(self).page == 0,
            final(self).column_sorts@ == unsorted(old(self).columns.len() as nat),
    {
        self.preview_data = data;
        self.page = 0;
        self.initialize_sort_settings();
    }

    /// Where each current column first stands among `new_columns`, if all are there.
    pub open spec fn column_mapping_spec(&self, new_columns: Seq<String>) -> Option<Seq<usize>> {
        let names = names_view(new_columns);
        if forall|k: int| 0 <= k < self.columns.len() ==> (#[trigger] first_index(names, self.columns@[k]@)) is Some {
            Some(Seq::new(self.columns.len() as nat, |k: int| first_index(names, self.columns@[k]@)->Some_0 as usize))
        } else {
            None
        }
    }

    fn column_mapping(&self, new_columns: &Vec<String>) -> (r: Option<Vec<usize>>)
        ensures
            match self.column_mapping_spec(new_columns@) {
                Some(m) => r is Some && r->Some_0@ == m && forall|k: int| 0 <= k < m.len() ==> (#[trigger] m[k]) < new_columns.len(),
                None => r is None,
            },
    {
        let ghost names = names_view(new_columns@);
        let mut mapping: Vec<usize> = Vec::new();
        let mut k: usize = 0;
        while k < self.columns.len()
            invariant
                names == names_view(new_columns@),
                0 <= k <= self.columns.len(),
                mapping.len() == k,
                forall|q: int| 0 <= q < k ==> (#[trigger] first_index(names, self.columns@[q]@)) is Some,
                forall|q: int|
                    0 <= q < k ==> (#[trigger] mapping@[q]) < new_columns.len() && mapping@[q] as int == first_index(
                        names,
                        self.columns@[q]@,
                    )->Some_0,
            decreases self.columns.len() - k,
        {
            let mut j: usize = 0;
            let mut found: Option<usize> = None;
            while j < new_columns.len() && found.is_none()
                invariant
                    names == names_view(new_columns@),
                    0 <= j <= new_columns.len(),
                    k < self.columns.len(),
                    match found {
                        Some(i) => i < new_columns.len() && first_index(names, self.columns@[k as int]@) == Some(i as int),
                        None => first_index(names.subrange(0, j as int), self.columns@[k as int]@) is None,
                    },
                decreases new_columns.len() - j,
            {
                assert(names.subrange(0, j + 1).drop_last() =~= names.subrange(0, j as int));
                if new_columns[j] == self.columns[k] {
                    proof {
                        lemma_first_index_found(names.subrange(0, j as int), self.columns@[k as int]@);
                        assert forall|q: int| 0 <= q < j implies names[q] != self.columns@[k as int]@ by {
                            assert(names.subrange(0, j as int)[q] == names[q]);
                        }
                        crate::table::lemma_first_index_is(names, self.columns@[k as int]@, j as int);
                    }
                    found = Some(j);
                }
                j += 1;
            }
            match found {
                Some(i) => mapping.push(i),
                None => {
                    assert(names.subrange(0, j as int) =~= names);
                    return None;
                },
            }
            k += 1;
        }
        assert(mapping@ =~= Seq::new(
            self.columns.len() as nat,
            |q: int| first_index(names, self.columns@[q]@)->Some_0 as usize,
        ));
        Some(mapping)
    }

    /// The rows laid out in the current column order, taken by name from
    /// `new_columns`; the rows as they are when a current column is missing.
    pub fn reorder_data_by_current_columns(&self, new_columns: &Vec<String>, data: Vec<Vec<String>>) -> (r: Vec<
        Vec<String>,
    >)
        ensures
            is_reordering(self.column_mapping_spec(new_columns@), data@, r@),
    {
        match self.column_mapping(new_columns) {
            None => data,
            Some(mapping) => {
                let mut out: Vec<Vec<String>> = Vec::new();
                let mut i: usize = 0;
                while i < data.len()
                    invariant
                        0 <= i <= data.len(),
                        out.len() == i,
                        forall|q: int|
                            0 <= q < i ==> (#[trigger] out@[q]).len() == mapping.len() && forall|k: int|
                                0 <= k < mapping.len() ==> (#[trigger] out@[q]@[k])@ == (if mapping@[k] < data@[q].len() {
                                    data@[q]@[mapping@[k] as int]@
                                } else {
                                    Seq::empty()
                                }),
                    decreases data.len() - i,
                {
                    let mut row: Vec<String> = Vec::new();
                    let mut k: usize = 0;
                    while k < mapping.len()
                        invariant
                            0 <= k <= mapping.len(),
                            i < data.len(),
                            row.len() == k,
                            forall|w: int|
                                0 <= w < k ==> (#[trigger] row@[w])@ == (if mapping@[w] < data@[i as int].len() {
                                    data@[i as int]@[mapping@[w] as int]@
                                } else {
                                    Seq::empty()
                                }),
                        decreases mapping.len() - k,
                    {
                        let idx = mapping[k];
                        if idx < data[i].len() {
                            row.push(data[i][idx].clone());
                        } else {
                            row.push(String::new());
                        }
                        k += 1;
                    }
                    out.push(row);
                    i += 1;
                }
                out
            },
        }
    }

    /// Replaces the rows; when the columns are the same in number, the rows
    /// are laid out in the current column order, else the new columns are
    /// taken and the sort settings cleared. Back on the first page.
    pub fn set_preview_data_with_columns(&mut self, new_columns: Vec<String>, data: Vec<Vec<String>>)
        ensures
            final(self).page == 0,
            old(self).columns.len() > 0 && old(self).columns.len() == new_columns.len() ==> final(self).columns
                == old(self).columns && final(self).column_sorts == old(self).column_sorts && is_reordering(
                old(self).column_mapping_spec(new_columns@),
                data@,
                final(self).preview_data@,
            ),
            !(old(self).columns.len() > 0 && old(self).columns.len() == new_columns.len()) ==> final(self).columns@
                == new_columns@ && final(self).preview_data@ == data@ && final(self).column_sorts@ == unsorted(
                new_columns.len() as nat,
            ),
    {
        if self.columns.len() > 0 && self.columns.len() == new_columns.len() {
            let reordered = self.reorder_data_by_current_columns(&new_columns, data);
            self.preview_data = reordered;
        } else {
            self.columns = new_columns;
            self.preview_data = data;
            self.initialize_sort_settings();
        }
        self.page = 0;
    }

    /// Swaps column `col_index` with the one on its left, with its sort
    /// setting and its cells.
    pub fn move_column_left(&mut self, col_index: usize)
        ensures
            0 < col_index < old(self).columns.len() ==> final(self).columns@ == old(self).columns@.update(
                col_index - 1,
                old(self).columns@[col_index as int],
            ).update(col_index as int, old(self).columns@[col_index - 1]),
            !(0 < col_index < old(self).columns.len()) ==> *final(self) == *old(self),
            0 < col_index < old(self).columns.len() ==> final(self).column_sorts@ == if col_index < old(self).column_sorts.len() {
                old(self).column_sorts@.update(col_index - 1, old(self).column_sorts@[col_index as int]).update(
                    col_index as int,
                    old(self).column_sorts@[col_index - 1],
                )
            } else {
                old(self).column_sorts@
            },
            final(self).page == old(self).page,
            final(self).preview_data.len() == old(self).preview_data.len(),
            0 < col_index < old(self).columns.len() ==> forall|r: int|
                0 <= r < old(self).preview_data.len() ==> (#[trigger] final(self).preview_data@[r])@ == if col_index
                    < old(self).preview_data@[r].len() {
                    old(self).preview_data@[r]@.update(col_index - 1, old(self).preview_data@[r]@[col_index as int]).update(
                        col_index as int,
                        old(self).preview_data@[r]@[col_index - 1],
                    )
                } else {
                    old(self).preview_data@[r]@
                },
    {
        if col_index > 0 && col_index < self.columns.len() {
            swap_adjacent(&mut self.columns, col_index - 1);
            if col_index < self.column_sorts.len() {
                swap_adjacent(&mut self.column_sorts, col_index - 1);
            }
            let ghost before = self.preview_data@;
            let ghost cols = self.columns@;
            let ghost sorts = self.column_sorts@;
            let mut r: usize = 0;
            while r < self.preview_data.len()
                invariant
                    self.columns@ == cols,
                    self.column_sorts@ == sorts,
                    self.page == old(self).page,
                    0 < col_index,
                    0 <= r <= self.preview_data.len(),
                    self.preview_data.len() == before.len(),
                    forall|q: int| r <= q < before.len() ==> (#[trigger] self.preview_data@[q]) == before[q],
                    forall|q: int|
                        0 <= q < r ==> (#[trigger] self.preview_data@[q])@ == if col_index < before[q].len() {
                            before[q]@.update(col_index - 1, before[q]@[col_index as int]).update(
                                col_index as int,
                                before[q]@[col_index - 1],
                            )
                        } else {
                            before[q]@
                        },
                decreases self.preview_data.len() - r,
            {
                if col_index < self.preview_data[r].len() {
                    swap_adjacent(&mut self.preview_data[r], col_index - 1);
                }
                r += 1;
            }
        }
    }

    /// Swaps column `col_index` with the one on its right, with its sort
    /// setting and its cells.
    pub fn move_column_right(&mut self, col_index: usize)
        ensures
            col_index + 1 < old(self).columns.len() ==> final(self).columns@ == old(self).columns@.update(
                col_index as int,
                old(self).columns@[col_index + 1],
            ).update(col_index + 1, old(self).columns@[col_index as int]),
            !(col_index + 1 < old(self).columns.len()) ==> *final(self) == *old(self),
            col_index + 1 < old(self).columns.len() ==> final(self).column_sorts@ == if col_index + 1 < old(self).column_sorts.len() {
                old(self).column_sorts@.update(col_index as int, old(self).column_sorts@[col_index + 1]).update(
                    col_index + 1,
                    old(self).column_sorts@[col_index as int],
                )
            } else {
                old(self).column_sorts@
            },
            final(self).page == old(self).page,
            final(self).preview_data.len() == old(self).preview_data.len(),
            col_index + 1 < old(self).columns.len() ==> forall|r: int|
                0 <= r < old(self).preview_data.len() ==> (#[trigger] final(self).preview_data@[r])@ == if col_index + 1
                    < old(self).preview_data@[r].len() {
                    old(self).preview_data@[r]@.update(col_index as int, old(self).preview_data@[r]@[col_index + 1]).update(
                        col_index + 1,
                        old(self).preview_data@[r]@[col_index as int],
                    )
                } else {
                    old(self).preview_data@[r]@
                },
    {
        if col_index < self.columns.len() && col_index + 1 < self.columns.len() {
            swap_adjacent(&mut self.columns, col_index);
            if col_index + 1 < self.column_sorts.len() {
                swap_adjacent(&mut self.column_sorts, col_index);
            }
            let ghost before = self.preview_data@;
            let ghost cols = self.columns@;
            let ghost sorts = self.column_sorts@;
            let mut r: usize = 0;
            while r < self.preview_data.len()
                invariant
                    self.columns@ == cols,
                    self.column_sorts@ == sorts,
                    self.page == old(self).page,
                    0 <= r <= self.preview_data.len(),
                    self.preview_data.len() == before.len(),
                    col_index + 1 < usize::MAX,
                    forall|q: int| r <= q < before.len() ==> (#[trigger] self.preview_data@[q]) == before[q],
                    forall|q: int|
                        0 <= q < r ==> (#[trigger] self.preview_data@[q])@ == if col_index + 1 < before[q].len() {
                            before[q]@.update(col_index as int, before[q]@[col_index + 1]).update(
                                col_index + 1,
                                before[q]@[col_index as int],
                            )
                        } else {
                            before[q]@
                        },
                decreases self.preview_data.len() - r,
            {
                if col_index + 1 < self.preview_data[r].len() {
                    swap_adjacent(&mut self.preview_data[r], col_index);
                }
                r += 1;
            }
        }
    }

    /// The smallest free priority from 1 to 5.
    fn get_next_priority(&self) -> (r: Option<usize>)
        ensures
            r == next_priority(self.column_sorts@),
    {
        let mut p: usize = 1;
        while p <= 5
            invariant
                1 <= p <= 6,
                forall|q: usize| 1 <= q < p ==> #[trigger] priority_used(self.column_sorts@, q),
            decreases 6 - p,
        {
            let mut used = false;
            let mut i: usize = 0;
            while i < self.column_sorts.len()
                invariant
                    0 <= i <= self.column_sorts.len(),
                    used == exists|k: int| 0 <= k < i && (#[trigger] self.column_sorts@[k]).priority == Some(p),
                decreases self.column_sorts.len() - i,
            {
                if self.column_sorts[i].priority == Some(p) {
                    used = true;
                }
                i += 1;
            }
            if !used {
                return Some(p);
            }
            p += 1;
        }
        None
    }

    /// Moves every priority above `removed` down by one.
    fn compact_priorities(&mut self, removed: usize)
        ensures
            final(self).column_sorts@ == compacted(old(self).column_sorts@, removed),
            final(self).columns == old(self).columns,
            final(self).preview_data == old(self).preview_data,
            final(self).page == old(self).page,
    {
        let ghost before = self.column_sorts@;
        let mut i: usize = 0;
        while i < self.column_sorts.len()
            invariant
                self.columns == old(self).columns,
                self.preview_data == old(self).preview_data,
                self.page == old(self).page,
                0 <= i <= self.column_sorts.len(),
                self.column_sorts.len() == before.len(),
                forall|k: int| i <= k < before.len() ==> (#[trigger] self.column_sorts@[k]) == before[k],
                forall|k: int| 0 <= k < i ==> (#[trigger] self.column_sorts@[k]) == compacted(before, removed)[k],
            decreases self.column_sorts.len() - i,
        {
            match self.column_sorts[i].priority {
                Some(p) => {
                    if p > removed {
                        self.column_sorts[i].priority = Some(p - 1);
                    }
                },
                None => {},
            }
            i += 1;
        }
        assert(self.column_sorts@ =~= compacted(before, removed));
    }

    /// The sort keys in priority order.
    fn sort_keys_by_priority(&self) -> (r: (Vec<usize>, Vec<bool>))
        ensures
            r.0.len() == r.1.len(),
            r.0.len() == priority_keys(self.column_sorts@, 5).len(),
            forall|k: int|
                0 <= k < r.0.len() ==> (#[trigger] r.0@[k], r.1@[k]) == priority_keys(self.column_sorts@, 5)[k],
            forall|k: int| 0 <= k < r.0.len() ==> (#[trigger] r.0@[k]) < self.column_sorts.len(),
    {
        let mut cols: Vec<usize> = Vec::new();
        let mut desc: Vec<bool> = Vec::new();
        let mut p: usize = 1;
        while p <= 5
            invariant
                1 <= p <= 6,
                cols.len() == desc.len(),
                cols.len() == priority_keys(self.column_sorts@, p - 1).len(),
                forall|k: int|
                    0 <= k < cols.len() ==> (#[trigger] cols@[k], desc@[k]) == priority_keys(self.column_sorts@, p - 1)[k],
                forall|k: int| 0 <= k < cols.len() ==> (#[trigger] cols@[k]) < self.column_sorts.len(),
            decreases 6 - p,
        {
            let mut i: usize = 0;
            let mut found: Option<usize> = None;
            while i < self.column_sorts.len() && found.is_none()
                invariant
                    0 <= i <= self.column_sorts.len(),
                    match found {
                        Some(c) => column_with_priority(self.column_sorts@, p, self.column_sorts.len() as int) == Some(
                            c as int,
                        ) && c < self.column_sorts.len(),
                        None => column_with_priority(self.column_sorts@, p, i as int) is None,
                    },
                decreases self.column_sorts.len() - i,
            {
                if self.column_sorts[i].priority == Some(p) {
                    proof {
                        lemma_priority_stable(self.column_sorts@, p, i + 1, self.column_sorts.len() as int);
                    }
                    found = Some(i);
                }
                i += 1;
            }
            match found {
                Some(c) => {
                    cols.push(c);
                    desc.push(self.column_sorts[c].direction == SortDirection::Descending);
                },
                None => {},
            }
            p += 1;
        }
        (cols, desc)
    }

    /// Sorts the rows stably by the prioritised columns: two cells by number
    /// when both read as numbers, else by text; a row too short for a key has
    /// no cell there and ties with any row on that key.
    #[verifier::rlimit(100)]
    fn apply_sort(&mut self)
        ensures
            final(self).columns == old(self).columns,
            final(self).column_sorts == old(self).column_sorts,
            resorted(old(self).preview_data@, final(self).preview_data@, old(self).column_sorts@),
            final(self).page == old(self).page,
    {
        let (cols, desc) = self.sort_keys_by_priority();
        if cols.len() == 0 {
            return;
        }
        let ghost sorts = self.column_sorts@;
        let t = preview_as_table(&self.preview_data, self.column_sorts.len());
        let plan = self.preview_plan(&t, cols, desc);
        let order = sort_order(&t, &plan);
        let sorted = rows_in_order(&self.preview_data, &order);
        let ghost old_data = self.preview_data@;
        self.preview_data = sorted;
        proof {
            assert(sorted_preview(t, order@, old_data, self.column_sorts@));
            assert forall|k: int| 0 <= k < order.len() implies rows_view(self.preview_data@)[k] == rows_view(
                old_data,
            )[#[trigger] order@[k] as int] by {
                assert(rows_view(self.preview_data@)[k] == row_text(self.preview_data@[k]));
            }
            assert(resorted(old_data, self.preview_data@, sorts));
        }
    }

    /// The sort plan of the prioritised keys over the preview read as `t`.
    fn preview_plan(&self, t: &Table, cols: Vec<usize>, desc: Vec<bool>) -> (plan: SortPlan)
        requires
            t.wf(),
            t.width() == self.column_sorts.len(),
            cols.len() == desc.len(),
            cols.len() == priority_keys(self.column_sorts@, 5).len(),
            forall|k: int|
                0 <= k < cols.len() ==> (#[trigger] cols@[k], desc@[k]) == priority_keys(self.column_sorts@, 5)[k],
            forall|k: int| 0 <= k < cols.len() ==> (#[trigger] cols@[k]) < self.column_sorts.len(),
        ensures
            crate::projection::plan_fits(*t, plan),
            plan.columns@ == key_cols(priority_keys(self.column_sorts@, 5)),
            plan.descending@ == key_desc(priority_keys(self.column_sorts@, 5)),
            plan.nulls_tie,
    {
        let ghost keys = priority_keys(self.column_sorts@, 5);
        proof {
            assert forall|q: int| 0 <= q < cols.len() implies (#[trigger] cols@[q]) == key_cols(keys)[q] && desc@[q]
                == key_desc(keys)[q] by {
                assert((cols@[q], desc@[q]) == keys[q]);
            }
            assert(cols@ =~= key_cols(keys));
            assert forall|q: int| 0 <= q < desc.len() implies (#[trigger] desc@[q]) == key_desc(keys)[q] by {
                assert((cols@[q], desc@[q]) == keys[q]);
            }
            assert(desc@ =~= key_desc(keys));
        }
        SortPlan { columns: cols, descending: desc, nulls_tie: true }
    }

    /// Sets the sort of one column: a sorted column gets the next free
    /// priority (or keeps its own), an unsorted one gives its priority up and
    /// the higher priorities move down; then the rows are sorted again.
    pub fn set_column_sort(&mut self, col_index: usize, direction: SortDirection)
        ensures
            final(self).columns == old(self).columns,
            col_index >= old(self).column_sorts.len() ==> *final(self) == *old(self),
            col_index < old(self).column_sorts.len() ==> final(self).column_sorts@ == sorts_after(
                old(self).column_sorts@,
                col_index as int,
                direction,
            ),
            col_index < old(self).column_sorts.len() ==> resorted(
                old(self).preview_data@,
                final(self).preview_data@,
                final(self).column_sorts@,
            ),
            final(self).page == old(self).page,
    {
        if col_index >= self.column_sorts.len() {
            return;
        }
        let current = self.column_sorts[col_index].priority;
        self.column_sorts[col_index].direction = direction;
        match direction {
            SortDirection::Unsorted => {
                match current {
                    Some(removed) => {
                        self.column_sorts[col_index].priority = None;
                        assert(self.column_sorts@ =~= old(self).column_sorts@.update(
                            col_index as int,
                            ColumnSort { direction, priority: None },
                        ));
                        self.compact_priorities(removed);
                    },
                    None => {
                        assert(self.column_sorts@ =~= old(self).column_sorts@.update(
                            col_index as int,
                            ColumnSort { direction, priority: None },
                        ));
                    },
                }
            },
            _ => {
                if current.is_none() {
                    let ghost before = self.column_sorts@;
                    let next = self.get_next_priority();
                    proof {
                        assert forall|p: usize| #[trigger] priority_used(before, p) == priority_used(
                            old(self).column_sorts@,
                            p,
                        ) by {
                            if priority_used(before, p) {
                                let i = choose|i: int| 0 <= i < before.len() && (#[trigger] before[i]).priority == Some(p);
                                assert(old(self).column_sorts@[i].priority == Some(p));
                            }
                            if priority_used(old(self).column_sorts@, p) {
                                let i = choose|i: int|
                                    0 <= i < old(self).column_sorts@.len() && (#[trigger] old(self).column_sorts@[i]).priority
                                        == Some(p);
                                assert(before[i].priority == Some(p));
                            }
                        }
                    }
                    self.column_sorts[col_index].priority = next;
                    assert(self.column_sorts@ =~= old(self).column_sorts@.update(
                        col_index as int,
                        ColumnSort { direction, priority: next_priority(old(self).column_sorts@) },
                    ));
                } else {
                    assert(self.column_sorts@ =~= old(self).column_sorts@.update(
                        col_index as int,
                        ColumnSort { direction, priority: current },
                    ));
                }
            },
        }
        self.apply_sort();
    }

    /// The columns and rows as they stand, to be saved.
    pub fn get_sorted_data(&self) -> (r: (Vec<String>, Vec<Vec<String>>))
        ensures
            row_text(r.0) == row_text(self.columns),
            rows_view(r.1@) == rows_view(self.preview_data@),
    {
        let cols = copy_row(&self.columns);
        let mut rows: Vec<Vec<String>> = Vec::new();
        let mut i: usize = 0;
        while i < self.preview_data.len()
            invariant
                0 <= i <= self.preview_data.len(),
                rows.len() == i,
                forall|q: int| 0 <= q < i ==> row_text(#[trigger] rows@[q]) == row_text(self.preview_data@[q]),
            decreases self.preview_data.len() - i,
        {
            rows.push(copy_row(&self.preview_data[i]));
            i += 1;
        }
        assert(rows_view(rows@) =~= rows_view(self.preview_data@));
        (cols, rows)
    }

    pub fn has_sorted_data(&self) -> (r: bool)
        ensures
            r == (self.columns.len() > 0 && self.preview_data.len() > 0),
    {
        self.columns.len() > 0 && self.preview_data.len() > 0
    }

    pub fn is_sorted(&self) -> (r: bool)
        ensures
            r == exists|i: int| 0 <= i < self.column_sorts.len() && (#[trigger] self.column_sorts@[i]).direction != SortDirection::Unsorted,
    {
        let mut i: usize = 0;
        while i < self.column_sorts.len()
            invariant
                0 <= i <= self.column_sorts.len(),
                forall|k: int| 0 <= k < i ==> (#[trigger] self.column_sorts@[k]).direction == SortDirection::Unsorted,
            decreases self.column_sorts.len() - i,
        {
            if self.column_sorts[i].direction != SortDirection::Unsorted {
                return true;
            }
            i += 1;
        }
        false
    }
}

/// Exchanges the items at `i` and `i + 1`.
fn swap_adjacent<T>(v: &mut Vec<T>, i: usize)
    requires
        i + 1 < old(v).len(),
    ensures
        final(v)@ == old(v)@.update(i as int, old(v)@[i + 1]).update(i + 1, old(v)@[i as int]),
{
    let ghost before = v@;
    let x = v.remove(i + 1);
    v.insert(i, x);
    assert(v@ =~= before.update(i as int, before[i + 1]).update(i + 1, before[i as int]));
}

proof fn lemma_priority_stable(sorts: Seq<ColumnSort>, p: usize, n: int, m: int)
    requires
        0 <= n <= m,
        column_with_priority(sorts, p, n) is Some,
    ensures
        column_with_priority(sorts, p, m) == column_with_priority(sorts, p, n),
    decreases m - n,
{
    if n < m {
        lemma_priority_stable(sorts, p, n, m - 1);
    }
}

} // verus!
