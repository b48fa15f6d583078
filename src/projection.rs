//! Selecting, ordering, sorting and rendering the columns of a result.
use vstd::prelude::*;
use crate::difference::is_difference_name;
use crate::table::{cell_view, first_index, lemma_first_index_found, PipelineError, Table};
use crate::text::{chars_of, contains, contains_chars, parse_scaled, scaled_value};

verus! {

/// The direction of one sort key.
#[derive(Clone, Copy, Debug, PartialEq, Eq, Structural)]
pub enum SortOrder {
    Ascending,
    Descending,
}

/// A column to sort by, and in which direction.
#[derive(Clone, Debug)]
pub struct SortKey {
    pub column: String,
    pub order: SortOrder,
}

/// A result as it is shown and saved: column names and rows of text.
#[derive(Clone, Debug)]
pub struct TextTable {
    pub columns: Vec<String>,
    pub rows: Vec<Vec<String>>,
}

/// The first of the columns `0..n` whose name contains `sel` or lies within it.
pub open spec fn loose_match(names: Seq<Seq<char>>, sel: Seq<char>, n: int) -> Option<int>
    decreases n,
{
    if n <= 0 {
        None
    } else {
        match loose_match(names, sel, n - 1) {
            Some(i) => Some(i),
            None => if contains(names[n - 1], sel) || contains(sel, names[n - 1]) {
                Some(n - 1)
            } else {
                None
            },
        }
    }
}

/// The column that a selected name stands for: the column of that name, or
/// with `loose`, the first whose name contains it or lies within it.
pub open spec fn resolve(names: Seq<Seq<char>>, sel: Seq<char>, loose: bool) -> Option<int> {
    match first_index(names, sel) {
        Some(i) => Some(i),
        None => if loose {
            loose_match(names, sel, names.len() as int)
        } else {
            None
        },
    }
}

/// The columns that the first `n` selected names stand for, in order,
/// each once.
pub open spec fn resolved_columns(names: Seq<Seq<char>>, sels: Seq<Seq<char>>, loose: bool, n: int) -> Seq<usize>
    decreases n,
{
    if n <= 0 {
        Seq::empty()
    } else {
        let s = resolved_columns(names, sels, loose, n - 1);
        match resolve(names, sels[n - 1], loose) {
            Some(i) => if s.contains(i as usize) {
                s
            } else {
                s.push(i as usize)
            },
            None => s,
        }
    }
}


fn loose_find(t: &Table, sel: &Vec<char>) -> (r: Option<usize>)
    ensures
        match r {
            Some(i) => loose_match(t.names(), sel@, t.width() as int) == Some(i as int),
            None => loose_match(t.names(), sel@, t.width() as int) is None,
        },
{
    let mut i: usize = 0;
    while i < t.columns.len()
        invariant
            0 <= i <= t.columns.len(),
            loose_match(t.names(), sel@, i as int) is None,
        decreases t.columns.len() - i,
    {
        let name = chars_of(&t.columns[i].name);
        assert(t.names()[i as int] == name@);
        if contains_chars(&name, sel) || contains_chars(sel, &name) {
            proof {
                lemma_loose_stable(t.names(), sel@, i + 1, t.width() as int);
            }
            return Some(i);
        }
        i += 1;
    }
    None
}

proof fn lemma_loose_stable(names: Seq<Seq<char>>, sel: Seq<char>, n: int, m: int)
    requires
        0 <= n <= m,
        loose_match(names, sel, n) is Some,
    ensures
        loose_match(names, sel, m) == loose_match(names, sel, n),
    decreases m - n,
{
    if n < m {
        lemma_loose_stable(names, sel, n, m - 1);
    }
}

fn resolve_one(t: &Table, sel: &String, loose: bool) -> (r: Option<usize>)
    ensures
        match r {
            Some(i) => resolve(t.names(), sel@, loose) == Some(i as int),
            None => resolve(t.names(), sel@, loose) is None,
        },
{
    match t.column_position(sel) {
        Some(i) => Some(i),
        None => {
            if loose {
                loose_find(t, &chars_of(sel))
            } else {
                None
            }
        },
    }
}

proof fn lemma_resolve_in_range(names: Seq<Seq<char>>, sel: Seq<char>, loose: bool)
    ensures
        resolve(names, sel, loose) is Some ==> 0 <= resolve(names, sel, loose)->Some_0 < names.len(),
{
    lemma_first_index_found(names, sel);
    if first_index(names, sel) is None && loose {
        lemma_loose_range(names, sel, names.len() as int);
    }
}

proof fn lemma_loose_range(names: Seq<Seq<char>>, sel: Seq<char>, n: int)
    ensures
        loose_match(names, sel, n) is Some ==> 0 <= loose_match(names, sel, n)->Some_0 < n,
    decreases n,
{
    if n > 0 {
        lemma_loose_range(names, sel, n - 1);
    }
}

/// The columns shown for the selected names: those they stand for, in
/// order and without repeats; names that stand for no column are dropped,
/// and all columns are shown when none is left.
pub open spec fn shown_columns(names: Seq<Seq<char>>, sels: Seq<Seq<char>>, loose: bool) -> Seq<usize> {
    let r = resolved_columns(names, sels, loose, sels.len() as int);
    if r.len() == 0 {
        Seq::new(names.len(), |i: int| i as usize)
    } else {
        r
    }
}

/// The columns shown for `selected`, as `shown_columns` says.
pub fn select_columns(t: &Table, selected: &Vec<String>, loose: bool) -> (cols: Vec<usize>)
    ensures
        cols@ == shown_columns(t.names(), crate::join::keys_view(selected@), loose),
        forall|k: int| 0 <= k < cols.len() ==> (#[trigger] cols@[k]) < t.columns.len(),
{
    let ghost sels = crate::join::keys_view(selected@);
    let mut cols: Vec<usize> = Vec::new();
    let mut p: usize = 0;
    while p < selected.len()
        invariant
            0 <= p <= selected.len(),
            sels == crate::join::keys_view(selected@),
            cols@ == resolved_columns(t.names(), sels, loose, p as int),
            forall|k: int| 0 <= k < cols.len() ==> (#[trigger] cols@[k]) < t.columns.len(),
        decreases selected.len() - p,
    {
        match resolve_one(t, &selected[p], loose) {
            Some(i) => {
                proof {
                    lemma_resolve_in_range(t.names(), sels[p as int], loose);
                }
                let mut seen = false;
                let mut k: usize = 0;
                while k < cols.len()
                    invariant
                        0 <= k <= cols.len(),
                        seen == exists|q: int| 0 <= q < k && cols@[q] == i,
                    decreases cols.len() - k,
                {
                    if cols[k] == i {
                        seen = true;
                    }
                    k += 1;
                }
                if !seen {
                    cols.push(i);
                }
            },
            None => {},
        }
        p += 1;
    }
    if cols.len() == 0 {
        let mut i: usize = 0;
        while i < t.columns.len()
            invariant
                0 <= i <= t.columns.len(),
                cols@ == Seq::new(i as nat, |q: int| q as usize),
            decreases t.columns.len() - i,
        {
            cols.push(i);
            assert(cols@ =~= Seq::new((i + 1) as nat, |q: int| q as usize));
            i += 1;
        }
    }
    cols
}

/// Lexicographic order of texts by character: -1, 0 or 1.
pub open spec fn text_cmp(a: Seq<char>, b: Seq<char>) -> int
    decreases a.len(),
{
    if a.len() == 0 {
        if b.len() == 0 {
            0
        } else {
            -1
        }
    } else if b.len() == 0 {
        1
    } else if a[0] < b[0] {
        -1
    } else if a[0] > b[0] {
        1
    } else {
        text_cmp(a.drop_first(), b.drop_first())
    }
}

pub open spec fn int_cmp(a: int, b: int) -> int {
    if a < b {
        -1
    } else if a > b {
        1
    } else {
        0
    }
}

/// Order of two cells: by number when both read as numbers, else by text;
/// a null cell comes first, or ties with anything when `nulls_tie`.
pub open spec fn cell_cmp(nulls_tie: bool, x: Option<Seq<char>>, y: Option<Seq<char>>) -> int {
    match (x, y) {
        (Some(a), Some(b)) => if scaled_value(a) is Some && scaled_value(b) is Some {
            int_cmp(scaled_value(a)->Some_0, scaled_value(b)->Some_0)
        } else {
            text_cmp(a, b)
        },
        (None, None) => 0,
        (None, Some(_)) => if nulls_tie {
            0
        } else {
            -1
        },
        (Some(_), None) => if nulls_tie {
            0
        } else {
            1
        },
    }
}

/// Order of rows `i` and `j` under the first `n` sort keys: the first key
/// that tells them apart decides, reversed for descending keys.
pub open spec fn rows_cmp(t: Table, kc: Seq<usize>, desc: Seq<bool>, nulls_tie: bool, i: int, j: int, n: int) -> int
    decreases n,
{
    if n <= 0 {
        0
    } else {
        let prev = rows_cmp(t, kc, desc, nulls_tie, i, j, n - 1);
        if prev != 0 {
            prev
        } else {
            let c = cell_cmp(nulls_tie, t.cell(kc[n - 1] as int, i), t.cell(kc[n - 1] as int, j));
            if desc[n - 1] {
                -c
            } else {
                c
            }
        }
    }
}

proof fn lemma_text_cmp_antisym(a: Seq<char>, b: Seq<char>)
    ensures
        text_cmp(a, b) == -text_cmp(b, a),
    decreases a.len(),
{
    if a.len() > 0 && b.len() > 0 && a[0] == b[0] {
        lemma_text_cmp_antisym(a.drop_first(), b.drop_first());
    }
}

proof fn lemma_rows_cmp_antisym(t: Table, kc: Seq<usize>, desc: Seq<bool>, nulls_tie: bool, i: int, j: int, n: int)
    ensures
        rows_cmp(t, kc, desc, nulls_tie, i, j, n) == -rows_cmp(t, kc, desc, nulls_tie, j, i, n),
    decreases n,
{
    if n > 0 {
        lemma_rows_cmp_antisym(t, kc, desc, nulls_tie, i, j, n - 1);
        let x = t.cell(kc[n - 1] as int, i);
        let y = t.cell(kc[n - 1] as int, j);
        if let (Some(a), Some(b)) = (x, y) {
            lemma_text_cmp_antisym(a, b);
        }
    }
}

fn text_order(a: &Vec<char>, b: &Vec<char>) -> (r: i8)
    ensures
        r as int == text_cmp(a@, b@),
        -1 <= r <= 1,
{
    let mut i: usize = 0;
    assert(a@.subrange(0, a.len() as int) =~= a@);
    assert(b@.subrange(0, b.len() as int) =~= b@);
    while i < a.len() && i < b.len()
        invariant
            0 <= i <= a.len(),
            i <= b.len(),
            text_cmp(a@, b@) == text_cmp(a@.subrange(i as int, a.len() as int), b@.subrange(i as int, b.len() as int)),
        decreases a.len() - i,
    {
        if a[i] < b[i] {
            return -1;
        }
        if a[i] > b[i] {
            return 1;
        }
        proof {
            assert(a@.subrange(i as int, a.len() as int).drop_first() =~= a@.subrange(i + 1, a.len() as int));
            assert(b@.subrange(i as int, b.len() as int).drop_first() =~= b@.subrange(i + 1, b.len() as int));
        }
        i += 1;
    }
    if i < a.len() {
        1
    } else if i < b.len() {
        -1
    } else {
        0
    }
}

fn cell_order(nulls_tie: bool, x: &Option<String>, y: &Option<String>) -> (r: i8)
    ensures
        r as int == cell_cmp(nulls_tie, cell_view(*x), cell_view(*y)),
        -1 <= r <= 1,
{
    match (x, y) {
        (None, None) => 0,
        (None, Some(_)) => if nulls_tie {
            0
        } else {
            -1
        },
        (Some(_), None) => if nulls_tie {
            0
        } else {
            1
        },
        (Some(a), Some(b)) => {
            let ca = chars_of(a);
            let cb = chars_of(b);
            match (parse_scaled(&ca), parse_scaled(&cb)) {
                (Some(p), Some(q)) => if p < q {
                    -1
                } else if p > q {
                    1
                } else {
                    0
                },
                _ => text_order(&ca, &cb),
            }
        },
    }
}

/// The sort keys as column positions and descending flags, and whether a
/// missing cell ties with anything.
pub struct SortPlan {
    pub columns: Vec<usize>,
    pub descending: Vec<bool>,
    pub nulls_tie: bool,
}

pub open spec fn plan_fits(t: Table, plan: SortPlan) -> bool {
    &&& plan.columns.len() == plan.descending.len()
    &&& forall|p: int| 0 <= p < plan.columns.len() ==> (#[trigger] plan.columns@[p]) < t.columns.len()
}

pub open spec fn plan_cmp(t: Table, plan: SortPlan, i: int, j: int) -> int {
    rows_cmp(t, plan.columns@, plan.descending@, plan.nulls_tie, i, j, plan.columns.len() as int)
}

fn compare_rows(t: &Table, plan: &SortPlan, i: usize, j: usize) -> (r: i8)
    requires
        t.wf(),
        plan_fits(*t, *plan),
        i < t.height,
        j < t.height,
    ensures
        r as int == plan_cmp(*t, *plan, i as int, j as int),
        -1 <= r <= 1,
{
    let mut p: usize = 0;
    let mut acc: i8 = 0;
    while p < plan.columns.len()
        invariant
            t.wf(),
            plan_fits(*t, *plan),
            i < t.height,
            j < t.height,
            0 <= p <= plan.columns.len(),
            acc as int == rows_cmp(*t, plan.columns@, plan.descending@, plan.nulls_tie, i as int, j as int, p as int),
            -1 <= acc <= 1,
        decreases plan.columns.len() - p,
    {
        if acc == 0 {
            let c = plan.columns[p];
            assert(t.columns@[c as int].values.len() == t.height);
            let o = cell_order(plan.nulls_tie, &t.columns[c].values[i], &t.columns[c].values[j]);
            acc = if plan.descending[p] { -o } else { o };
        }
        p += 1;
    }
    acc
}


/// `order` lists rows `0..n` once each, every row at most its successor under
/// the sort keys, and rows that tie kept in their input order.
pub open spec fn is_sorted_by(t: Table, kc: Seq<usize>, desc: Seq<bool>, nulls_tie: bool, order: Seq<usize>, n: int) -> bool {
    &&& order.len() == n
    &&& forall|k: int| 0 <= k < order.len() ==> (#[trigger] order[k]) < n
    &&& forall|k1: int, k2: int| 0 <= k1 < k2 < order.len() ==> (#[trigger] order[k1]) != (#[trigger] order[k2])
    &&& forall|k: int|
        0 <= k < order.len() - 1 ==> rows_cmp(t, kc, desc, nulls_tie, #[trigger] order[k] as int, order[k + 1] as int, kc.len() as int) <= 0
    &&& forall|k: int|
        0 <= k < order.len() - 1 && rows_cmp(t, kc, desc, nulls_tie, #[trigger] order[k] as int, order[k + 1] as int, kc.len() as int) == 0
            ==> order[k] < order[k + 1]
}

/// Putting row `i` at `j` in a sorted list of the rows before it, where
/// every later entry orders after it and the one before does not, keeps the
/// list sorted.
proof fn lemma_insert_sorted(
    t: Table,
    kc: Seq<usize>,
    desc: Seq<bool>,
    nulls_tie: bool,
    old_order: Seq<usize>,
    j: int,
    i: int,
)
    requires
        0 <= i < t.height,
        is_sorted_by(t, kc, desc, nulls_tie, old_order, i),
        0 <= j <= old_order.len(),
        forall|m: int| j <= m < old_order.len() ==> rows_cmp(t, kc, desc, nulls_tie, #[trigger] old_order[m] as int, i, kc.len() as int) > 0,
        j > 0 ==> rows_cmp(t, kc, desc, nulls_tie, old_order[j - 1] as int, i, kc.len() as int) <= 0,
    ensures
        is_sorted_by(t, kc, desc, nulls_tie, old_order.insert(j, i as usize), i + 1),
{
    let n = kc.len() as int;
    let new_order = old_order.insert(j, i as usize);
    assert forall|k: int| 0 <= k < new_order.len() implies (#[trigger] new_order[k]) < i + 1 by {
        if k < j {
            assert(new_order[k] == old_order[k]);
        } else if k > j {
            assert(new_order[k] == old_order[k - 1]);
        }
    }
    assert forall|k1: int, k2: int| 0 <= k1 < k2 < new_order.len() implies (#[trigger] new_order[k1]) != (#[trigger] new_order[k2]) by {
        let o1 = if k1 < j { k1 } else { k1 - 1 };
        let o2 = if k2 < j { k2 } else { k2 - 1 };
        if k1 != j && k2 != j {
            assert(new_order[k1] == old_order[o1]);
            assert(new_order[k2] == old_order[o2]);
        } else if k1 == j {
            assert(new_order[k2] == old_order[o2]);
        } else {
            assert(new_order[k1] == old_order[o1]);
        }
    }
    assert forall|k: int| 0 <= k < new_order.len() - 1 implies rows_cmp(
        t,
        kc,
        desc,
        nulls_tie,
        #[trigger] new_order[k] as int,
        new_order[k + 1] as int,
        n,
    ) <= 0 && (rows_cmp(t, kc, desc, nulls_tie, new_order[k] as int, new_order[k + 1] as int, n) == 0 ==> new_order[k]
        < new_order[k + 1]) by {
        if k + 1 < j {
            assert(new_order[k] == old_order[k] && new_order[k + 1] == old_order[k + 1]);
        } else if k + 1 == j {
            assert(new_order[k] == old_order[k] && new_order[k + 1] == i);
        } else if k == j {
            assert(new_order[k] == i && new_order[k + 1] == old_order[k]);
            lemma_rows_cmp_antisym(t, kc, desc, nulls_tie, i, old_order[k] as int, n);
        } else {
            assert(new_order[k] == old_order[k - 1] && new_order[k + 1] == old_order[k]);
        }
    }
}

/// Orders the rows of `t` by the plan's keys with a stable insertion sort.
#[verifier::rlimit(60)]
pub fn sort_order(t: &Table, plan: &SortPlan) -> (order: Vec<usize>)
    requires
        t.wf(),
        plan_fits(*t, *plan),
    ensures
        is_sorted_by(*t, plan.columns@, plan.descending@, plan.nulls_tie, order@, t.height as int),
{
    let ghost kc = plan.columns@;
    let ghost desc = plan.descending@;
    let ghost nulls_tie = plan.nulls_tie;
    let ghost n = plan.columns.len() as int;
    let mut order: Vec<usize> = Vec::new();
    let mut i: usize = 0;
    while i < t.height
        invariant
            t.wf(),
            plan_fits(*t, *plan),
            kc == plan.columns@,
            desc == plan.descending@,
            nulls_tie == plan.nulls_tie,
            n == plan.columns.len(),
            0 <= i <= t.height,
            is_sorted_by(*t, kc, desc, nulls_tie, order@, i as int),
        decreases t.height - i,
    {
        let mut j = order.len();
        let mut stop = false;
        while j > 0 && !stop
            invariant
                t.wf(),
                plan_fits(*t, *plan),
                i < t.height,
                order.len() == i,
                is_sorted_by(*t, kc, desc, nulls_tie, order@, i as int),
                kc == plan.columns@,
                desc == plan.descending@,
                nulls_tie == plan.nulls_tie,
                n == plan.columns.len(),
                0 <= j <= order.len(),
                forall|m: int| j <= m < order.len() ==> plan_cmp(*t, *plan, #[trigger] order@[m] as int, i as int) > 0,
                stop ==> j > 0 && plan_cmp(*t, *plan, order@[j - 1] as int, i as int) <= 0,
            decreases j * 2 + if stop { 0usize } else { 1usize },
        {
            let o = compare_rows(t, plan, order[j - 1], i);
            if o <= 0 {
                stop = true;
            } else {
                j -= 1;
            }
        }
        let ghost old_order = order@;
        order.insert(j, i);
        proof {
            lemma_insert_sorted(*t, kc, desc, nulls_tie, old_order, j as int, i as int);
        }
        i += 1;
    }
    order
}

/// Whether nulls of column `c` show as `0` where zero filling is asked for:
/// typed numeric columns and difference columns.
pub open spec fn fills_zero(t: Table, c: int) -> bool {
    t.columns@[c].kind != crate::table::ColumnType::Text || is_difference_name(t.columns@[c].name@)
}

/// How cell `r` of column `c` is shown.
pub open spec fn shown_cell(t: Table, c: int, r: int, zero_fill: bool) -> Seq<char> {
    match t.cell(c, r) {
        Some(s) => s,
        None => if zero_fill && fills_zero(t, c) {
            seq!['0']
        } else {
            Seq::empty()
        },
    }
}

/// The rows `order` of the columns `cols`, as text.
pub open spec fn is_rendering(out: TextTable, t: Table, cols: Seq<usize>, order: Seq<usize>, zero_fill: bool) -> bool {
    &&& out.columns.len() == cols.len()
    &&& forall|q: int| 0 <= q < cols.len() ==> (#[trigger] out.columns@[q])@ == t.columns@[cols[q] as int].name@
    &&& out.rows.len() == order.len()
    &&& forall|k: int| 0 <= k < order.len() ==> (#[trigger] out.rows@[k]).len() == cols.len()
    &&& forall|k: int, q: int|
        0 <= k < order.len() && 0 <= q < cols.len() ==> (#[trigger] out.rows@[k]@[q])@ == shown_cell(
            t,
            cols[q] as int,
            order[k] as int,
            zero_fill,
        )
}

/// Renders the rows `order` of the columns `cols` as text.
pub fn render_rows(t: &Table, cols: &Vec<usize>, order: &Vec<usize>, zero_fill: bool) -> (out: TextTable)
    requires
        t.wf(),
        forall|q: int| 0 <= q < cols.len() ==> (#[trigger] cols@[q]) < t.columns.len(),
        forall|k: int| 0 <= k < order.len() ==> (#[trigger] order@[k]) < t.height,
    ensures
        is_rendering(out, *t, cols@, order@, zero_fill),
{
    let mut names: Vec<String> = Vec::new();
    let mut q: usize = 0;
    while q < cols.len()
        invariant
            forall|p: int| 0 <= p < cols.len() ==> (#[trigger] cols@[p]) < t.columns.len(),
            0 <= q <= cols.len(),
            names.len() == q,
            forall|p: int| 0 <= p < q ==> (#[trigger] names@[p])@ == t.columns@[cols@[p] as int].name@,
        decreases cols.len() - q,
    {
        names.push(t.columns[cols[q]].name.clone());
        q += 1;
    }
    let mut rows: Vec<Vec<String>> = Vec::new();
    let mut k: usize = 0;
    while k < order.len()
        invariant
            t.wf(),
            forall|p: int| 0 <= p < cols.len() ==> (#[trigger] cols@[p]) < t.columns.len(),
            forall|p: int| 0 <= p < order.len() ==> (#[trigger] order@[p]) < t.height,
            0 <= k <= order.len(),
            rows.len() == k,
            forall|p: int| 0 <= p < k ==> (#[trigger] rows@[p]).len() == cols.len(),
            forall|p: int, w: int|
                0 <= p < k && 0 <= w < cols.len() ==> (#[trigger] rows@[p]@[w])@ == shown_cell(
                    *t,
                    cols@[w] as int,
                    order@[p] as int,
                    zero_fill,
                ),
        decreases order.len() - k,
    {
        let r = order[k];
        let mut row: Vec<String> = Vec::new();
        let mut w: usize = 0;
        while w < cols.len()
            invariant
                t.wf(),
                forall|p: int| 0 <= p < cols.len() ==> (#[trigger] cols@[p]) < t.columns.len(),
                r < t.height,
                0 <= w <= cols.len(),
                row.len() == w,
                forall|p: int| 0 <= p < w ==> (#[trigger] row@[p])@ == shown_cell(*t, cols@[p] as int, r as int, zero_fill),
            decreases cols.len() - w,
        {
            let c = cols[w];
            assert(t.columns@[c as int].values.len() == t.height);
            let text = match &t.columns[c].values[r] {
                Some(s) => s.clone(),
                None => {
                    let numeric = t.columns[c].kind != crate::table::ColumnType::Text;
                    let derived = crate::difference::starts_with_prefix(&chars_of(&t.columns[c].name));
                    if zero_fill && (numeric || derived) {
                        let z = vec!['0'];
                        crate::text::string_of(&z)
                    } else {
                        String::new()
                    }
                },
            };
            row.push(text);
            w += 1;
        }
        rows.push(row);
        k += 1;
    }
    TextTable { columns: names, rows }
}

/// The columns that sort keys name, exactly.
pub open spec fn sort_columns(t: Table, keys: Seq<SortKey>) -> Seq<usize> {
    Seq::new(keys.len(), |p: int| first_index(t.names(), keys[p].column@)->Some_0 as usize)
}

pub open spec fn sort_keys_found(t: Table, keys: Seq<SortKey>) -> bool {
    forall|p: int| 0 <= p < keys.len() ==> (#[trigger] first_index(t.names(), keys[p].column@)) is Some
}

/// `out` shows the selected columns of `t`, rows sorted stably by the sort
/// keys (two cells by number when both read as numbers, else by text; nulls first).
pub open spec fn is_projection(
    out: TextTable,
    t: Table,
    sels: Seq<Seq<char>>,
    keys: Seq<SortKey>,
    loose: bool,
    zero_fill: bool,
) -> bool {
    let cols = shown_columns(t.names(), sels, loose);
    let kc = sort_columns(t, keys);
    let desc = Seq::new(keys.len(), |p: int| keys[p].order == SortOrder::Descending);
    exists|order: Seq<usize>|
        #[trigger] is_sorted_by(t, kc, desc, false, order, t.height as int) && is_rendering(out, t, cols, order, zero_fill)
}

/// Resolves sort keys to columns, exactly by name.
fn sort_plan(t: &Table, sort_keys: &Vec<SortKey>) -> (res: Result<SortPlan, PipelineError>)
    requires
        t.wf(),
    ensures
        match res {
            Ok(plan) => sort_keys_found(*t, sort_keys@) && plan_fits(*t, plan) && plan.columns@ == sort_columns(
                *t,
                sort_keys@,
            ) && plan.descending@ == Seq::new(
                sort_keys@.len(),
                |q: int| sort_keys@[q].order == SortOrder::Descending,
            ) && !plan.nulls_tie,
            Err(PipelineError::ColumnNotFound(name)) => !sort_keys_found(*t, sort_keys@) && first_index(
                t.names(),
                name@,
            ) is None,
            Err(_) => false,
        },
{
    let mut kc: Vec<usize> = Vec::new();
    let mut desc: Vec<bool> = Vec::new();
    let mut p: usize = 0;
    while p < sort_keys.len()
        invariant
            t.wf(),
            0 <= p <= sort_keys.len(),
            kc.len() == p,
            desc.len() == p,
            forall|q: int| 0 <= q < p ==> (#[trigger] first_index(t.names(), sort_keys@[q].column@)) is Some,
            kc@ == sort_columns(*t, sort_keys@).subrange(0, p as int),
            forall|q: int| 0 <= q < p ==> (#[trigger] kc@[q]) < t.columns.len(),
            forall|q: int| 0 <= q < p ==> (#[trigger] desc@[q]) == (sort_keys@[q].order == SortOrder::Descending),
        decreases sort_keys.len() - p,
    {
        match t.column_position(&sort_keys[p].column) {
            Some(c) => {
                proof {
                    lemma_first_index_found(t.names(), sort_keys@[p as int].column@);
                }
                kc.push(c);
                desc.push(sort_keys[p].order == SortOrder::Descending);
                assert(kc@ =~= sort_columns(*t, sort_keys@).subrange(0, p + 1));
            },
            None => {
                return Err(PipelineError::ColumnNotFound(sort_keys[p].column.clone()));
            },
        }
        p += 1;
    }
    assert(kc@ =~= sort_columns(*t, sort_keys@));
    let plan = SortPlan { columns: kc, descending: desc, nulls_tie: false };
    assert(plan.descending@ =~= Seq::new(sort_keys@.len(), |q: int| sort_keys@[q].order == SortOrder::Descending));
    Ok(plan)
}

/// Why a projection fails: a sort key names no column.
pub open spec fn projection_error(e: PipelineError, t: Table, keys: Seq<SortKey>) -> bool {
    match e {
        PipelineError::ColumnNotFound(name) => !sort_keys_found(t, keys) && first_index(t.names(), name@) is None,
        PipelineError::KeyNotFound(_) => false,
    }
}

/// Selects, sorts and renders a result. `loose` lets a selected name stand
/// for a column whose name contains it (after a chained join renamed it);
/// `zero_fill` shows nulls of numeric and difference columns as `0`.
pub fn project(
    t: &Table,
    selected: &Vec<String>,
    sort_keys: &Vec<SortKey>,
    loose: bool,
    zero_fill: bool,
) -> (res: Result<TextTable, PipelineError>)
    requires
        t.wf(),
    ensures
        match res {
            Ok(out) => sort_keys_found(*t, sort_keys@)
                && is_projection(out, *t, crate::join::keys_view(selected@), sort_keys@, loose, zero_fill),
            Err(e) => projection_error(e, *t, sort_keys@),
        },
{
    let cols = select_columns(t, selected, loose);
    let plan = match sort_plan(t, sort_keys) {
        Ok(p) => p,
        Err(e) => return Err(e),
    };
    let order = sort_order(t, &plan);
    let out = render_rows(t, &cols, &order, zero_fill);
    Ok(out)
}

} // verus!
