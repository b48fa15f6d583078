//! Key joins of two tables, and vertical stacking.
//!
//! A join first decides which left and right rows make each output row (the
//! row plan), then gathers the cells of every output column along that plan.
use vstd::prelude::*;
use crate::table::{
    cell_view, cells_match, copy_cell, first_index, lemma_first_index_found, same_cell, Column, PipelineError,
    Table,
};

verus! {

/// How two tables are combined.
#[derive(Clone, Copy, Debug, PartialEq, Eq, Structural)]
pub enum JoinType {
    Left,
    Right,
    Inner,
    FullOuter,
    Concat,
}

/// Every key names a column of `t`.
pub open spec fn keys_found(t: Table, keys: Seq<Seq<char>>) -> bool {
    forall|p: int| 0 <= p < keys.len() ==> (#[trigger] first_index(t.names(), keys[p])) is Some
}

/// The column of `t` that each key names.
pub open spec fn key_columns(t: Table, keys: Seq<Seq<char>>) -> Seq<usize> {
    Seq::new(keys.len(), |p: int| first_index(t.names(), keys[p])->Some_0 as usize)
}

/// Left row `i` and right row `j` agree, without nulls, on every key.
pub open spec fn rows_match(l: Table, lk: Seq<usize>, i: int, r: Table, rk: Seq<usize>, j: int) -> bool {
    forall|p: int| 0 <= p < lk.len() ==> #[trigger] cells_match(l.cell(lk[p] as int, i), r.cell(rk[p] as int, j))
}

/// The first of the right rows `0..n` that matches left row `i`.
pub open spec fn first_match(l: Table, lk: Seq<usize>, i: int, r: Table, rk: Seq<usize>, n: int) -> Option<int>
    decreases n,
{
    if n <= 0 {
        None
    } else {
        match first_match(l, lk, i, r, rk, n - 1) {
            Some(j) => Some(j),
            None => if rows_match(l, lk, i, r, rk, n - 1) {
                Some(n - 1)
            } else {
                None
            },
        }
    }
}

/// One of the left rows `0..k` has right row `j` as its first match.
pub open spec fn taken_upto(l: Table, lk: Seq<usize>, r: Table, rk: Seq<usize>, k: int, j: int) -> bool {
    exists|i: int| 0 <= i < k && #[trigger] first_match(l, lk, i, r, rk, r.height as int) == Some(j)
}

/// Some left row has right row `j` as its first match, so a left join puts
/// `j` out beside it.
pub open spec fn taken_by_left(l: Table, lk: Seq<usize>, r: Table, rk: Seq<usize>, j: int) -> bool {
    taken_upto(l, lk, r, rk, l.height as int, j)
}

pub open spec fn opt_index(o: Option<int>) -> Option<usize> {
    match o {
        Some(j) => Some(j as usize),
        None => None,
    }
}

/// Each left row once, beside its first matching right row.
pub open spec fn left_plan(l: Table, lk: Seq<usize>, r: Table, rk: Seq<usize>) -> Seq<(Option<usize>, Option<usize>)> {
    Seq::new(
        l.height as nat,
        |i: int| (Some(i as usize), opt_index(first_match(l, lk, i, r, rk, r.height as int))),
    )
}

/// The left rows `0..n` that have a match, beside their first matching right row.
pub open spec fn inner_plan(l: Table, lk: Seq<usize>, r: Table, rk: Seq<usize>, n: int) -> Seq<(Option<usize>, Option<usize>)>
    decreases n,
{
    if n <= 0 {
        Seq::empty()
    } else {
        let s = inner_plan(l, lk, r, rk, n - 1);
        match first_match(l, lk, n - 1, r, rk, r.height as int) {
            Some(j) => s.push((Some((n - 1) as usize), Some(j as usize))),
            None => s,
        }
    }
}

/// The first of the left rows `0..n` that matches right row `j`.
pub open spec fn first_left_match(l: Table, lk: Seq<usize>, r: Table, rk: Seq<usize>, j: int, n: int) -> Option<int>
    decreases n,
{
    if n <= 0 {
        None
    } else {
        match first_left_match(l, lk, r, rk, j, n - 1) {
            Some(i) => Some(i),
            None => if rows_match(l, lk, n - 1, r, rk, j) {
                Some(n - 1)
            } else {
                None
            },
        }
    }
}

/// The right rows `0..n` that no left row took as its first match, each
/// beside the first left row that matches it, or alone.
pub open spec fn untaken_plan(l: Table, lk: Seq<usize>, r: Table, rk: Seq<usize>, n: int) -> Seq<(Option<usize>, Option<usize>)>
    decreases n,
{
    if n <= 0 {
        Seq::empty()
    } else {
        let s = untaken_plan(l, lk, r, rk, n - 1);
        if taken_by_left(l, lk, r, rk, n - 1) {
            s
        } else {
            s.push((opt_index(first_left_match(l, lk, r, rk, n - 1, l.height as int)), Some((n - 1) as usize)))
        }
    }
}

/// Which rows a key join of kind `Left`, `Inner` or `FullOuter` puts out, in
/// order: a full outer join is the left join followed by every right row
/// that no left row took, beside the first left row that matches it or alone.
pub open spec fn join_plan(l: Table, lk: Seq<usize>, r: Table, rk: Seq<usize>, kind: JoinType) -> Seq<(Option<usize>, Option<usize>)> {
    match kind {
        JoinType::Inner => inner_plan(l, lk, r, rk, l.height as int),
        JoinType::FullOuter => left_plan(l, lk, r, rk) + untaken_plan(l, lk, r, rk, r.height as int),
        _ => left_plan(l, lk, r, rk),
    }
}

/// Finds the column of every key; the error names a key that `t` lacks.
pub fn resolve_keys(t: &Table, keys: &Vec<String>) -> (res: Result<Vec<usize>, PipelineError>)
    ensures
        match res {
            Ok(ks) => keys_found(*t, keys@.map_values(|k: String| k@)) && ks@ == key_columns(
                *t,
                keys@.map_values(|k: String| k@),
            ),
            Err(PipelineError::KeyNotFound(k)) => !keys_found(*t, keys@.map_values(|k: String| k@))
                && first_index(t.names(), k@) is None,
            Err(_) => false,
        },
{
    let ghost ks = keys@.map_values(|k: String| k@);
    let mut out: Vec<usize> = Vec::new();
    let mut p: usize = 0;
    while p < keys.len()
        invariant
            0 <= p <= keys.len(),
            ks == keys@.map_values(|k: String| k@),
            out@ == key_columns(*t, ks).subrange(0, p as int),
            forall|q: int| 0 <= q < p ==> (#[trigger] first_index(t.names(), ks[q])) is Some,
        decreases keys.len() - p,
    {
        match t.column_position(&keys[p]) {
            Some(c) => {
                out.push(c);
                assert(out@ =~= key_columns(*t, ks).subrange(0, p + 1));
            },
            None => {
                assert(first_index(t.names(), ks[p as int]) is None);
                return Err(PipelineError::KeyNotFound(keys[p].clone()));
            },
        }
        p += 1;
    }
    assert(out@ =~= key_columns(*t, ks));
    Ok(out)
}

/// Whether left row `i` and right row `j` agree on every key.
fn rows_agree(l: &Table, lk: &Vec<usize>, i: usize, r: &Table, rk: &Vec<usize>, j: usize) -> (res: bool)
    requires
        l.wf(),
        r.wf(),
        lk.len() == rk.len(),
        forall|p: int| 0 <= p < lk.len() ==> (#[trigger] lk@[p]) < l.columns.len(),
        forall|p: int| 0 <= p < rk.len() ==> (#[trigger] rk@[p]) < r.columns.len(),
        i < l.height,
        j < r.height,
    ensures
        res == rows_match(*l, lk@, i as int, *r, rk@, j as int),
{
    let mut p: usize = 0;
    while p < lk.len()
        invariant
            l.wf(),
            r.wf(),
            lk.len() == rk.len(),
            forall|q: int| 0 <= q < lk.len() ==> (#[trigger] lk@[q]) < l.columns.len(),
            forall|q: int| 0 <= q < rk.len() ==> (#[trigger] rk@[q]) < r.columns.len(),
            i < l.height,
            j < r.height,
            0 <= p <= lk.len(),
            forall|q: int| 0 <= q < p ==> #[trigger] cells_match(l.cell(lk@[q] as int, i as int), r.cell(rk@[q] as int, j as int)),
        decreases lk.len() - p,
    {
        let lc = lk[p];
        let rc = rk[p];
        assert(l.columns@[lc as int].values.len() == l.height);
        assert(r.columns@[rc as int].values.len() == r.height);
        if !same_cell(&l.columns[lc].values[i], &r.columns[rc].values[j]) {
            assert(!cells_match(l.cell(lk@[p as int] as int, i as int), r.cell(rk@[p as int] as int, j as int)));
            return false;
        }
        p += 1;
    }
    true
}

/// The first right row that matches left row `i`.
fn find_match(l: &Table, lk: &Vec<usize>, i: usize, r: &Table, rk: &Vec<usize>) -> (res: Option<usize>)
    requires
        l.wf(),
        r.wf(),
        lk.len() == rk.len(),
        forall|p: int| 0 <= p < lk.len() ==> (#[trigger] lk@[p]) < l.columns.len(),
        forall|p: int| 0 <= p < rk.len() ==> (#[trigger] rk@[p]) < r.columns.len(),
        i < l.height,
    ensures
        res == opt_index(first_match(*l, lk@, i as int, *r, rk@, r.height as int)),
        first_match(*l, lk@, i as int, *r, rk@, r.height as int) is Some ==> first_match(*l, lk@, i as int, *r, rk@, r.height as int)->Some_0 < r.height,
{
    let mut j: usize = 0;
    while j < r.height
        invariant
            l.wf(),
            r.wf(),
            lk.len() == rk.len(),
            forall|p: int| 0 <= p < lk.len() ==> (#[trigger] lk@[p]) < l.columns.len(),
            forall|p: int| 0 <= p < rk.len() ==> (#[trigger] rk@[p]) < r.columns.len(),
            i < l.height,
            0 <= j <= r.height,
            first_match(*l, lk@, i as int, *r, rk@, j as int) is None,
        decreases r.height - j,
    {
        if rows_agree(l, lk, i, r, rk, j) {
            proof {
                lemma_first_match_stable(*l, lk@, i as int, *r, rk@, j + 1, r.height as int);
            }
            return Some(j);
        }
        j += 1;
    }
    None
}

proof fn lemma_first_match_stable(l: Table, lk: Seq<usize>, i: int, r: Table, rk: Seq<usize>, n: int, m: int)
    requires
        0 <= n <= m,
        first_match(l, lk, i, r, rk, n) is Some,
    ensures
        first_match(l, lk, i, r, rk, m) == first_match(l, lk, i, r, rk, n),
        first_match(l, lk, i, r, rk, m)->Some_0 < n,
    decreases m - n,
{
    if n < m {
        lemma_first_match_stable(l, lk, i, r, rk, n, m - 1);
    } else {
        lemma_first_match_below(l, lk, i, r, rk, n);
    }
}

proof fn lemma_first_match_below(l: Table, lk: Seq<usize>, i: int, r: Table, rk: Seq<usize>, n: int)
    ensures
        match first_match(l, lk, i, r, rk, n) {
            Some(j) => 0 <= j < n && rows_match(l, lk, i, r, rk, j),
            None => forall|j: int| 0 <= j < n ==> !rows_match(l, lk, i, r, rk, j),
        },
    decreases n,
{
    if n > 0 {
        lemma_first_match_below(l, lk, i, r, rk, n - 1);
    }
}


pub open spec fn plan_valid(plan: Seq<(Option<usize>, Option<usize>)>, lh: int, rh: int) -> bool {
    forall|k: int|
        0 <= k < plan.len() ==> (match (#[trigger] plan[k]).0 {
            Some(i) => i < lh,
            None => true,
        }) && (match plan[k].1 {
            Some(j) => j < rh,
            None => true,
        })
}

/// The key columns of both sides are columns of those sides.
pub open spec fn keys_in_range(l: Table, lk: Seq<usize>, r: Table, rk: Seq<usize>) -> bool {
    &&& lk.len() == rk.len()
    &&& forall|p: int| 0 <= p < lk.len() ==> (#[trigger] lk[p]) < l.columns.len()
    &&& forall|p: int| 0 <= p < rk.len() ==> (#[trigger] rk[p]) < r.columns.len()
}

/// The first left row that matches right row `j`.
fn find_left_match(l: &Table, lk: &Vec<usize>, r: &Table, rk: &Vec<usize>, j: usize) -> (res: Option<usize>)
    requires
        l.wf(),
        r.wf(),
        keys_in_range(*l, lk@, *r, rk@),
        j < r.height,
    ensures
        res == opt_index(first_left_match(*l, lk@, *r, rk@, j as int, l.height as int)),
        res is Some ==> res->Some_0 < l.height,
{
    let mut i: usize = 0;
    while i < l.height
        invariant
            l.wf(),
            r.wf(),
            keys_in_range(*l, lk@, *r, rk@),
            j < r.height,
            0 <= i <= l.height,
            first_left_match(*l, lk@, *r, rk@, j as int, i as int) is None,
        decreases l.height - i,
    {
        if rows_agree(l, lk, i, r, rk, j) {
            proof {
                lemma_first_left_match_stable(*l, lk@, *r, rk@, j as int, i + 1, l.height as int);
            }
            return Some(i);
        }
        i += 1;
    }
    None
}

proof fn lemma_first_left_match_stable(l: Table, lk: Seq<usize>, r: Table, rk: Seq<usize>, j: int, n: int, m: int)
    requires
        0 <= n <= m,
        first_left_match(l, lk, r, rk, j, n) is Some,
    ensures
        first_left_match(l, lk, r, rk, j, m) == first_left_match(l, lk, r, rk, j, n),
    decreases m - n,
{
    if n < m {
        lemma_first_left_match_stable(l, lk, r, rk, j, n, m - 1);
    }
}

/// The row plan of a `Left`, `Inner` or `FullOuter` join.
fn build_plan(l: &Table, lk: &Vec<usize>, r: &Table, rk: &Vec<usize>, kind: JoinType) -> (plan: Vec<(Option<usize>, Option<usize>)>)
    requires
        l.wf(),
        r.wf(),
        keys_in_range(*l, lk@, *r, rk@),
    ensures
        plan@ == join_plan(*l, lk@, *r, rk@, kind),
        plan_valid(plan@, l.height as int, r.height as int),
{
    let inner = kind == JoinType::Inner;
    let mut plan: Vec<(Option<usize>, Option<usize>)> = Vec::new();
    let mut taken: Vec<bool> = vec![false; r.height];
    let mut i: usize = 0;
    while i < l.height
        invariant
            l.wf(),
            r.wf(),
            keys_in_range(*l, lk@, *r, rk@),
            inner == (kind == JoinType::Inner),
            0 <= i <= l.height,
            inner ==> plan@ == inner_plan(*l, lk@, *r, rk@, i as int),
            !inner ==> plan@ == left_plan(*l, lk@, *r, rk@).subrange(0, i as int),
            plan_valid(plan@, l.height as int, r.height as int),
            taken.len() == r.height,
            forall|j: int| 0 <= j < r.height ==> (#[trigger] taken@[j]) == taken_upto(*l, lk@, *r, rk@, i as int, j),
        decreases l.height - i,
    {
        let m = find_match(l, lk, i, r, rk);
        proof {
            lemma_first_match_below(*l, lk@, i as int, *r, rk@, r.height as int);
        }
        if inner {
            match m {
                Some(j) => {
                    plan.push((Some(i), Some(j)));
                },
                None => {},
            }
        } else {
            plan.push((Some(i), m));
            assert(plan@ =~= left_plan(*l, lk@, *r, rk@).subrange(0, i + 1));
        }
        let ghost before = taken@;
        match m {
            Some(j) => {
                taken[j] = true;
            },
            None => {},
        }
        proof {
            let fm = first_match(*l, lk@, i as int, *r, rk@, r.height as int);
            assert forall|j: int| 0 <= j < r.height implies (#[trigger] taken@[j]) == taken_upto(
                *l,
                lk@,
                *r,
                rk@,
                i + 1,
                j,
            ) by {
                if fm == Some(j) {
                    assert(first_match(*l, lk@, i as int, *r, rk@, r.height as int) == Some(j));
                } else {
                    assert(taken@[j] == before[j]);
                    if taken_upto(*l, lk@, *r, rk@, i + 1, j) {
                        let w = choose|w: int| 0 <= w < i + 1 && #[trigger] first_match(*l, lk@, w, *r, rk@, r.height as int) == Some(j);
                        assert(w != i);
                    }
                }
            }
        }
        i += 1;
    }
    if !inner {
        assert(plan@ =~= left_plan(*l, lk@, *r, rk@));
    }
    if kind == JoinType::FullOuter {
        let ghost head = plan@;
        let mut j: usize = 0;
        while j < r.height
            invariant
                l.wf(),
                r.wf(),
                i == l.height,
                keys_in_range(*l, lk@, *r, rk@),
                0 <= j <= r.height,
                head == left_plan(*l, lk@, *r, rk@),
                plan@ == head + untaken_plan(*l, lk@, *r, rk@, j as int),
                plan_valid(plan@, l.height as int, r.height as int),
                taken.len() == r.height,
                forall|q: int| 0 <= q < r.height ==> (#[trigger] taken@[q]) == taken_upto(*l, lk@, *r, rk@, i as int, q),
            decreases r.height - j,
        {
            if !taken[j] {
                let partner = find_left_match(l, lk, r, rk, j);
                plan.push((partner, Some(j)));
            }
            assert(plan@ =~= head + untaken_plan(*l, lk@, *r, rk@, j + 1));
            j += 1;
        }
    }
    plan
}

pub open spec fn right_suffix() -> Seq<char> {
    seq!['_', 'r', 'i', 'g', 'h', 't']
}

/// The right columns `0..n` that are not key columns.
pub open spec fn right_extra(rk: Seq<usize>, n: int) -> Seq<int>
    decreases n,
{
    if n <= 0 {
        Seq::empty()
    } else {
        let s = right_extra(rk, n - 1);
        if first_index(rk, (n - 1) as usize) is Some {
            s
        } else {
            s.push(n - 1)
        }
    }
}

/// A right column keeps its name unless the left side has it; then `_right` is appended.
pub open spec fn right_name(l: Table, name: Seq<char>) -> Seq<char> {
    if first_index(l.names(), name) is Some {
        name + right_suffix()
    } else {
        name
    }
}

/// `name` with `_right` appended while `taken` has it, at most `k` times.
pub open spec fn free_name(taken: Seq<Seq<char>>, name: Seq<char>, k: nat) -> Seq<char>
    decreases k,
{
    if k == 0 || first_index(taken, name) is None {
        name
    } else {
        free_name(taken, name + right_suffix(), (k - 1) as nat)
    }
}

/// The names of the first `e` extra right columns `ex`: each takes its
/// `right_name`, with `_right` appended again while a left column or an
/// earlier extra column has that name.
pub open spec fn extra_names(l: Table, r: Table, ex: Seq<int>, e: int) -> Seq<Seq<char>>
    decreases e,
{
    if e <= 0 {
        Seq::empty()
    } else {
        let prev = extra_names(l, r, ex, e - 1);
        let taken = l.names() + prev;
        prev.push(free_name(taken, right_name(l, r.columns@[ex[e - 1]].name@), taken.len() as nat))
    }
}

/// The cell of output column `c` for one entry of the row plan. Left columns
/// come first; a left key column of a row without a left side takes the
/// right side's key.
pub open spec fn joined_cell(
    l: Table,
    lk: Seq<usize>,
    r: Table,
    rk: Seq<usize>,
    c: int,
    pair: (Option<usize>, Option<usize>),
) -> Option<Seq<char>> {
    if c < l.width() {
        match pair.0 {
            Some(i) => l.cell(c, i as int),
            None => match (first_index(lk, c as usize), pair.1) {
                (Some(p), Some(j)) => r.cell(rk[p] as int, j as int),
                _ => None,
            },
        }
    } else {
        match pair.1 {
            Some(j) => r.cell(right_extra(rk, r.width() as int)[c - l.width()], j as int),
            None => None,
        }
    }
}

/// `t` is the key join of `l` and `r` on the key columns `lk` and `rk`.
pub open spec fn is_key_join(t: Table, l: Table, r: Table, lk: Seq<usize>, rk: Seq<usize>, kind: JoinType) -> bool {
    let plan = join_plan(l, lk, r, rk, kind);
    let extra = right_extra(rk, r.width() as int);
    &&& t.wf()
    &&& t.height == plan.len()
    &&& t.width() == l.width() + extra.len()
    &&& forall|c: int|
        0 <= c < l.width() ==> (#[trigger] t.columns@[c]).name@ == l.columns@[c].name@ && t.columns@[c].kind
            == l.columns@[c].kind
    &&& t.names() == l.names() + extra_names(l, r, extra, extra.len() as int)
    &&& forall|e: int| 0 <= e < extra.len() ==> (#[trigger] t.columns@[l.width() + e]).kind == r.columns@[extra[e]].kind
    &&& forall|c: int, k: int|
        0 <= c < t.width() && 0 <= k < t.height ==> #[trigger] t.cell(c, k) == joined_cell(l, lk, r, rk, c, plan[k])
}

fn position_in(v: &Vec<usize>, x: usize) -> (r: Option<usize>)
    ensures
        match r {
            Some(i) => first_index(v@, x) == Some(i as int),
            None => first_index(v@, x) is None,
        },
{
    let mut i: usize = 0;
    while i < v.len()
        invariant
            0 <= i <= v.len(),
            first_index(v@.subrange(0, i as int), x) is None,
        decreases v.len() - i,
    {
        assert(v@.subrange(0, i + 1).drop_last() =~= v@.subrange(0, i as int));
        if v[i] == x {
            proof {
                lemma_first_index_found(v@.subrange(0, i as int), x);
                assert forall|k: int| 0 <= k < i implies v@[k] != x by {
                    assert(v@.subrange(0, i as int)[k] == v@[k]);
                }
                crate::table::lemma_first_index_is(v@, x, i as int);
            }
            return Some(i);
        }
        i += 1;
    }
    assert(v@.subrange(0, i as int) =~= v@);
    None
}

/// The cells of output column `c` along the plan.
fn gather(
    l: &Table,
    lk: &Vec<usize>,
    r: &Table,
    rk: &Vec<usize>,
    c: usize,
    rc: usize,
    plan: &Vec<(Option<usize>, Option<usize>)>,
) -> (out: Vec<Option<String>>)
    requires
        l.wf(),
        r.wf(),
        keys_in_range(*l, lk@, *r, rk@),
        plan_valid(plan@, l.height as int, r.height as int),
        c < l.columns.len() || (rc < r.columns.len() && rc == right_extra(rk@, r.width() as int)[c - l.width()]),
    ensures
        out.len() == plan.len(),
        forall|k: int| 0 <= k < plan.len() ==> cell_view(#[trigger] out@[k]) == joined_cell(*l, lk@, *r, rk@, c as int, plan@[k]),
{
    let slot = position_in(lk, c);
    let mut out: Vec<Option<String>> = Vec::new();
    let mut k: usize = 0;
    while k < plan.len()
        invariant
            l.wf(),
            r.wf(),
            keys_in_range(*l, lk@, *r, rk@),
            plan_valid(plan@, l.height as int, r.height as int),
            c < l.columns.len() || (rc < r.columns.len() && rc == right_extra(rk@, r.width() as int)[c - l.width()]),
            match slot {
                Some(i) => first_index(lk@, c) == Some(i as int),
                None => first_index(lk@, c) is None,
            },
            0 <= k <= plan.len(),
            out.len() == k,
            forall|q: int| 0 <= q < k ==> cell_view(#[trigger] out@[q]) == joined_cell(*l, lk@, *r, rk@, c as int, plan@[q]),
        decreases plan.len() - k,
    {
        let pair = plan[k];
        assert(plan_valid(plan@, l.height as int, r.height as int) && pair == plan@[k as int]);
        let cell = if c < l.columns.len() {
            assert(l.columns@[c as int].values.len() == l.height);
            match pair.0 {
                Some(i) => {
                    let x = copy_cell(&l.columns[c].values[i]);
                    assert(cell_view(x) == l.cell(c as int, i as int));
                    assert(cell_view(x) == joined_cell(*l, lk@, *r, rk@, c as int, pair));
                    x
                },
                None => match (slot, pair.1) {
                    (Some(p), Some(j)) => {
                        proof {
                            lemma_first_index_found(lk@, c);
                            assert(first_index(lk@, c) == Some(p as int));
                            assert(((c as int) as usize) == c);
                        }
                        let src = rk[p];
                        assert(r.columns@[src as int].values.len() == r.height);
                        let x = copy_cell(&r.columns[src].values[j]);
                        assert(cell_view(x) == joined_cell(*l, lk@, *r, rk@, c as int, pair));
                        x
                    },
                    _ => {
                        assert(joined_cell(*l, lk@, *r, rk@, c as int, pair) is None);
                        None
                    },
                },
            }
        } else {
            assert(r.columns@[rc as int].values.len() == r.height);
            match pair.1 {
                Some(j) => {
                    let x = copy_cell(&r.columns[rc].values[j]);
                    assert(cell_view(x) == joined_cell(*l, lk@, *r, rk@, c as int, pair));
                    x
                },
                None => None,
            }
        };
        assert(cell_view(cell) == joined_cell(*l, lk@, *r, rk@, c as int, plan@[k as int]));
        out.push(cell);
        k += 1;
    }
    out
}


proof fn lemma_right_extra_prefix(rk: Seq<usize>, n: int, m: int)
    requires
        0 <= n <= m,
    ensures
        right_extra(rk, n).len() <= right_extra(rk, m).len(),
        right_extra(rk, n) == right_extra(rk, m).subrange(0, right_extra(rk, n).len() as int),
        forall|e: int| 0 <= e < right_extra(rk, m).len() ==> 0 <= #[trigger] right_extra(rk, m)[e] < m,
    decreases m,
{
    if m > 0 {
        if n < m {
            lemma_right_extra_prefix(rk, n, m - 1);
            let ln = right_extra(rk, n).len() as int;
            assert(right_extra(rk, m).subrange(0, ln) =~= right_extra(rk, m - 1).subrange(0, ln));
        } else {
            lemma_right_extra_prefix(rk, m - 1, m - 1);
        }
    }
    assert(right_extra(rk, m).subrange(0, right_extra(rk, m).len() as int) =~= right_extra(rk, m));
}

pub(crate) proof fn lemma_key_columns_in_range(t: Table, keys: Seq<Seq<char>>)
    requires
        keys_found(t, keys),
    ensures
        forall|p: int| 0 <= p < keys.len() ==> (#[trigger] key_columns(t, keys)[p]) < t.columns.len(),
{
    assert forall|p: int| 0 <= p < keys.len() implies (#[trigger] key_columns(t, keys)[p]) < t.columns.len() by {
        assert(first_index(t.names(), keys[p]) is Some);
        lemma_first_index_found(t.names(), keys[p]);
    }
}

/// Builds the key join from resolved key columns.
fn key_join(l: &Table, r: &Table, lk: &Vec<usize>, rk: &Vec<usize>, kind: JoinType) -> (t: Table)
    requires
        l.wf(),
        r.wf(),
        keys_in_range(*l, lk@, *r, rk@),
    ensures
        is_key_join(t, *l, *r, lk@, rk@, kind),
{
    let plan = build_plan(l, lk, r, rk, kind);
    let ghost ex = right_extra(rk@, r.width() as int);
    let mut cols: Vec<Column> = Vec::new();
    let mut c: usize = 0;
    while c < l.columns.len()
        invariant
            l.wf(),
            r.wf(),
            keys_in_range(*l, lk@, *r, rk@),
            plan@ == join_plan(*l, lk@, *r, rk@, kind),
            plan_valid(plan@, l.height as int, r.height as int),
            0 <= c <= l.columns.len(),
            cols.len() == c,
            forall|q: int|
                0 <= q < c ==> (#[trigger] cols@[q]).name@ == l.columns@[q].name@ && cols@[q].kind == l.columns@[q].kind
                    && cols@[q].values.len() == plan.len(),
            forall|q: int, k: int|
                0 <= q < c && 0 <= k < plan.len() ==> cell_view(#[trigger] cols@[q].values@[k]) == joined_cell(
                    *l,
                    lk@,
                    *r,
                    rk@,
                    q,
                    plan@[k],
                ),
        decreases l.columns.len() - c,
    {
        let values = gather(l, lk, r, rk, c, 0, &plan);
        cols.push(Column { name: l.columns[c].name.clone(), kind: l.columns[c].kind, values });
        c += 1;
    }
    assert(crate::table::names_of(cols@) =~= l.names() + extra_names(*l, *r, ex, 0));
    let mut rc: usize = 0;
    while rc < r.columns.len()
        invariant
            l.wf(),
            r.wf(),
            keys_in_range(*l, lk@, *r, rk@),
            plan@ == join_plan(*l, lk@, *r, rk@, kind),
            plan_valid(plan@, l.height as int, r.height as int),
            ex == right_extra(rk@, r.width() as int),
            0 <= rc <= r.columns.len(),
            cols.len() == l.columns.len() + right_extra(rk@, rc as int).len(),
            right_extra(rk@, rc as int) == ex.subrange(0, right_extra(rk@, rc as int).len() as int),
            forall|q: int|
                0 <= q < l.columns.len() ==> (#[trigger] cols@[q]).name@ == l.columns@[q].name@ && cols@[q].kind
                    == l.columns@[q].kind,
            crate::table::names_of(cols@) == l.names() + extra_names(*l, *r, ex, right_extra(rk@, rc as int).len() as int),
            forall|e: int|
                0 <= e < right_extra(rk@, rc as int).len() ==> (#[trigger] cols@[l.width() + e]).kind == r.columns@[ex[e]].kind,
            forall|q: int| 0 <= q < cols.len() ==> (#[trigger] cols@[q]).values.len() == plan.len(),
            forall|q: int, k: int|
                0 <= q < cols.len() && 0 <= k < plan.len() ==> cell_view(#[trigger] cols@[q].values@[k]) == joined_cell(
                    *l,
                    lk@,
                    *r,
                    rk@,
                    q,
                    plan@[k],
                ),
        decreases r.columns.len() - rc,
    {
        proof {
            lemma_right_extra_prefix(rk@, rc + 1, r.width() as int);
        }
        if position_in(rk, rc).is_none() {
            let ghost e = right_extra(rk@, rc as int).len();
            assert(right_extra(rk@, rc + 1) == right_extra(rk@, rc as int).push(rc as int));
            assert(ex.subrange(0, e + 1 as int)[e as int] == ex[e as int]);
            assert(ex[e as int] == rc);
            let src = &r.columns[rc];
            let name = if l.column_position(&src.name).is_some() {
                proof {
                    reveal_strlit("_right");
                }
                let n = src.name.clone().concat("_right");
                assert(n@ == src.name@ + right_suffix());
                n
            } else {
                src.name.clone()
            };
            let name = free_name_of(&cols, name);
            let values = gather(l, lk, r, rk, cols.len(), rc, &plan);
            let ghost before = cols@;
            cols.push(Column { name, kind: src.kind, values });
            assert(crate::table::names_of(cols@) =~= crate::table::names_of(before).push(name@));
            assert(l.names() + extra_names(*l, *r, ex, e + 1 as int) =~= (l.names() + extra_names(*l, *r, ex, e as int)).push(name@));
        } else {
            assert(right_extra(rk@, rc + 1) == right_extra(rk@, rc as int));
        }
        rc += 1;
    }
    assert(right_extra(rk@, rc as int) == ex);
    Table { columns: cols, height: plan.len() }
}

/// Whether one of `cols` is called `name`.
fn name_taken(cols: &Vec<Column>, name: &String) -> (r: bool)
    ensures
        r == first_index(crate::table::names_of(cols@), name@) is Some,
{
    let ghost names = crate::table::names_of(cols@);
    let mut i: usize = 0;
    while i < cols.len()
        invariant
            names == crate::table::names_of(cols@),
            0 <= i <= cols.len(),
            forall|k: int| 0 <= k < i ==> names[k] != name@,
        decreases cols.len() - i,
    {
        if cols[i].name == *name {
            proof {
                lemma_first_index_found(names, name@);
                assert(names[i as int] == name@);
            }
            return true;
        }
        i += 1;
    }
    proof {
        lemma_first_index_found(names, name@);
    }
    false
}

/// `name`, with `_right` appended while one of `cols` has it.
fn free_name_of(cols: &Vec<Column>, name: String) -> (r: String)
    ensures
        r@ == free_name(crate::table::names_of(cols@), name@, cols.len() as nat),
{
    let ghost taken = crate::table::names_of(cols@);
    let ghost goal = free_name(taken, name@, cols.len() as nat);
    let mut n = name;
    let mut k = cols.len();
    while k > 0 && name_taken(cols, &n)
        invariant
            taken == crate::table::names_of(cols@),
            goal == free_name(taken, n@, k as nat),
        decreases k,
    {
        proof {
            reveal_strlit("_right");
        }
        let ghost before = n@;
        n = n.concat("_right");
        assert(n@ == before + right_suffix());
        assert(free_name(taken, before, k as nat) == free_name(taken, n@, (k - 1) as nat));
        k -= 1;
    }
    n
}

/// What a key join hands back: the joined table when every key names a
/// column on both sides, else `KeyNotFound` with a key that one side lacks.
pub open spec fn join_outcome(
    res: Result<Table, PipelineError>,
    l: Table,
    r: Table,
    keys: Seq<Seq<char>>,
    kind: JoinType,
) -> bool {
    match res {
        Ok(t) => keys_found(l, keys) && keys_found(r, keys) && is_key_join(
            t,
            l,
            r,
            key_columns(l, keys),
            key_columns(r, keys),
            kind,
        ),
        Err(PipelineError::KeyNotFound(k)) => !(keys_found(l, keys) && keys_found(r, keys)) && (first_index(
            l.names(),
            k@,
        ) is None || first_index(r.names(), k@) is None),
        Err(_) => false,
    }
}

pub open spec fn keys_view(keys: Seq<String>) -> Seq<Seq<char>> {
    keys.map_values(|k: String| k@)
}

/// The right columns `0..n` whose names the left side lacks.
pub open spec fn stacked_extra(l: Table, r: Table, n: int) -> Seq<int>
    decreases n,
{
    if n <= 0 {
        Seq::empty()
    } else {
        let s = stacked_extra(l, r, n - 1);
        if first_index(l.names(), r.columns@[n - 1].name@) is Some {
            s
        } else {
            s.push(n - 1)
        }
    }
}

/// The cell of output column `c`, row `k` of stacking `r` under `l`: right
/// rows fill each column from the right column of the same name.
pub open spec fn stacked_cell(l: Table, r: Table, c: int, k: int) -> Option<Seq<char>> {
    if k < l.height {
        if c < l.width() {
            l.cell(c, k)
        } else {
            None
        }
    } else {
        let name = if c < l.width() {
            l.columns@[c].name@
        } else {
            r.columns@[stacked_extra(l, r, r.width() as int)[c - l.width()]].name@
        };
        match first_index(r.names(), name) {
            Some(rc) => r.cell(rc, k - l.height),
            None => None,
        }
    }
}

/// `t` holds the rows of `l`, then those of `r`, under the left columns
/// followed by the right columns that the left lacks.
pub open spec fn is_stacked(t: Table, l: Table, r: Table) -> bool {
    let extra = stacked_extra(l, r, r.width() as int);
    &&& t.wf()
    &&& t.height == l.height + r.height
    &&& t.width() == l.width() + extra.len()
    &&& forall|c: int|
        0 <= c < l.width() ==> (#[trigger] t.columns@[c]).name@ == l.columns@[c].name@ && t.columns@[c].kind
            == l.columns@[c].kind
    &&& forall|e: int|
        0 <= e < extra.len() ==> (#[trigger] t.columns@[l.width() + e]).name@ == r.columns@[extra[e]].name@
            && t.columns@[l.width() + e].kind == r.columns@[extra[e]].kind
    &&& forall|c: int, k: int| 0 <= c < t.width() && 0 <= k < t.height ==> #[trigger] t.cell(c, k) == stacked_cell(l, r, c, k)
}

proof fn lemma_stacked_extra_prefix(l: Table, r: Table, n: int, m: int)
    requires
        0 <= n <= m <= r.columns.len(),
    ensures
        stacked_extra(l, r, n).len() <= stacked_extra(l, r, m).len(),
        stacked_extra(l, r, n) == stacked_extra(l, r, m).subrange(0, stacked_extra(l, r, n).len() as int),
    decreases m,
{
    if m > 0 && n < m {
        lemma_stacked_extra_prefix(l, r, n, m - 1);
        let ln = stacked_extra(l, r, n).len() as int;
        assert(stacked_extra(l, r, m).subrange(0, ln) =~= stacked_extra(l, r, m - 1).subrange(0, ln));
    }
    assert(stacked_extra(l, r, m).subrange(0, stacked_extra(l, r, m).len() as int) =~= stacked_extra(l, r, m));
}

/// One output column of the stack: `left` values (or nulls), then the right
/// column called `name`.
fn stack_column(l: &Table, r: &Table, left: Option<usize>, name: &String) -> (out: Vec<Option<String>>)
    requires
        l.wf(),
        r.wf(),
        l.height + r.height <= usize::MAX,
        match left {
            Some(c) => c < l.columns.len(),
            None => true,
        },
    ensures
        out.len() == l.height + r.height,
        forall|k: int|
            0 <= k < l.height ==> cell_view(#[trigger] out@[k]) == match left {
                Some(c) => l.cell(c as int, k),
                None => None,
            },
        forall|k: int|
            l.height <= k < l.height + r.height ==> cell_view(#[trigger] out@[k]) == match first_index(r.names(), name@) {
                Some(rc) => r.cell(rc, k - l.height),
                None => None,
            },
{
    let mut out: Vec<Option<String>> = Vec::new();
    let mut k: usize = 0;
    while k < l.height
        invariant
            l.wf(),
            0 <= k <= l.height,
            out.len() == k,
            match left {
                Some(c) => c < l.columns.len(),
                None => true,
            },
            forall|q: int|
                0 <= q < k ==> cell_view(#[trigger] out@[q]) == match left {
                    Some(c) => l.cell(c as int, q),
                    None => None,
                },
        decreases l.height - k,
    {
        match left {
            Some(c) => {
                assert(l.columns@[c as int].values.len() == l.height);
                out.push(copy_cell(&l.columns[c].values[k]));
            },
            None => out.push(None),
        }
        k += 1;
    }
    let src = r.column_position(name);
    let mut j: usize = 0;
    while j < r.height
        invariant
            l.wf(),
            r.wf(),
            l.height + r.height <= usize::MAX,
            0 <= j <= r.height,
            out.len() == l.height + j,
            match src {
                Some(i) => first_index(r.names(), name@) == Some(i as int),
                None => first_index(r.names(), name@) is None,
            },
            forall|q: int|
                0 <= q < l.height ==> cell_view(#[trigger] out@[q]) == match left {
                    Some(c) => l.cell(c as int, q),
                    None => None,
                },
            forall|q: int|
                l.height <= q < l.height + j ==> cell_view(#[trigger] out@[q]) == match first_index(r.names(), name@) {
                    Some(rc) => r.cell(rc, q - l.height),
                    None => None,
                },
        decreases r.height - j,
    {
        match src {
            Some(rc) => {
                proof {
                    lemma_first_index_found(r.names(), name@);
                }
                assert(r.columns@[rc as int].values.len() == r.height);
                out.push(copy_cell(&r.columns[rc].values[j]));
            },
            None => out.push(None),
        }
        j += 1;
    }
    out
}

/// Stacks the rows of `r` under those of `l`.
fn stack(l: &Table, r: &Table) -> (t: Table)
    requires
        l.wf(),
        r.wf(),
        l.height + r.height <= usize::MAX,
    ensures
        is_stacked(t, *l, *r),
{
    let ghost ex = stacked_extra(*l, *r, r.width() as int);
    let mut cols: Vec<Column> = Vec::new();
    let mut c: usize = 0;
    while c < l.columns.len()
        invariant
            l.wf(),
            r.wf(),
            l.height + r.height <= usize::MAX,
            0 <= c <= l.columns.len(),
            cols.len() == c,
            forall|q: int|
                0 <= q < c ==> (#[trigger] cols@[q]).name@ == l.columns@[q].name@ && cols@[q].kind == l.columns@[q].kind
                    && cols@[q].values.len() == l.height + r.height,
            forall|q: int, k: int|
                0 <= q < c && 0 <= k < l.height + r.height ==> cell_view(#[trigger] cols@[q].values@[k]) == stacked_cell(
                    *l,
                    *r,
                    q,
                    k,
                ),
        decreases l.columns.len() - c,
    {
        let values = stack_column(l, r, Some(c), &l.columns[c].name);
        cols.push(Column { name: l.columns[c].name.clone(), kind: l.columns[c].kind, values });
        c += 1;
    }
    let mut rc: usize = 0;
    while rc < r.columns.len()
        invariant
            l.wf(),
            r.wf(),
            l.height + r.height <= usize::MAX,
            ex == stacked_extra(*l, *r, r.width() as int),
            0 <= rc <= r.columns.len(),
            cols.len() == l.columns.len() + stacked_extra(*l, *r, rc as int).len(),
            stacked_extra(*l, *r, rc as int) == ex.subrange(0, stacked_extra(*l, *r, rc as int).len() as int),
            forall|q: int|
                0 <= q < l.columns.len() ==> (#[trigger] cols@[q]).name@ == l.columns@[q].name@ && cols@[q].kind
                    == l.columns@[q].kind,
            forall|e: int|
                0 <= e < stacked_extra(*l, *r, rc as int).len() ==> (#[trigger] cols@[l.width() + e]).name@
                    == r.columns@[ex[e]].name@ && cols@[l.width() + e].kind == r.columns@[ex[e]].kind,
            forall|q: int| 0 <= q < cols.len() ==> (#[trigger] cols@[q]).values.len() == l.height + r.height,
            forall|q: int, k: int|
                0 <= q < cols.len() && 0 <= k < l.height + r.height ==> cell_view(#[trigger] cols@[q].values@[k])
                    == stacked_cell(*l, *r, q, k),
        decreases r.columns.len() - rc,
    {
        proof {
            lemma_stacked_extra_prefix(*l, *r, rc + 1, r.width() as int);
        }
        let src = &r.columns[rc];
        if l.column_position(&src.name).is_none() {
            let ghost e = stacked_extra(*l, *r, rc as int).len();
            assert(stacked_extra(*l, *r, rc + 1) == stacked_extra(*l, *r, rc as int).push(rc as int));
            assert(ex.subrange(0, e + 1 as int)[e as int] == ex[e as int]);
            assert(ex[e as int] == rc);
            let values = stack_column(l, r, None, &src.name);
            cols.push(Column { name: src.name.clone(), kind: src.kind, values });
        } else {
            assert(stacked_extra(*l, *r, rc + 1) == stacked_extra(*l, *r, rc as int));
        }
        rc += 1;
    }
    assert(stacked_extra(*l, *r, rc as int) == ex);
    Table { columns: cols, height: l.height + r.height }
}

/// Combines two tables. `Right` is a `Left` join with the sides exchanged;
/// `Concat` stacks the rows and ignores the keys.
pub fn join(left: &Table, right: &Table, keys: &Vec<String>, kind: JoinType) -> (res: Result<Table, PipelineError>)
    requires
        left.wf(),
        right.wf(),
        kind == JoinType::Concat ==> left.height + right.height <= usize::MAX,
        kind != JoinType::Concat ==> keys.len() > 0,
    ensures
        kind == JoinType::Concat ==> res is Ok && is_stacked(res->Ok_0, *left, *right),
        kind == JoinType::Right ==> join_outcome(res, *right, *left, keys_view(keys@), JoinType::Left),
        kind == JoinType::Left || kind == JoinType::Inner || kind == JoinType::FullOuter ==> join_outcome(
            res,
            *left,
            *right,
            keys_view(keys@),
            kind,
        ),
{
    if kind == JoinType::Concat {
        return Ok(stack(left, right));
    }
    let (l, r, k) = if kind == JoinType::Right {
        (right, left, JoinType::Left)
    } else {
        (left, right, kind)
    };
    let lk = match resolve_keys(l, keys) {
        Ok(v) => v,
        Err(e) => return Err(e),
    };
    let rk = match resolve_keys(r, keys) {
        Ok(v) => v,
        Err(e) => return Err(e),
    };
    proof {
        lemma_key_columns_in_range(*l, keys_view(keys@));
        lemma_key_columns_in_range(*r, keys_view(keys@));
    }
    Ok(key_join(l, r, &lk, &rk, k))
}


/// How many of the left rows `0..n` match some right row.
pub open spec fn rows_with_match(l: Table, lk: Seq<usize>, r: Table, rk: Seq<usize>, n: int) -> nat
    decreases n,
{
    if n <= 0 {
        0
    } else {
        rows_with_match(l, lk, r, rk, n - 1) + if first_match(l, lk, n - 1, r, rk, r.height as int) is Some {
            1nat
        } else {
            0nat
        }
    }
}

proof fn lemma_inner_plan(l: Table, lk: Seq<usize>, r: Table, rk: Seq<usize>, n: int)
    requires
        0 <= n <= l.height,
    ensures
        inner_plan(l, lk, r, rk, n).len() == rows_with_match(l, lk, r, rk, n),
        rows_with_match(l, lk, r, rk, n) <= n,
        forall|k: int|
            0 <= k < inner_plan(l, lk, r, rk, n).len() ==> {
                let pair = #[trigger] inner_plan(l, lk, r, rk, n)[k];
                &&& pair.0 is Some
                &&& pair.1 is Some
                &&& pair.0->Some_0 < n
                &&& pair.1->Some_0 < r.height
                &&& rows_match(l, lk, pair.0->Some_0 as int, r, rk, pair.1->Some_0 as int)
            },
    decreases n,
{
    if n > 0 {
        lemma_inner_plan(l, lk, r, rk, n - 1);
        lemma_first_match_below(l, lk, n - 1, r, rk, r.height as int);
        let prev = inner_plan(l, lk, r, rk, n - 1);
        let cur = inner_plan(l, lk, r, rk, n);
        assert forall|k: int| 0 <= k < cur.len() implies {
            let pair = #[trigger] cur[k];
            &&& pair.0 is Some
            &&& pair.1 is Some
            &&& pair.0->Some_0 < n
            &&& pair.1->Some_0 < r.height
            &&& rows_match(l, lk, pair.0->Some_0 as int, r, rk, pair.1->Some_0 as int)
        } by {
            if k < prev.len() {
                assert(cur[k] == prev[k]);
            }
        }
    }
}

/// The key cells of output row `k` of `t` are those of row `i` of `a`, and
/// match those of row `j` of `b`.
pub open spec fn keys_come_from(t: Table, k: int, a: Table, i: int, b: Table, j: int, keys: Seq<Seq<char>>) -> bool {
    &&& 0 <= i < a.height
    &&& 0 <= j < b.height
    &&& forall|p: int|
        0 <= p < keys.len() ==> {
            let lc = #[trigger] key_columns(a, keys)[p] as int;
            &&& t.cell(lc, k) == a.cell(lc, i)
            &&& cells_match(a.cell(lc, i), b.cell(key_columns(b, keys)[p] as int, j))
        }
}

/// Some row of `a` and some row of `b` carry the key cells of row `k` of `t`.
pub open spec fn keys_occur_in_both(t: Table, k: int, a: Table, b: Table, keys: Seq<Seq<char>>) -> bool {
    exists|i: int, j: int| #[trigger] keys_come_from(t, k, a, i, b, j, keys)
}

/// A left join puts out exactly one row for each left row.
pub proof fn left_join_row_count(a: Table, b: Table, keys: Seq<Seq<char>>, t: Table)
    requires
        a.wf(),
        b.wf(),
        join_outcome(Ok(t), a, b, keys, JoinType::Left),
    ensures
        t.height == a.height,
{
}

/// An inner join has one row for each left row that matches, so no more rows
/// than the left table; the key cells of every row occur, matched, in a row
/// of each table.
pub proof fn inner_join_rows(a: Table, b: Table, keys: Seq<Seq<char>>, t: Table)
    requires
        a.wf(),
        b.wf(),
        join_outcome(Ok(t), a, b, keys, JoinType::Inner),
    ensures
        t.height == rows_with_match(a, key_columns(a, keys), b, key_columns(b, keys), a.height as int),
        t.height <= a.height,
        forall|k: int| 0 <= k < t.height ==> #[trigger] keys_occur_in_both(t, k, a, b, keys),
{
    let lk = key_columns(a, keys);
    let rk = key_columns(b, keys);
    lemma_inner_plan(a, lk, b, rk, a.height as int);
    lemma_key_columns_in_range(a, keys);
    assert forall|k: int| 0 <= k < t.height implies #[trigger] keys_occur_in_both(t, k, a, b, keys) by {
        let pair = inner_plan(a, lk, b, rk, a.height as int)[k];
        let i = pair.0->Some_0 as int;
        let j = pair.1->Some_0 as int;
        assert forall|p: int| 0 <= p < keys.len() implies {
            let lc = #[trigger] key_columns(a, keys)[p] as int;
            &&& t.cell(lc, k) == a.cell(lc, i)
            &&& cells_match(a.cell(lc, i), b.cell(key_columns(b, keys)[p] as int, j))
        } by {
            let lc = key_columns(a, keys)[p] as int;
            assert(t.cell(lc, k) == joined_cell(a, lk, b, rk, lc, pair));
            assert(cells_match(a.cell(lk[p] as int, i), b.cell(rk[p] as int, j)));
        }
        assert(keys_come_from(t, k, a, i, b, j, keys));
    }
}

/// A full outer join has every row of the left join, then one row for each
/// right row that no left row took as its first match.
pub proof fn full_outer_covers_left(a: Table, b: Table, keys: Seq<Seq<char>>, full: Table, left: Table)
    requires
        a.wf(),
        b.wf(),
        join_outcome(Ok(full), a, b, keys, JoinType::FullOuter),
        join_outcome(Ok(left), a, b, keys, JoinType::Left),
    ensures
        full.height >= left.height,
        full.height == left.height + untaken_plan(
            a,
            key_columns(a, keys),
            b,
            key_columns(b, keys),
            b.height as int,
        ).len(),
{
}


pub open spec fn taken_rows(a: Table, lk: Seq<usize>, b: Table, rk: Seq<usize>, n: int) -> Set<int> {
    Set::new(|j: int| 0 <= j < n && taken_by_left(a, lk, b, rk, j))
}

proof fn lemma_unmatched_count(a: Table, lk: Seq<usize>, b: Table, rk: Seq<usize>, n: int)
    requires
        0 <= n,
    ensures
        taken_rows(a, lk, b, rk, n).finite(),
        untaken_plan(a, lk, b, rk, n).len() + taken_rows(a, lk, b, rk, n).len() == n,
    decreases n,
{
    if n == 0 {
        assert(taken_rows(a, lk, b, rk, n) =~= Set::empty());
    } else {
        lemma_unmatched_count(a, lk, b, rk, n - 1);
        let prev = taken_rows(a, lk, b, rk, n - 1);
        if taken_by_left(a, lk, b, rk, n - 1) {
            assert(taken_rows(a, lk, b, rk, n) =~= prev.insert(n - 1));
            assert(!prev.contains(n - 1));
        } else {
            assert(taken_rows(a, lk, b, rk, n) =~= prev);
        }
    }
}

/// A full outer join has at least as many rows as the right table, which is
/// what the left join with the sides exchanged puts out: each right row is
/// either some left row's first match or a row of its own.
pub proof fn full_outer_covers_right(a: Table, b: Table, keys: Seq<Seq<char>>, full: Table, swapped: Table)
    requires
        a.wf(),
        b.wf(),
        join_outcome(Ok(full), a, b, keys, JoinType::FullOuter),
        join_outcome(Ok(swapped), b, a, keys, JoinType::Left),
    ensures
        full.height >= swapped.height,
        swapped.height == b.height,
{
    let lk = key_columns(a, keys);
    let rk = key_columns(b, keys);
    let n = b.height as int;
    let m = a.height as int;
    lemma_unmatched_count(a, lk, b, rk, n);
    let taken = taken_rows(a, lk, b, rk, n);
    let with_match = Set::new(|i: int| 0 <= i < m && first_match(a, lk, i, b, rk, n) is Some);
    let g = |i: int| first_match(a, lk, i, b, rk, n)->Some_0;
    vstd::set_lib::lemma_int_range(0, m);
    assert(with_match.subset_of(vstd::set_lib::set_int_range(0, m)));
    vstd::set_lib::lemma_len_subset(with_match, vstd::set_lib::set_int_range(0, m));
    assert forall|j: int| #[trigger] taken.contains(j) == with_match.map(g).contains(j) by {
        if taken.contains(j) {
            let i = choose|i: int| 0 <= i < m && #[trigger] first_match(a, lk, i, b, rk, n) == Some(j);
            assert(with_match.contains(i) && g(i) == j);
        }
        if with_match.map(g).contains(j) {
            let i = choose|i: int| with_match.contains(i) && g(i) == j;
            lemma_first_match_below(a, lk, i, b, rk, n);
            assert(first_match(a, lk, i, b, rk, n) == Some(j));
        }
    }
    assert(taken =~= with_match.map(g));
    vstd::set_lib::lemma_map_size_bound(with_match, taken, g);
}

/// `name` with `_right` appended `i` times.
pub open spec fn suffixed(name: Seq<char>, i: nat) -> Seq<char>
    decreases i,
{
    if i == 0 {
        name
    } else {
        suffixed(name, (i - 1) as nat) + right_suffix()
    }
}

proof fn lemma_suffixed(name: Seq<char>, i: nat)
    ensures
        suffixed(name, i).len() == name.len() + 6 * i,
        suffixed(name + right_suffix(), i) == suffixed(name, i + 1),
    decreases i,
{
    if i > 0 {
        lemma_suffixed(name, (i - 1) as nat);
    }
}

proof fn lemma_free_name_taken(taken: Seq<Seq<char>>, name: Seq<char>, k: nat)
    ensures
        first_index(taken, free_name(taken, name, k)) is Some ==> forall|i: nat|
            i <= k ==> taken.contains(#[trigger] suffixed(name, i)),
    decreases k,
{
    lemma_first_index_found(taken, name);
    lemma_first_index_found(taken, free_name(taken, name, k));
    if k > 0 && first_index(taken, name) is Some {
        lemma_free_name_taken(taken, name + right_suffix(), (k - 1) as nat);
        if first_index(taken, free_name(taken, name, k)) is Some {
            assert forall|i: nat| i <= k implies taken.contains(#[trigger] suffixed(name, i)) by {
                if i > 0 {
                    lemma_suffixed(name, (i - 1) as nat);
                    assert(taken.contains(suffixed(name + right_suffix(), (i - 1) as nat)));
                } else {
                    let w = first_index(taken, name)->Some_0;
                    assert(taken[w] == name);
                }
            }
        }
    } else if first_index(taken, free_name(taken, name, k)) is Some {
        assert forall|i: nat| i <= k implies taken.contains(#[trigger] suffixed(name, i)) by {
            let w = first_index(taken, name)->Some_0;
            assert(taken[w] == name);
        }
    }
}

/// Appending `_right` as many times as there are taken names ends on a free name.
proof fn lemma_free_name_free(taken: Seq<Seq<char>>, name: Seq<char>)
    ensures
        first_index(taken, free_name(taken, name, taken.len() as nat)) is None,
{
    let k = taken.len() as nat;
    lemma_free_name_taken(taken, name, k);
    if first_index(taken, free_name(taken, name, k)) is Some {
        let f = |i: int| suffixed(name, i as nat);
        let range = vstd::set_lib::set_int_range(0, k + 1 as int);
        vstd::set_lib::lemma_int_range(0, k + 1 as int);
        assert forall|i: int, j: int| range.contains(i) && range.contains(j) && #[trigger] f(i) == #[trigger] f(j) implies i == j by {
            lemma_suffixed(name, i as nat);
            lemma_suffixed(name, j as nat);
        }
        assert(vstd::relations::injective_on(f, range));
        vstd::set_lib::lemma_map_size(range, range.map(f), f);
        assert forall|x: Seq<char>| range.map(f).contains(x) implies taken.to_set().contains(x) by {
            let i = choose|i: int| range.contains(i) && f(i) == x;
            assert(taken.contains(suffixed(name, i as nat)));
        }
        taken.lemma_cardinality_of_set();
        vstd::set_lib::lemma_len_subset(range.map(f), taken.to_set());
    }
}

pub open spec fn distinct_names(names: Seq<Seq<char>>) -> bool {
    forall|i: int, j: int| 0 <= i < j < names.len() ==> names[i] != names[j]
}

proof fn lemma_extra_names_distinct(l: Table, r: Table, ex: Seq<int>, e: int)
    requires
        distinct_names(l.names()),
        0 <= e,
    ensures
        distinct_names(l.names() + extra_names(l, r, ex, e)),
    decreases e,
{
    if e > 0 {
        lemma_extra_names_distinct(l, r, ex, e - 1);
        let taken = l.names() + extra_names(l, r, ex, e - 1);
        let name = free_name(taken, right_name(l, r.columns@[ex[e - 1]].name@), taken.len() as nat);
        lemma_free_name_free(taken, right_name(l, r.columns@[ex[e - 1]].name@));
        lemma_first_index_found(taken, name);
        assert(l.names() + extra_names(l, r, ex, e) =~= taken.push(name));
    } else {
        assert(l.names() + extra_names(l, r, ex, e) =~= l.names());
    }
}

/// A key join keeps column names distinct: when the left table's names are
/// distinct, so are the joined table's.
pub proof fn joined_names_distinct(t: Table, l: Table, r: Table, lk: Seq<usize>, rk: Seq<usize>, kind: JoinType)
    requires
        is_key_join(t, l, r, lk, rk, kind),
        distinct_names(l.names()),
    ensures
        distinct_names(t.names()),
{
    let extra = right_extra(rk, r.width() as int);
    lemma_extra_names_distinct(l, r, extra, extra.len() as int);
}

} // verus!
