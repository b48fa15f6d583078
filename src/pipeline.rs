//! The whole merge: join the inputs as the mode asks, add difference columns
//! for period comparison, then select, sort and render.
use vstd::prelude::*;
use crate::difference::{add_difference_columns, difference_name, is_with_differences};
use crate::join::{join, join_outcome, keys_view, right_suffix, JoinType};
use crate::projection::{is_projection, project, projection_error, SortKey, TextTable};
use crate::table::{first_index, PipelineError, Table};
use crate::text::{chars_of, string_of};

verus! {

/// The workflow that a merge follows.
#[derive(Clone, Copy, Debug, PartialEq, Eq, Structural)]
pub enum MergeMode {
    /// One binary join of the picked kind.
    Plain,
    /// Current against previous period: a full outer join with difference columns.
    ZennenTaihi,
    /// Three tables joined left, then left again.
    MultiStageJoin,
    /// One table grouped and split for export.
    SplitSave,
}

/// Joins `a` with `b` on `stage1_keys`, then the result with `c` on
/// `stage2_keys`, both as left joins.
pub fn join_stages(
    a: &Table,
    b: &Table,
    c: &Table,
    stage1_keys: &Vec<String>,
    stage2_keys: &Vec<String>,
) -> (res: Result<Table, PipelineError>)
    requires
        a.wf(),
        b.wf(),
        c.wf(),
        stage1_keys.len() > 0,
        stage2_keys.len() > 0,
    ensures
        match res {
            Ok(t) => exists|ab: Table|
                join_outcome(Ok(ab), *a, *b, keys_view(stage1_keys@), JoinType::Left) && #[trigger] join_outcome(
                    Ok(t),
                    ab,
                    *c,
                    keys_view(stage2_keys@),
                    JoinType::Left,
                ),
            Err(e) => join_outcome(Err(e), *a, *b, keys_view(stage1_keys@), JoinType::Left) || exists|ab: Table|
                join_outcome(Ok(ab), *a, *b, keys_view(stage1_keys@), JoinType::Left) && #[trigger] join_outcome(
                    Err(e),
                    ab,
                    *c,
                    keys_view(stage2_keys@),
                    JoinType::Left,
                ),
        },
{
    let ab = match join(a, b, stage1_keys, JoinType::Left) {
        Ok(t) => t,
        Err(e) => return Err(e),
    };
    let r = join(&ab, c, stage2_keys, JoinType::Left);
    proof {
        if r is Ok {
            let t = r->Ok_0;
            assert(join_outcome(Ok(ab), *a, *b, keys_view(stage1_keys@), JoinType::Left));
            assert(join_outcome(Ok(t), ab, *c, keys_view(stage2_keys@), JoinType::Left));
        } else {
            let e = r->Err_0;
            assert(join_outcome(Err(e), ab, *c, keys_view(stage2_keys@), JoinType::Left));
        }
    }
    r
}

/// The columns shown for each selected name in period comparison: the
/// current column, its previous column and their difference, where present.
pub open spec fn comparison_names(names: Seq<Seq<char>>, selected: Seq<Seq<char>>, n: int) -> Seq<Seq<char>>
    decreases n,
{
    if n <= 0 {
        Seq::empty()
    } else {
        let s = comparison_names(names, selected, n - 1);
        let x = selected[n - 1];
        let s1 = if first_index(names, x) is Some && !s.contains(x) { s.push(x) } else { s };
        let xr = x + right_suffix();
        let s2 = if first_index(names, xr) is Some && !s1.contains(xr) { s1.push(xr) } else { s1 };
        let d = difference_name(x);
        if first_index(names, d) is Some && !s2.contains(d) { s2.push(d) } else { s2 }
    }
}

fn push_if_new(out: &mut Vec<String>, t: &Table, name: String)
    ensures
        final(out)@.map_values(|s: String| s@) == if first_index(t.names(), name@) is Some && !old(out)@.map_values(
            |s: String| s@,
        ).contains(name@) {
            old(out)@.map_values(|s: String| s@).push(name@)
        } else {
            old(out)@.map_values(|s: String| s@)
        },
{
    if t.column_position(&name).is_none() {
        return;
    }
    let ghost before = out@.map_values(|s: String| s@);
    let mut k: usize = 0;
    while k < out.len()
        invariant
            0 <= k <= out.len(),
            before == out@.map_values(|s: String| s@),
            forall|q: int| 0 <= q < k ==> out@[q]@ != name@,
        decreases out.len() - k,
    {
        if out[k] == name {
            assert(before[k as int] == name@);
            return;
        }
        k += 1;
    }
    assert(!before.contains(name@)) by {
        if before.contains(name@) {
            let w = choose|w: int| 0 <= w < before.len() && before[w] == name@;
            assert(out@[w]@ == name@);
        }
    }
    out.push(name);
    assert(out@.map_values(|s: String| s@) =~= before.push(name@));
}

/// Picks the comparison columns of `t` for the selected names.
pub fn comparison_columns(t: &Table, selected: &Vec<String>) -> (r: Vec<String>)
    ensures
        r@.map_values(|s: String| s@) == comparison_names(t.names(), keys_view(selected@), selected.len() as int),
{
    let mut out: Vec<String> = Vec::new();
    let mut p: usize = 0;
    while p < selected.len()
        invariant
            0 <= p <= selected.len(),
            out@.map_values(|s: String| s@) == comparison_names(t.names(), keys_view(selected@), p as int),
        decreases selected.len() - p,
    {
        let x = &selected[p];
        push_if_new(&mut out, t, x.clone());
        let mut xr = chars_of(x);
        let mut sfx = vec!['_', 'r', 'i', 'g', 'h', 't'];
        xr.append(&mut sfx);
        push_if_new(&mut out, t, string_of(&xr));
        let mut dn = vec!['差', '額', '_'];
        let mut x1 = chars_of(x);
        dn.append(&mut x1);
        dn.push('v');
        dn.push('s');
        let mut x2 = chars_of(x);
        dn.append(&mut x2);
        assert(dn@ =~= difference_name(x@));
        push_if_new(&mut out, t, string_of(&dn));
        p += 1;
    }
    out
}

/// What a merge is asked to do.
#[derive(Clone, Debug)]
pub struct MergeRequest {
    pub mode: MergeMode,
    pub join_type: JoinType,
    pub keys: Vec<String>,
    pub stage2_keys: Vec<String>,
    pub selected_columns: Vec<String>,
    pub sort_keys: Vec<SortKey>,
}

/// The table that a merge joins, before selection.
pub open spec fn merged_ok(t: Table, tables: Seq<Table>, req: MergeRequest) -> bool {
    let k1 = keys_view(req.keys@);
    let k2 = keys_view(req.stage2_keys@);
    if req.mode == MergeMode::MultiStageJoin && tables.len() >= 3 {
        exists|ab: Table|
            join_outcome(Ok(ab), tables[0], tables[1], k1, JoinType::Left) && #[trigger] join_outcome(
                Ok(t),
                ab,
                tables[2],
                k2,
                JoinType::Left,
            )
    } else if req.mode == MergeMode::MultiStageJoin {
        join_outcome(Ok(t), tables[0], tables[1], k1, JoinType::Left)
    } else if req.mode == MergeMode::ZennenTaihi {
        exists|full: Table|
            join_outcome(Ok(full), tables[0], tables[1], k1, JoinType::FullOuter) && #[trigger] is_with_differences(t, full)
    } else if req.join_type == JoinType::Right {
        join_outcome(Ok(t), tables[1], tables[0], k1, JoinType::Left)
    } else if req.join_type == JoinType::Concat {
        crate::join::is_stacked(t, tables[0], tables[1])
    } else {
        join_outcome(Ok(t), tables[0], tables[1], k1, req.join_type)
    }
}

/// The merge joins on keys: everything but stacking.
pub open spec fn needs_keys(tables: Seq<Table>, req: MergeRequest) -> bool {
    req.mode == MergeMode::MultiStageJoin || req.mode == MergeMode::ZennenTaihi || req.join_type != JoinType::Concat
}

/// Why a merge fails: a join of the mode lacks a key on one side.
pub open spec fn merge_failed(e: PipelineError, tables: Seq<Table>, req: MergeRequest) -> bool {
    let k1 = keys_view(req.keys@);
    let k2 = keys_view(req.stage2_keys@);
    if req.mode == MergeMode::MultiStageJoin && tables.len() >= 3 {
        join_outcome(Err(e), tables[0], tables[1], k1, JoinType::Left) || exists|ab: Table|
            join_outcome(Ok(ab), tables[0], tables[1], k1, JoinType::Left) && #[trigger] join_outcome(
                Err(e),
                ab,
                tables[2],
                k2,
                JoinType::Left,
            )
    } else if req.mode == MergeMode::MultiStageJoin {
        join_outcome(Err(e), tables[0], tables[1], k1, JoinType::Left)
    } else if req.mode == MergeMode::ZennenTaihi {
        join_outcome(Err(e), tables[0], tables[1], k1, JoinType::FullOuter)
    } else if req.join_type == JoinType::Right {
        join_outcome(Err(e), tables[1], tables[0], k1, JoinType::Left)
    } else if req.join_type == JoinType::Concat {
        false
    } else {
        join_outcome(Err(e), tables[0], tables[1], k1, req.join_type)
    }
}

/// Joins the input tables as the request's mode says.
pub fn merge_tables(tables: &Vec<Table>, req: &MergeRequest) -> (res: Result<Table, PipelineError>)
    requires
        tables.len() >= 2,
        forall|i: int| 0 <= i < tables.len() ==> (#[trigger] tables@[i]).wf(),
        tables@[0].height + tables@[1].height <= usize::MAX,
        needs_keys(tables@, *req) ==> req.keys.len() > 0,
        req.mode == MergeMode::MultiStageJoin && tables.len() >= 3 ==> req.stage2_keys.len() > 0,
    ensures
        match res {
            Ok(t) => t.wf() && merged_ok(t, tables@, *req),
            Err(e) => merge_failed(e, tables@, *req),
        },
{
    let a = &tables[0];
    let b = &tables[1];
    assert(tables@[0].wf() && tables@[1].wf());
    if req.mode == MergeMode::MultiStageJoin {
        if tables.len() >= 3 {
            assert(tables@[2].wf());
            let r = join_stages(a, b, &tables[2], &req.keys, &req.stage2_keys);
            proof {
                if r is Ok {
                    let t = r->Ok_0;
                    let ab = choose|ab: Table|
                        join_outcome(Ok(ab), *a, *b, keys_view(req.keys@), JoinType::Left) && #[trigger] join_outcome(
                            Ok(t),
                            ab,
                            tables@[2],
                            keys_view(req.stage2_keys@),
                            JoinType::Left,
                        );
                }
                if r is Err {
                    let e = r->Err_0;
                    if !join_outcome(Err(e), *a, *b, keys_view(req.keys@), JoinType::Left) {
                        let ab = choose|ab: Table|
                            join_outcome(Ok(ab), *a, *b, keys_view(req.keys@), JoinType::Left) && #[trigger] join_outcome(
                                Err(e),
                                ab,
                                tables@[2],
                                keys_view(req.stage2_keys@),
                                JoinType::Left,
                            );
                    }
                }
            }
            return r;
        }
        return join(a, b, &req.keys, JoinType::Left);
    }
    if req.mode == MergeMode::ZennenTaihi {
        let full = match join(a, b, &req.keys, JoinType::FullOuter) {
            Ok(t) => t,
            Err(e) => return Err(e),
        };
        let t = add_difference_columns(&full);
        return Ok(t);
    }
    join(a, b, &req.keys, req.join_type)
}

/// The names that a merge selects from the joined table `t`.
pub open spec fn shown_selection(t: Table, req: MergeRequest) -> Seq<Seq<char>> {
    if req.mode == MergeMode::ZennenTaihi {
        comparison_names(t.names(), keys_view(req.selected_columns@), req.selected_columns.len() as int)
    } else {
        keys_view(req.selected_columns@)
    }
}

/// `out` renders the joined table `t` as the request asks.
pub open spec fn shows_merge(out: TextTable, t: Table, req: MergeRequest) -> bool {
    is_projection(
        out,
        t,
        shown_selection(t, req),
        req.sort_keys@,
        req.mode == MergeMode::MultiStageJoin,
        req.mode == MergeMode::ZennenTaihi,
    )
}

/// Projecting the joined table `t` as the request asks fails with `e`.
pub open spec fn projection_failed(e: PipelineError, t: Table, req: MergeRequest) -> bool {
    projection_error(e, t, req.sort_keys@)
}

/// The rendered result of a merge: joined as the mode says, then the
/// selected columns (for period comparison, each with its previous and
/// difference columns), sorted, with nulls of numeric columns shown as `0`
/// in period comparison.
pub fn build_result(tables: &Vec<Table>, req: &MergeRequest) -> (res: Result<TextTable, PipelineError>)
    requires
        tables.len() >= 2,
        forall|i: int| 0 <= i < tables.len() ==> (#[trigger] tables@[i]).wf(),
        tables@[0].height + tables@[1].height <= usize::MAX,
        needs_keys(tables@, *req) ==> req.keys.len() > 0,
        req.mode == MergeMode::MultiStageJoin && tables.len() >= 3 ==> req.stage2_keys.len() > 0,
    ensures
        match res {
            Ok(out) => exists|t: Table| t.wf() && merged_ok(t, tables@, *req) && #[trigger] shows_merge(out, t, *req),
            Err(e) => merge_failed(e, tables@, *req) || exists|t: Table|
                t.wf() && merged_ok(t, tables@, *req) && #[trigger] projection_failed(e, t, *req),
        },
{
    let t = match merge_tables(tables, req) {
        Ok(t) => t,
        Err(e) => return Err(e),
    };
    let loose = req.mode == MergeMode::MultiStageJoin;
    let zero = req.mode == MergeMode::ZennenTaihi;
    if zero {
        let cols = comparison_columns(&t, &req.selected_columns);
        let r = project(&t, &cols, &req.sort_keys, loose, zero);
        proof {
            if r is Ok {
                let out = r->Ok_0;
                assert(keys_view(cols@) == comparison_names(
                    t.names(),
                    keys_view(req.selected_columns@),
                    req.selected_columns.len() as int,
                ));
                assert(shows_merge(out, t, *req));
            } else {
                assert(projection_failed(r->Err_0, t, *req));
            }
        }
        r
    } else {
        let r = project(&t, &req.selected_columns, &req.sort_keys, loose, zero);
        proof {
            if r is Ok {
                assert(shows_merge(r->Ok_0, t, *req));
            } else {
                assert(projection_failed(r->Err_0, t, *req));
            }
        }
        r
    }
}

} // verus!
