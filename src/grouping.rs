//! Grouping rows by a composite key and cutting each group into chunks of
//! bounded size, for export to one file per chunk.
use vstd::prelude::*;
use crate::join::{key_columns, keys_found, keys_view, resolve_keys};
use crate::table::{first_index, PipelineError, Table};
use crate::text::{chars_of, string_of};

verus! {

/// The text that a cell adds to a group key; a null adds nothing.
pub open spec fn cell_text(c: Option<Seq<char>>) -> Seq<char> {
    match c {
        Some(s) => s,
        None => Seq::empty(),
    }
}

/// The texts of the first `n` key cells of row `i`, joined by `_`.
pub open spec fn key_text(t: Table, kc: Seq<usize>, i: int, n: int) -> Seq<char>
    decreases n,
{
    if n <= 0 {
        Seq::empty()
    } else if n == 1 {
        cell_text(t.cell(kc[0] as int, i))
    } else {
        key_text(t, kc, i, n - 1) + seq!['_'] + cell_text(t.cell(kc[n - 1] as int, i))
    }
}

/// The group key of row `i`.
pub open spec fn group_key(t: Table, kc: Seq<usize>, i: int) -> Seq<char> {
    key_text(t, kc, i, kc.len() as int)
}

/// The rows among `0..n` whose group key is `key`, in order.
pub open spec fn rows_with_key(t: Table, kc: Seq<usize>, key: Seq<char>, n: int) -> Seq<usize>
    decreases n,
{
    if n <= 0 {
        Seq::empty()
    } else {
        let s = rows_with_key(t, kc, key, n - 1);
        if group_key(t, kc, n - 1) == key {
            s.push((n - 1) as usize)
        } else {
            s
        }
    }
}

/// The rows of one group, in table order.
#[derive(Clone, Debug)]
pub struct Group {
    pub key: String,
    pub rows: Vec<usize>,
}

/// The groups of `t` under the key columns `kc`: one per distinct key, each
/// with exactly the rows that have that key, and no row left out.
pub open spec fn is_grouping(groups: Seq<Group>, t: Table, kc: Seq<usize>) -> bool {
    &&& forall|g: int|
        0 <= g < groups.len() ==> (#[trigger] groups[g]).rows@ == rows_with_key(
            t,
            kc,
            groups[g].key@,
            t.height as int,
        ) && groups[g].rows.len() > 0
    &&& forall|g: int, h: int| 0 <= g < h < groups.len() ==> (#[trigger] groups[g]).key@ != (#[trigger] groups[h]).key@
    &&& forall|i: int| 0 <= i < t.height ==> #[trigger] has_group(groups, group_key(t, kc, i))
}

pub open spec fn has_group(groups: Seq<Group>, key: Seq<char>) -> bool {
    exists|g: int| 0 <= g < groups.len() && (#[trigger] groups[g]).key@ == key
}

fn row_key(t: &Table, kc: &Vec<usize>, i: usize) -> (r: String)
    requires
        t.wf(),
        forall|p: int| 0 <= p < kc.len() ==> (#[trigger] kc@[p]) < t.columns.len(),
        i < t.height,
    ensures
        r@ == group_key(*t, kc@, i as int),
{
    let mut out: Vec<char> = Vec::new();
    let mut p: usize = 0;
    while p < kc.len()
        invariant
            t.wf(),
            forall|q: int| 0 <= q < kc.len() ==> (#[trigger] kc@[q]) < t.columns.len(),
            i < t.height,
            0 <= p <= kc.len(),
            out@ == key_text(*t, kc@, i as int, p as int),
        decreases kc.len() - p,
    {
        if p > 0 {
            out.push('_');
        }
        let c = kc[p];
        assert(t.columns@[c as int].values.len() == t.height);
        let ghost before = out@;
        match &t.columns[c].values[i] {
            Some(s) => {
                let mut cs = chars_of(s);
                out.append(&mut cs);
            },
            None => {},
        }
        proof {
            if p == 0 {
                assert(out@ =~= key_text(*t, kc@, i as int, 1));
            } else {
                assert(out@ =~= key_text(*t, kc@, i as int, p + 1));
            }
        }
        p += 1;
    }
    string_of(&out)
}

/// Groups the rows of `t` by the values of `keys`, in the order in which
/// each key first appears.
pub fn group_rows(t: &Table, keys: &Vec<String>) -> (res: Result<Vec<Group>, PipelineError>)
    requires
        t.wf(),
    ensures
        match res {
            Ok(groups) => keys_found(*t, keys_view(keys@)) && is_grouping(groups@, *t, key_columns(*t, keys_view(keys@))),
            Err(PipelineError::KeyNotFound(k)) => !keys_found(*t, keys_view(keys@)) && first_index(t.names(), k@) is None,
            Err(_) => false,
        },
{
    let kc = match resolve_keys(t, keys) {
        Ok(v) => v,
        Err(e) => return Err(e),
    };
    proof {
        crate::join::lemma_key_columns_in_range(*t, keys_view(keys@));
    }
    let mut groups: Vec<Group> = Vec::new();
    let mut i: usize = 0;
    while i < t.height
        invariant
            t.wf(),
            forall|p: int| 0 <= p < kc.len() ==> (#[trigger] kc@[p]) < t.columns.len(),
            0 <= i <= t.height,
            forall|g: int|
                0 <= g < groups.len() ==> (#[trigger] groups@[g]).rows@ == rows_with_key(
                    *t,
                    kc@,
                    groups@[g].key@,
                    i as int,
                ) && groups@[g].rows.len() > 0,
            forall|g: int, h: int| 0 <= g < h < groups.len() ==> (#[trigger] groups@[g]).key@ != (#[trigger] groups@[h]).key@,
            forall|r: int| 0 <= r < i ==> #[trigger] has_group(groups@, group_key(*t, kc@, r)),
        decreases t.height - i,
    {
        let key = row_key(t, &kc, i);
        let hit = find_group(&groups, &key);
        let ghost old_groups = groups@;
        if let Some(g) = hit {
            assert(groups@[g as int].key@ == key@);
            groups[g].rows.push(i);
            proof {
                assert forall|h: int| 0 <= h < groups.len() implies (#[trigger] groups@[h]).rows@ == rows_with_key(
                    *t,
                    kc@,
                    groups@[h].key@,
                    i + 1,
                ) && groups@[h].rows.len() > 0 by {
                    if h != g {
                        assert(groups@[h] == old_groups[h]);
                    }
                }
                assert forall|r: int| 0 <= r < i + 1 implies #[trigger] has_group(groups@, group_key(*t, kc@, r)) by {
                    if r < i {
                        assert(has_group(old_groups, group_key(*t, kc@, r)));
                        let w = choose|w: int| 0 <= w < old_groups.len() && (#[trigger] old_groups[w]).key@ == group_key(*t, kc@, r);
                        assert(groups@[w].key@ == old_groups[w].key@);
                    } else {
                        assert(groups@[g as int].key@ == group_key(*t, kc@, r));
                    }
                }
            }
        } else {
            proof {
                assert forall|r: int| 0 <= r < i implies group_key(*t, kc@, r) != key@ by {
                    assert(has_group(old_groups, group_key(*t, kc@, r)));
                    let w = choose|w: int| 0 <= w < old_groups.len() && (#[trigger] old_groups[w]).key@ == group_key(*t, kc@, r);
                    assert(old_groups[w].key@ != key@);
                }
                lemma_no_rows_with_key(*t, kc@, key@, i as int);
            }
            let mut rows: Vec<usize> = Vec::new();
            rows.push(i);
            groups.push(Group { key, rows });
            proof {
                assert(rows_with_key(*t, kc@, key@, i + 1) =~= seq![i]);
                assert forall|h: int| 0 <= h < groups.len() implies (#[trigger] groups@[h]).rows@ == rows_with_key(
                    *t,
                    kc@,
                    groups@[h].key@,
                    i + 1,
                ) && groups@[h].rows.len() > 0 by {
                    if h < old_groups.len() {
                        assert(groups@[h] == old_groups[h]);
                    }
                }
                assert forall|r: int| 0 <= r < i + 1 implies #[trigger] has_group(groups@, group_key(*t, kc@, r)) by {
                    if r < i {
                        assert(has_group(old_groups, group_key(*t, kc@, r)));
                        let w = choose|w: int| 0 <= w < old_groups.len() && (#[trigger] old_groups[w]).key@ == group_key(*t, kc@, r);
                        assert(groups@[w] == old_groups[w]);
                    } else {
                        assert(groups@[old_groups.len() as int].key@ == group_key(*t, kc@, r));
                    }
                }
            }
        }
        i += 1;
    }
    Ok(groups)
}

fn find_group(groups: &Vec<Group>, key: &String) -> (r: Option<usize>)
    ensures
        match r {
            Some(g) => g < groups.len() && groups@[g as int].key@ == key@,
            None => forall|h: int| 0 <= h < groups.len() ==> (#[trigger] groups@[h]).key@ != key@,
        },
{
    let mut g: usize = 0;
    while g < groups.len()
        invariant
            0 <= g <= groups.len(),
            forall|h: int| 0 <= h < g ==> (#[trigger] groups@[h]).key@ != key@,
        decreases groups.len() - g,
    {
        if groups[g].key == *key {
            return Some(g);
        }
        g += 1;
    }
    None
}

proof fn lemma_no_rows_with_key(t: Table, kc: Seq<usize>, key: Seq<char>, n: int)
    requires
        forall|r: int| 0 <= r < n ==> group_key(t, kc, r) != key,
    ensures
        rows_with_key(t, kc, key, n) == Seq::<usize>::empty(),
    decreases n,
{
    if n > 0 {
        lemma_no_rows_with_key(t, kc, key, n - 1);
    }
}


/// Consecutive runs of at most `max` rows, in order.
pub open spec fn chunks_of(rows: Seq<usize>, max: nat) -> Seq<Seq<usize>>
    decreases rows.len(),
{
    if max == 0 || rows.len() == 0 {
        Seq::empty()
    } else if rows.len() <= max {
        seq![rows]
    } else {
        seq![rows.subrange(0, max as int)] + chunks_of(rows.subrange(max as int, rows.len() as int), max)
    }
}

pub open spec fn chunk_views(chunks: Seq<Vec<usize>>) -> Seq<Seq<usize>> {
    chunks.map_values(|c: Vec<usize>| c@)
}

/// Cuts `rows` into runs of at most `max_rows`.
pub fn split_rows(rows: &Vec<usize>, max_rows: usize) -> (r: Vec<Vec<usize>>)
    requires
        max_rows > 0,
    ensures
        chunk_views(r@) == chunks_of(rows@, max_rows as nat),
{
    let n = rows.len();
    let mut out: Vec<Vec<usize>> = Vec::new();
    let mut s: usize = 0;
    assert(rows@.subrange(0, n as int) =~= rows@);
    while s < n
        invariant
            n == rows.len(),
            max_rows > 0,
            0 <= s <= n,
            chunk_views(out@) + chunks_of(rows@.subrange(s as int, n as int), max_rows as nat) == chunks_of(
                rows@,
                max_rows as nat,
            ),
        decreases n - s,
    {
        let end = if n - s > max_rows { s + max_rows } else { n };
        let mut chunk: Vec<usize> = Vec::new();
        let mut k = s;
        while k < end
            invariant
                s <= k <= end <= n == rows.len(),
                chunk@ == rows@.subrange(s as int, k as int),
            decreases end - k,
        {
            chunk.push(rows[k]);
            assert(chunk@ =~= rows@.subrange(s as int, k + 1));
            k += 1;
        }
        let ghost rest = rows@.subrange(s as int, n as int);
        proof {
            if n - s > max_rows {
                assert(rest.subrange(0, max_rows as int) =~= chunk@);
                assert(rest.subrange(max_rows as int, rest.len() as int) =~= rows@.subrange(end as int, n as int));
            } else {
                assert(rest =~= chunk@);
                assert(rows@.subrange(end as int, n as int) =~= Seq::<usize>::empty());
            }
        }
        let ghost before = chunk_views(out@);
        out.push(chunk);
        assert(chunk_views(out@) =~= before.push(chunk@));
        assert(chunk_views(out@) + chunks_of(rows@.subrange(end as int, n as int), max_rows as nat) =~= before + chunks_of(
            rest,
            max_rows as nat,
        ));
        s = end;
    }
    assert(chunks_of(rows@.subrange(s as int, n as int), max_rows as nat) =~= Seq::<Seq<usize>>::empty());
    assert(chunk_views(out@) =~= chunks_of(rows@, max_rows as nat));
    out
}

/// The rows of one group cut into chunks for export.
#[derive(Clone, Debug)]
pub struct SplitGroup {
    pub key: String,
    pub chunks: Vec<Vec<usize>>,
}

/// Groups the rows of `t` by `keys` and cuts every group into chunks of at
/// most `max_rows` rows.
pub fn group_and_split(t: &Table, keys: &Vec<String>, max_rows: usize) -> (res: Result<Vec<SplitGroup>, PipelineError>)
    requires
        t.wf(),
        max_rows > 0,
    ensures
        match res {
            Ok(parts) => keys_found(*t, keys_view(keys@)) && exists|groups: Seq<Group>|
                is_grouping(groups, *t, key_columns(*t, keys_view(keys@))) && groups.len() == parts.len() && forall|g: int|
                    0 <= g < groups.len() ==> (#[trigger] parts@[g]).key@ == groups[g].key@ && chunk_views(parts@[g].chunks@)
                        == chunks_of(groups[g].rows@, max_rows as nat),
            Err(PipelineError::KeyNotFound(k)) => !keys_found(*t, keys_view(keys@)) && first_index(t.names(), k@) is None,
            Err(_) => false,
        },
{
    let groups = match group_rows(t, keys) {
        Ok(g) => g,
        Err(e) => return Err(e),
    };
    let mut parts: Vec<SplitGroup> = Vec::new();
    let mut g: usize = 0;
    while g < groups.len()
        invariant
            max_rows > 0,
            0 <= g <= groups.len(),
            parts.len() == g,
            forall|h: int|
                0 <= h < g ==> (#[trigger] parts@[h]).key@ == groups@[h].key@ && chunk_views(parts@[h].chunks@)
                    == chunks_of(groups@[h].rows@, max_rows as nat),
        decreases groups.len() - g,
    {
        let chunks = split_rows(&groups[g].rows, max_rows);
        parts.push(SplitGroup { key: groups[g].key.clone(), chunks });
        g += 1;
    }
    Ok(parts)
}

proof fn lemma_rows_with_key_members(t: Table, kc: Seq<usize>, key: Seq<char>, n: int, r: int)
    requires
        0 <= n <= t.height,
        0 <= r < t.height,
    ensures
        forall|k: int| 0 <= k < rows_with_key(t, kc, key, n).len() ==> (#[trigger] rows_with_key(t, kc, key, n)[k]) < n,
        rows_with_key(t, kc, key, n).contains(r as usize) <==> (r < n && group_key(t, kc, r) == key),
    decreases n,
{
    if n > 0 {
        lemma_rows_with_key_members(t, kc, key, n - 1, r);
        let s = rows_with_key(t, kc, key, n - 1);
        if group_key(t, kc, n - 1) == key {
            let s2 = s.push((n - 1) as usize);
            assert(s2[s.len() as int] == (n - 1) as usize);
            assert forall|k: int| 0 <= k < s2.len() implies (#[trigger] s2[k]) < n by {
                if k < s.len() {
                    assert(s2[k] == s[k]);
                }
            }
            if s2.contains(r as usize) && r != n - 1 {
                let w = choose|w: int| 0 <= w < s2.len() && #[trigger] s2[w] == r as usize;
                assert(w < s.len());
                assert(s[w] == r as usize);
            }
            if s.contains(r as usize) {
                let w = choose|w: int| 0 <= w < s.len() && #[trigger] s[w] == r as usize;
                assert(s2[w] == r as usize);
            }
        } else {
            if s.contains(r as usize) {
                let w = choose|w: int| 0 <= w < s.len() && #[trigger] s[w] == r as usize;
                assert(s[w] < n - 1);
            }
        }
    }
}

/// Two rows land in the same group exactly when their key texts are equal;
/// in particular rows that agree on every key column share a group.
pub proof fn same_group_iff_same_key(t: Table, keys: Seq<Seq<char>>, groups: Seq<Group>, r1: int, r2: int)
    requires
        t.wf(),
        keys_found(t, keys),
        is_grouping(groups, t, key_columns(t, keys)),
        0 <= r1 < t.height,
        0 <= r2 < t.height,
    ensures
        (exists|g: int|
            0 <= g < groups.len() && (#[trigger] groups[g]).rows@.contains(r1 as usize) && groups[g].rows@.contains(
                r2 as usize,
            )) <==> group_key(t, key_columns(t, keys), r1) == group_key(t, key_columns(t, keys), r2),
        (forall|p: int|
            0 <= p < keys.len() ==> t.cell(#[trigger] key_columns(t, keys)[p] as int, r1) == t.cell(
                key_columns(t, keys)[p] as int,
                r2,
            )) ==> group_key(t, key_columns(t, keys), r1) == group_key(t, key_columns(t, keys), r2),
{
    let kc = key_columns(t, keys);
    if exists|g: int|
        0 <= g < groups.len() && (#[trigger] groups[g]).rows@.contains(r1 as usize) && groups[g].rows@.contains(
            r2 as usize,
        ) {
        let g = choose|g: int|
            0 <= g < groups.len() && (#[trigger] groups[g]).rows@.contains(r1 as usize) && groups[g].rows@.contains(
                r2 as usize,
            );
        lemma_rows_with_key_members(t, kc, groups[g].key@, t.height as int, r1);
        lemma_rows_with_key_members(t, kc, groups[g].key@, t.height as int, r2);
    }
    if group_key(t, kc, r1) == group_key(t, kc, r2) {
        assert(has_group(groups, group_key(t, kc, r1)));
        let g = choose|g: int| 0 <= g < groups.len() && (#[trigger] groups[g]).key@ == group_key(t, kc, r1);
        lemma_rows_with_key_members(t, kc, groups[g].key@, t.height as int, r1);
        lemma_rows_with_key_members(t, kc, groups[g].key@, t.height as int, r2);
        assert(groups[g].rows@.contains(r1 as usize) && groups[g].rows@.contains(r2 as usize));
    }
    if forall|p: int|
        0 <= p < keys.len() ==> t.cell(#[trigger] kc[p] as int, r1) == t.cell(kc[p] as int, r2) {
        lemma_key_text_agrees(t, kc, r1, r2, kc.len() as int);
    }
}

proof fn lemma_key_text_agrees(t: Table, kc: Seq<usize>, r1: int, r2: int, n: int)
    requires
        n <= kc.len(),
        forall|p: int| 0 <= p < kc.len() ==> t.cell(#[trigger] kc[p] as int, r1) == t.cell(kc[p] as int, r2),
    ensures
        key_text(t, kc, r1, n) == key_text(t, kc, r2, n),
    decreases n,
{
    if n > 1 {
        lemma_key_text_agrees(t, kc, r1, r2, n - 1);
        assert(t.cell(kc[n - 1] as int, r1) == t.cell(kc[n - 1] as int, r2));
    } else if n == 1 {
        assert(t.cell(kc[0] as int, r1) == t.cell(kc[0] as int, r2));
    }
}

/// The chunks of a group hold its rows in order, so their sizes add up to
/// the group's size, and none is empty or over the bound.
pub proof fn chunks_cover_rows(rows: Seq<usize>, max: nat)
    requires
        max > 0,
    ensures
        chunks_of(rows, max).flatten() == rows,
        forall|c: int| 0 <= c < chunks_of(rows, max).len() ==> 0 < (#[trigger] chunks_of(rows, max)[c]).len() <= max,
    decreases rows.len(),
{
    if rows.len() > max {
        let rest = rows.subrange(max as int, rows.len() as int);
        chunks_cover_rows(rest, max);
        let head = seq![rows.subrange(0, max as int)];
        let all = chunks_of(rows, max);
        assert(all == head + chunks_of(rest, max));
        assert(all.drop_first() =~= chunks_of(rest, max));
        assert(all.first() == rows.subrange(0, max as int));
        assert(all.flatten() == all.first() + all.drop_first().flatten());
        assert(rows.subrange(0, max as int) + rest =~= rows);
        assert forall|c: int| 0 <= c < chunks_of(rows, max).len() implies 0 < (#[trigger] chunks_of(rows, max)[c]).len() <= max by {
            if c > 0 {
                assert(chunks_of(rows, max)[c] == chunks_of(rest, max)[c - 1]);
            }
        }
    } else if rows.len() > 0 {
        let all = chunks_of(rows, max);
        assert(all == seq![rows]);
        assert(all.drop_first() =~= Seq::<Seq<usize>>::empty());
        assert(all.flatten() == all.first() + all.drop_first().flatten());
        assert(rows + Seq::<usize>::empty() =~= rows);
    }
}

} // verus!
