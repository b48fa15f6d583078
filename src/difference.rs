//! Difference columns between a current column `X` and its previous
//! counterpart `X_right`, as a join leaves them.
use vstd::prelude::*;
use crate::join::right_suffix;
use crate::table::{cell_view, first_index, lemma_first_index_found, Column, ColumnType, Table};
use crate::text::{
    chars_of, parse_scaled, render_scaled,
    scaled_text, scaled_value, string_of, trim, trim_chars, AMOUNT_CAP,
};

verus! {

pub open spec fn difference_prefix() -> Seq<char> {
    seq!['差', '額', '_']
}

/// The name of the difference column for `x` and `x_right`.
pub open spec fn difference_name(x: Seq<char>) -> Seq<char> {
    difference_prefix() + x + seq!['v', 's'] + x
}

/// A name that difference columns carry.
pub open spec fn is_difference_name(x: Seq<char>) -> bool {
    x.len() >= 3 && x.subrange(0, 3) == difference_prefix()
}

pub open spec fn ends_with_right(x: Seq<char>) -> bool {
    x.len() >= 6 && x.subrange(x.len() - 6, x.len() as int) == right_suffix()
}

pub open spec fn without_commas(s: Seq<char>) -> Seq<char>
    decreases s.len(),
{
    if s.len() == 0 {
        s
    } else if s.last() == ',' {
        without_commas(s.drop_last())
    } else {
        without_commas(s.drop_last()).push(s.last())
    }
}

/// A text that stands for a missing amount.
pub open spec fn is_null_token(s: Seq<char>) -> bool {
    s.len() == 0 || s == seq!['n', 'u', 'l', 'l'] || s == seq!['N', '/', 'A'] || s == seq!['N', 'a', 'N']
}

/// A cell as an amount is read: trimmed, without thousands separators; a
/// null cell reads as `null`.
pub open spec fn amount_text(c: Option<Seq<char>>) -> Seq<char> {
    match c {
        Some(s) => without_commas(trim(s)),
        None => seq!['n', 'u', 'l', 'l'],
    }
}

/// The amount of a cell in millionths; missing and unreadable amounts count as zero.
pub open spec fn amount_of(c: Option<Seq<char>>) -> int {
    let n = amount_text(c);
    if is_null_token(n) {
        0
    } else {
        match scaled_value(n) {
            Some(v) => v,
            None => 0,
        }
    }
}

fn drop_commas(v: &Vec<char>) -> (r: Vec<char>)
    ensures
        r@ == without_commas(v@),
{
    let mut out: Vec<char> = Vec::new();
    let mut k: usize = 0;
    while k < v.len()
        invariant
            0 <= k <= v.len(),
            out@ == without_commas(v@.subrange(0, k as int)),
        decreases v.len() - k,
    {
        assert(v@.subrange(0, k + 1).drop_last() =~= v@.subrange(0, k as int));
        if v[k] != ',' {
            out.push(v[k]);
        }
        k += 1;
    }
    assert(v@.subrange(0, k as int) =~= v@);
    out
}

fn null_token(s: &Vec<char>) -> (r: bool)
    ensures
        r == is_null_token(s@),
{
    let n = s.len();
    let r = n == 0 || (n == 4 && s[0] == 'n' && s[1] == 'u' && s[2] == 'l' && s[3] == 'l') || (n == 3 && s[0] == 'N'
        && s[1] == '/' && s[2] == 'A') || (n == 3 && s[0] == 'N' && s[1] == 'a' && s[2] == 'N');
    proof {
        if n == 4 && s@ == seq!['n', 'u', 'l', 'l'] {
            assert(s@[0] == 'n' && s@[1] == 'u' && s@[2] == 'l' && s@[3] == 'l');
        }
        if n == 3 && s@ == seq!['N', '/', 'A'] {
            assert(s@[0] == 'N' && s@[1] == '/' && s@[2] == 'A');
        }
        if n == 3 && s@ == seq!['N', 'a', 'N'] {
            assert(s@[0] == 'N' && s@[1] == 'a' && s@[2] == 'N');
        }
        if n == 4 && s[0] == 'n' && s[1] == 'u' && s[2] == 'l' && s[3] == 'l' {
            assert(s@ =~= seq!['n', 'u', 'l', 'l']);
        }
        if n == 3 && s[0] == 'N' && s[1] == '/' && s[2] == 'A' {
            assert(s@ =~= seq!['N', '/', 'A']);
        }
        if n == 3 && s[0] == 'N' && s[1] == 'a' && s[2] == 'N' {
            assert(s@ =~= seq!['N', 'a', 'N']);
        }
    }
    r
}

fn amount_chars(c: &Option<String>) -> (r: Vec<char>)
    ensures
        r@ == amount_text(cell_view(*c)),
{
    match c {
        Some(s) => {
            let cs = chars_of(s);
            let t = trim_chars(&cs);
            drop_commas(&t)
        },
        None => {
            let v = vec!['n', 'u', 'l', 'l'];
            v
        },
    }
}

proof fn lemma_amount_bounded(c: Option<Seq<char>>)
    ensures
        -AMOUNT_CAP <= amount_of(c) <= AMOUNT_CAP,
{
    let n = amount_text(c);
    if !is_null_token(n) {
        if let Some(v) = scaled_value(n) {
            let u = crate::text::unsigned_body(n);
            let p = choose|p: int| crate::text::decimal_split(u, p);
            let frac = if p < u.len() { u.subrange(p + 1, u.len() as int) } else { Seq::<char>::empty() };
            let digits = u.subrange(0, p) + crate::text::fraction_places(frac);
            assert(crate::text::all_digits(digits)) by {
                assert forall|i: int| 0 <= i < digits.len() implies crate::text::is_digit(#[trigger] digits[i]) by {
                    if i < p {
                        assert(u.subrange(0, p)[i] == digits[i]);
                    } else {
                        let j = i - p;
                        if j < frac.len() {
                            assert(frac[j] == u.subrange(p + 1, u.len() as int)[j]);
                        }
                    }
                }
            }
            crate::text::lemma_digits_value_nonneg(digits);
        }
    }
}

/// The amount of a cell in millionths.
fn amount(c: &Option<String>) -> (v: i128)
    ensures
        v == amount_of(cell_view(*c)),
        -AMOUNT_CAP <= v <= AMOUNT_CAP,
{
    proof {
        lemma_amount_bounded(cell_view(*c));
    }
    let n = amount_chars(c);
    if null_token(&n) {
        0
    } else {
        match parse_scaled(&n) {
            Some(v) => v,
            None => 0,
        }
    }
}

/// How many of the first `n` cells of column `c` hold something.
pub open spec fn sample_counted(t: Table, c: int, n: int) -> nat
    decreases n,
{
    if n <= 0 {
        0
    } else {
        sample_counted(t, c, n - 1) + if is_null_token(amount_text(t.cell(c, n - 1))) {
            0nat
        } else {
            1nat
        }
    }
}

/// How many of the first `n` cells of column `c` read as amounts.
pub open spec fn sample_numeric(t: Table, c: int, n: int) -> nat
    decreases n,
{
    if n <= 0 {
        0
    } else {
        sample_numeric(t, c, n - 1) + if !is_null_token(amount_text(t.cell(c, n - 1))) && scaled_value(
            amount_text(t.cell(c, n - 1)),
        ) is Some {
            1nat
        } else {
            0nat
        }
    }
}

pub open spec fn sample_size(t: Table) -> int {
    if t.height < 10 {
        t.height as int
    } else {
        10
    }
}

/// At least seven in ten of the non-empty cells among the first ten rows
/// read as amounts.
pub open spec fn looks_numeric(t: Table, c: int) -> bool {
    let total = sample_counted(t, c, sample_size(t));
    total > 0 && sample_numeric(t, c, sample_size(t)) * 10 >= total * 7
}

fn numeric_sample(t: &Table, c: usize) -> (r: bool)
    requires
        t.wf(),
        c < t.columns.len(),
    ensures
        r == looks_numeric(*t, c as int),
{
    let n: usize = if t.height < 10 { t.height } else { 10 };
    let mut total: usize = 0;
    let mut numeric: usize = 0;
    let mut r: usize = 0;
    assert(t.columns@[c as int].values.len() == t.height);
    while r < n
        invariant
            t.wf(),
            c < t.columns.len(),
            n == sample_size(*t),
            0 <= r <= n <= 10,
            total == sample_counted(*t, c as int, r as int),
            numeric == sample_numeric(*t, c as int, r as int),
            total <= r,
            numeric <= r,
        decreases n - r,
    {
        let s = amount_chars(&t.columns[c].values[r]);
        if !null_token(&s) {
            total += 1;
            if parse_scaled(&s).is_some() {
                numeric += 1;
            }
        }
        r += 1;
    }
    total > 0 && numeric * 10 >= total * 7
}

/// Column `c` of `t` is paired with `X_right` for a difference column: its
/// name `X` is not itself derived, it is the first column so named, its
/// partner exists under an underived name, its content looks numeric, and
/// its difference column is not there yet.
pub open spec fn is_pair_column(t: Table, c: int) -> bool {
    let x = t.columns@[c].name@;
    &&& !ends_with_right(x)
    &&& !is_difference_name(x)
    &&& first_index(t.names(), x) == Some(c)
    &&& first_index(t.names(), x + right_suffix()) is Some
    &&& !is_difference_name(x + right_suffix())
    &&& looks_numeric(t, c)
    &&& first_index(t.names(), difference_name(x)) is None
}

/// The paired columns among the first `n`, in order.
pub open spec fn pair_columns(t: Table, n: int) -> Seq<int>
    decreases n,
{
    if n <= 0 {
        Seq::empty()
    } else if is_pair_column(t, n - 1) {
        pair_columns(t, n - 1).push(n - 1)
    } else {
        pair_columns(t, n - 1)
    }
}

/// The column `X_right` that column `c` is paired with.
pub open spec fn partner(t: Table, c: int) -> int {
    first_index(t.names(), t.columns@[c].name@ + right_suffix())->Some_0
}

/// Row `r` of the difference column for column `c`: current minus previous.
pub open spec fn difference_cell(t: Table, c: int, r: int) -> Option<Seq<char>> {
    Some(scaled_text(amount_of(t.cell(c, r)) - amount_of(t.cell(partner(t, c), r))))
}

/// `out` is `t` with one difference column appended for each paired column.
pub open spec fn is_with_differences(out: Table, t: Table) -> bool {
    let pairs = pair_columns(t, t.width() as int);
    &&& out.wf()
    &&& out.height == t.height
    &&& out.width() == t.width() + pairs.len()
    &&& forall|c: int|
        0 <= c < t.width() ==> (#[trigger] out.columns@[c]).name@ == t.columns@[c].name@ && out.columns@[c].kind
            == t.columns@[c].kind
    &&& forall|c: int, r: int| 0 <= c < t.width() && 0 <= r < t.height ==> #[trigger] out.cell(c, r) == t.cell(c, r)
    &&& forall|e: int|
        0 <= e < pairs.len() ==> (#[trigger] out.columns@[t.width() + e]).name@ == difference_name(
            t.columns@[pairs[e]].name@,
        ) && out.columns@[t.width() + e].kind == ColumnType::Float
    &&& forall|e: int, r: int|
        0 <= e < pairs.len() && 0 <= r < t.height ==> #[trigger] out.cell(t.width() + e, r) == difference_cell(
            t,
            pairs[e],
            r,
        )
}

fn copy_column(col: &Column) -> (out: Column)
    ensures
        out.name@ == col.name@,
        out.kind == col.kind,
        out.values.len() == col.values.len(),
        forall|r: int| 0 <= r < col.values.len() ==> cell_view(#[trigger] out.values@[r]) == cell_view(col.values@[r]),
{
    let mut values: Vec<Option<String>> = Vec::new();
    let mut r: usize = 0;
    while r < col.values.len()
        invariant
            0 <= r <= col.values.len(),
            values.len() == r,
            forall|q: int| 0 <= q < r ==> cell_view(#[trigger] values@[q]) == cell_view(col.values@[q]),
        decreases col.values.len() - r,
    {
        values.push(crate::table::copy_cell(&col.values[r]));
        r += 1;
    }
    Column { name: col.name.clone(), kind: col.kind, values }
}

pub(crate) fn starts_with_prefix(x: &Vec<char>) -> (r: bool)
    ensures
        r == is_difference_name(x@),
{
    let r = x.len() >= 3 && x[0] == '差' && x[1] == '額' && x[2] == '_';
    proof {
        if x@.len() >= 3 && x@.subrange(0, 3) == difference_prefix() {
            assert(x@.subrange(0, 3)[0] == '差' && x@.subrange(0, 3)[1] == '額' && x@.subrange(0, 3)[2] == '_');
        }
        if r {
            assert(x@.subrange(0, 3) =~= difference_prefix());
        }
    }
    r
}

fn ends_with_suffix(x: &Vec<char>) -> (r: bool)
    ensures
        r == ends_with_right(x@),
{
    let n = x.len();
    if n < 6 {
        return false;
    }
    let r = x[n - 6] == '_' && x[n - 5] == 'r' && x[n - 4] == 'i' && x[n - 3] == 'g' && x[n - 2] == 'h' && x[n - 1]
        == 't';
    proof {
        let tail = x@.subrange(n - 6, n as int);
        if tail == right_suffix() {
            assert(tail[0] == '_' && tail[1] == 'r' && tail[2] == 'i' && tail[3] == 'g' && tail[4] == 'h' && tail[5]
                == 't');
        }
        if r {
            assert(tail =~= right_suffix());
        }
    }
    r
}

/// Decides whether column `c` is paired, and finds its partner.
fn pair_of(t: &Table, cols_names: &Vec<Vec<char>>, c: usize) -> (r: Option<usize>)
    requires
        t.wf(),
        c < t.columns.len(),
        cols_names.len() == t.columns.len(),
        forall|q: int| 0 <= q < t.columns.len() ==> (#[trigger] cols_names@[q])@ == t.columns@[q].name@,
    ensures
        r is Some == is_pair_column(*t, c as int),
        r is Some ==> r->Some_0 == partner(*t, c as int),
{
    let x = &cols_names[c];
    if ends_with_suffix(x) || starts_with_prefix(x) {
        return None;
    }
    let name = &t.columns[c].name;
    match t.column_position(name) {
        Some(i) => {
            if i != c {
                return None;
            }
        },
        None => {
            return None;
        },
    }
    let mut xr = x.clone();
    assert(xr@ == x@);
    let mut sfx = vec!['_', 'r', 'i', 'g', 'h', 't'];
    assert(sfx@ == right_suffix());
    xr.append(&mut sfx);
    let right_name = string_of(&xr);
    let p = match t.column_position(&right_name) {
        Some(p) => p,
        None => {
            return None;
        },
    };
    if starts_with_prefix(&xr) {
        return None;
    }
    if !numeric_sample(t, c) {
        return None;
    }
    let mut dn = vec!['差', '額', '_'];
    let mut x1 = x.clone();
    dn.append(&mut x1);
    dn.push('v');
    dn.push('s');
    let mut x2 = x.clone();
    dn.append(&mut x2);
    assert(dn@ =~= difference_name(x@));
    let dname = string_of(&dn);
    if t.column_position(&dname).is_some() {
        return None;
    }
    Some(p)
}

/// Appends a difference column (`X` minus `X_right`, missing amounts as
/// zero) for every column `X` whose sampled cells read as amounts and that
/// has an `X_right` partner.
pub fn add_difference_columns(t: &Table) -> (out: Table)
    requires
        t.wf(),
    ensures
        is_with_differences(out, *t),
{
    let mut names: Vec<Vec<char>> = Vec::new();
    let mut cols: Vec<Column> = Vec::new();
    let mut c: usize = 0;
    while c < t.columns.len()
        invariant
            t.wf(),
            0 <= c <= t.columns.len(),
            names.len() == c,
            cols.len() == c,
            forall|q: int| 0 <= q < c ==> (#[trigger] names@[q])@ == t.columns@[q].name@,
            forall|q: int|
                0 <= q < c ==> (#[trigger] cols@[q]).name@ == t.columns@[q].name@ && cols@[q].kind == t.columns@[q].kind
                    && cols@[q].values.len() == t.height,
            forall|q: int, r: int| 0 <= q < c && 0 <= r < t.height ==> cell_view(#[trigger] cols@[q].values@[r]) == t.cell(q, r),
        decreases t.columns.len() - c,
    {
        names.push(chars_of(&t.columns[c].name));
        assert(t.columns@[c as int].values.len() == t.height);
        cols.push(copy_column(&t.columns[c]));
        c += 1;
    }
    let mut c: usize = 0;
    while c < t.columns.len()
        invariant
            t.wf(),
            0 <= c <= t.columns.len(),
            names.len() == t.columns.len(),
            forall|q: int| 0 <= q < t.columns.len() ==> (#[trigger] names@[q])@ == t.columns@[q].name@,
            cols.len() == t.columns.len() + pair_columns(*t, c as int).len(),
            forall|q: int|
                0 <= q < t.columns.len() ==> (#[trigger] cols@[q]).name@ == t.columns@[q].name@ && cols@[q].kind
                    == t.columns@[q].kind,
            forall|q: int| 0 <= q < cols.len() ==> (#[trigger] cols@[q]).values.len() == t.height,
            forall|q: int, r: int|
                0 <= q < t.columns.len() && 0 <= r < t.height ==> cell_view(#[trigger] cols@[q].values@[r]) == t.cell(q, r),
            forall|e: int|
                0 <= e < pair_columns(*t, c as int).len() ==> (#[trigger] cols@[t.width() + e]).name@ == difference_name(
                    t.columns@[pair_columns(*t, c as int)[e]].name@,
                ) && cols@[t.width() + e].kind == ColumnType::Float,
            forall|e: int, r: int|
                0 <= e < pair_columns(*t, c as int).len() && 0 <= r < t.height ==> cell_view(
                    #[trigger] cols@[t.width() + e].values@[r],
                ) == difference_cell(*t, pair_columns(*t, c as int)[e], r),
        decreases t.columns.len() - c,
    {
        match pair_of(t, &names, c) {
            Some(p) => {
                proof {
                    lemma_first_index_found(t.names(), t.columns@[c as int].name@ + right_suffix());
                }
                let mut values: Vec<Option<String>> = Vec::new();
                let mut r: usize = 0;
                assert(t.columns@[c as int].values.len() == t.height);
                assert(t.columns@[p as int].values.len() == t.height);
                while r < t.height
                    invariant
                        t.wf(),
                        c < t.columns.len(),
                        p < t.columns.len(),
                        p == partner(*t, c as int),
                        0 <= r <= t.height,
                        values.len() == r,
                        forall|q: int| 0 <= q < r ==> cell_view(#[trigger] values@[q]) == difference_cell(*t, c as int, q),
                    decreases t.height - r,
                {
                    assert(t.columns@[c as int].values.len() == t.height);
                    assert(t.columns@[p as int].values.len() == t.height);
                    let a = amount(&t.columns[c].values[r]);
                    let b = amount(&t.columns[p].values[r]);
                    let d = render_scaled(a - b);
                    values.push(Some(string_of(&d)));
                    r += 1;
                }
                let mut dn = vec!['差', '額', '_'];
                let mut x1 = names[c].clone();
                dn.append(&mut x1);
                dn.push('v');
                dn.push('s');
                let mut x2 = names[c].clone();
                dn.append(&mut x2);
                assert(dn@ =~= difference_name(t.columns@[c as int].name@));
                let ghost before = pair_columns(*t, c as int);
                cols.push(Column { name: string_of(&dn), kind: ColumnType::Float, values });
                assert(pair_columns(*t, c + 1) == before.push(c as int));
            },
            None => {
                assert(pair_columns(*t, c + 1) == pair_columns(*t, c as int));
            },
        }
        c += 1;
    }
    Table { columns: cols, height: t.height }
}


proof fn lemma_first_index_append(a: Seq<Seq<char>>, b: Seq<Seq<char>>, x: Seq<char>)
    ensures
        first_index(a, x) is Some ==> first_index(a + b, x) == first_index(a, x),
        first_index(a, x) is None && first_index(a + b, x) is Some ==> exists|k: int| 0 <= k < b.len() && b[k] == x,
{
    lemma_first_index_found(a, x);
    lemma_first_index_found(a + b, x);
    if first_index(a, x) is Some {
        let i = first_index(a, x)->Some_0;
        assert((a + b)[i] == x);
        assert forall|k: int| 0 <= k < i implies (a + b)[k] != x by {
            assert((a + b)[k] == a[k]);
        }
        crate::table::lemma_first_index_is(a + b, x, i);
    } else if first_index(a + b, x) is Some {
        let j = first_index(a + b, x)->Some_0;
        if j < a.len() {
            assert((a + b)[j] == a[j]);
        }
        assert(b[j - a.len()] == x);
    }
}

proof fn lemma_pair_columns_members(t: Table, n: int)
    ensures
        forall|e: int| 0 <= e < pair_columns(t, n).len() ==> (#[trigger] pair_columns(t, n)[e]) < n,
        forall|c: int| 0 <= c < n && #[trigger] is_pair_column(t, c) ==> exists|e: int| 0 <= e < pair_columns(t, n).len() && pair_columns(t, n)[e] == c,
    decreases n,
{
    if n > 0 {
        lemma_pair_columns_members(t, n - 1);
        let s = pair_columns(t, n - 1);
        let all = pair_columns(t, n);
        if is_pair_column(t, n - 1) {
            assert(all == s.push(n - 1));
            assert forall|e: int| 0 <= e < all.len() implies (#[trigger] all[e]) < n by {
                if e < s.len() {
                    assert(all[e] == s[e]);
                }
            }
            assert forall|c: int| 0 <= c < n && #[trigger] is_pair_column(t, c) implies exists|e: int| 0 <= e < all.len() && all[e] == c by {
                if c < n - 1 {
                    let e = choose|e: int| 0 <= e < s.len() && s[e] == c;
                    assert(all[e] == c);
                } else {
                    assert(all[s.len() as int] == c);
                }
            }
        } else {
            assert(all == s);
            assert forall|c: int| 0 <= c < n && #[trigger] is_pair_column(t, c) implies exists|e: int| 0 <= e < all.len() && all[e] == c by {
                assert(c < n - 1);
                let e = choose|e: int| 0 <= e < s.len() && s[e] == c;
                assert(all[e] == c);
            }
        }
    }
}

proof fn lemma_no_pairs(t: Table, n: int)
    requires
        forall|c: int| 0 <= c < n ==> !#[trigger] is_pair_column(t, c),
    ensures
        pair_columns(t, n).len() == 0,
    decreases n,
{
    if n > 0 {
        lemma_no_pairs(t, n - 1);
    }
}

proof fn lemma_samples_agree(t: Table, u: Table, c: int, n: int)
    requires
        0 <= n <= t.height,
        forall|r: int| 0 <= r < t.height ==> #[trigger] u.cell(c, r) == t.cell(c, r),
    ensures
        sample_counted(u, c, n) == sample_counted(t, c, n),
        sample_numeric(u, c, n) == sample_numeric(t, c, n),
    decreases n,
{
    if n > 0 {
        lemma_samples_agree(t, u, c, n - 1);
        assert(u.cell(c, n - 1) == t.cell(c, n - 1));
    }
}

proof fn lemma_old_column_not_paired(t: Table, once: Table, c: int)
    requires
        t.wf(),
        is_with_differences(once, t),
        0 <= c < t.width(),
    ensures
        !is_pair_column(once, c),
{
    let pairs = pair_columns(t, t.width() as int);
    let tw = t.width() as int;
    let a = t.names();
    let b = once.names().subrange(tw, once.width() as int);
    assert(once.names() =~= a + b);
    lemma_pair_columns_members(t, tw);
    let x = t.columns@[c].name@;
    let xr = x + right_suffix();
    let dn = difference_name(x);
    assert(a[c] == x);
    lemma_first_index_found(a, x);
    lemma_first_index_append(a, b, x);
    lemma_first_index_append(a, b, xr);
    lemma_first_index_append(a, b, dn);
    assert(forall|r: int| 0 <= r < t.height ==> #[trigger] once.cell(c, r) == t.cell(c, r));
    lemma_samples_agree(t, once, c, sample_size(t));
    if is_pair_column(t, c) {
        let e = choose|e: int| 0 <= e < pairs.len() && pairs[e] == c;
        assert(once.columns@[tw + e].name@ == dn);
        assert(b[e] == dn);
        lemma_first_index_found(a + b, dn);
    } else {
        if first_index(a, xr) is None && first_index(a + b, xr) is Some {
            let k = choose|k: int| 0 <= k < b.len() && b[k] == xr;
            let y = t.columns@[pairs[k]].name@;
            assert(once.columns@[tw + k].name@ == difference_name(y));
            assert(difference_name(y).subrange(0, 3) =~= difference_prefix());
            assert(xr.subrange(0, 3) == difference_name(y).subrange(0, 3));
        }
    }
}

/// Adding difference columns to a table that already has them adds nothing:
/// the second result equals the first.
pub proof fn difference_columns_idempotent(t: Table, once: Table, twice: Table)
    requires
        t.wf(),
        is_with_differences(once, t),
        is_with_differences(twice, once),
    ensures
        twice.height == once.height,
        twice.width() == once.width(),
        forall|c: int|
            0 <= c < once.width() ==> (#[trigger] twice.columns@[c]).name@ == once.columns@[c].name@
                && twice.columns@[c].kind == once.columns@[c].kind,
        forall|c: int, r: int| 0 <= c < once.width() && 0 <= r < once.height ==> #[trigger] twice.cell(c, r) == once.cell(c, r),
{
    let pairs = pair_columns(t, t.width() as int);
    let tw = t.width() as int;
    assert forall|c: int| 0 <= c < once.width() implies !#[trigger] is_pair_column(once, c) by {
        if c >= tw {
            let y = t.columns@[pairs[c - tw]].name@;
            assert(once.columns@[tw + (c - tw)].name@ == difference_name(y));
            assert(difference_name(y).subrange(0, 3) =~= difference_prefix());
        } else {
            lemma_old_column_not_paired(t, once, c);
        }
    }
    lemma_no_pairs(once, once.width() as int);
}

} // verus!
