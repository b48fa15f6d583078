//! Type inference for raw spreadsheet columns.
use vstd::prelude::*;
use crate::table::{Column, ColumnType, Table};
use crate::text::{
    chars_of, contains, contains_chars, int_value, is_number, is_number_text, lower_of, lowercase, parse_int,
    string_of, trim, trim_chars,
};

verus! {

/// A trimmed cell that stands for a missing value.
pub open spec fn is_null_text(s: Seq<char>) -> bool {
    s.len() == 0 || s == seq!['N', '/', 'A']
}

/// A raw cell after trimming; `None` when it is absent or stands for a missing value.
pub open spec fn cleaned(raw: Option<Seq<char>>) -> Option<Seq<char>> {
    match raw {
        Some(s) => if is_null_text(trim(s)) {
            None
        } else {
            Some(trim(s))
        },
        None => None,
    }
}

/// Raw cell `r` of column `c`; `None` past the end of the data.
pub open spec fn raw_cell(columns: Seq<Vec<String>>, c: int, r: int) -> Option<Seq<char>> {
    if 0 <= c < columns.len() && 0 <= r < columns[c].len() {
        Some(columns[c]@[r]@)
    } else {
        None
    }
}

pub open spec fn raw_len(columns: Seq<Vec<String>>, c: int) -> nat {
    if 0 <= c < columns.len() {
        columns[c]@.len()
    } else {
        0
    }
}

/// The longest of the first `n` raw columns.
pub open spec fn tallest(columns: Seq<Vec<String>>, n: int) -> nat
    decreases n,
{
    if n <= 0 {
        0
    } else {
        let rest = tallest(columns, n - 1);
        if raw_len(columns, n - 1) > rest {
            raw_len(columns, n - 1)
        } else {
            rest
        }
    }
}

/// A lower-cased column name that marks codes and identifiers.
pub open spec fn is_identifier_name(lower: Seq<char>) -> bool {
    contains(lower, seq!['コ', 'ー', 'ド']) || contains(lower, seq!['c', 'o', 'd', 'e']) || contains(
        lower,
        seq!['番', '号'],
    ) || contains(lower, seq!['i', 'd']) || contains(lower, seq!['取', '引', '先'])
}

fn identifier_name(lower: &Vec<char>) -> (r: bool)
    ensures
        r == is_identifier_name(lower@),
{
    let a = vec!['コ', 'ー', 'ド'];
    let b = vec!['c', 'o', 'd', 'e'];
    let c = vec!['番', '号'];
    let d = vec!['i', 'd'];
    let e = vec!['取', '引', '先'];
    contains_chars(lower, &a) || contains_chars(lower, &b) || contains_chars(lower, &c) || contains_chars(lower, &d)
        || contains_chars(lower, &e)
}

/// Some of the first `n` cells of column `c` is an integer.
pub open spec fn some_integer(columns: Seq<Vec<String>>, c: int, n: int) -> bool {
    exists|r: int| 0 <= r < n && #[trigger] cleaned(raw_cell(columns, c, r)) is Some && int_value(cleaned(raw_cell(columns, c, r))->Some_0) is Some
}

/// Some of the first `n` cells of column `c` is a number.
pub open spec fn some_number(columns: Seq<Vec<String>>, c: int, n: int) -> bool {
    exists|r: int| 0 <= r < n && #[trigger] cleaned(raw_cell(columns, c, r)) is Some && is_number_text(cleaned(raw_cell(columns, c, r))->Some_0)
}

/// Some of the first `n` cells of column `c` reads neither as an integer nor as a number.
pub open spec fn some_text(columns: Seq<Vec<String>>, c: int, n: int) -> bool {
    exists|r: int|
        0 <= r < n && #[trigger] cleaned(raw_cell(columns, c, r)) is Some && int_value(cleaned(raw_cell(columns, c, r))->Some_0)
            is None && !is_number_text(cleaned(raw_cell(columns, c, r))->Some_0)
}

/// The type of column `c` named `name`: text for identifiers and for
/// columns with a cell that is no number; else integer when some cell is an
/// integer, else a floating type when some cell is a number; text when no
/// cell holds anything.
pub open spec fn inferred_type(name: Seq<char>, columns: Seq<Vec<String>>, c: int) -> ColumnType {
    if is_identifier_name(lower_of(name)) {
        ColumnType::Text
    } else if some_text(columns, c, raw_len(columns, c) as int) {
        ColumnType::Text
    } else if some_integer(columns, c, raw_len(columns, c) as int) {
        ColumnType::Integer
    } else if some_number(columns, c, raw_len(columns, c) as int) {
        ColumnType::Float
    } else {
        ColumnType::Text
    }
}

/// A cleaned cell kept under a column type: values that do not read as that
/// type become null.
pub open spec fn typed_cell(kind: ColumnType, v: Option<Seq<char>>) -> Option<Seq<char>> {
    match v {
        Some(s) => match kind {
            ColumnType::Integer => if int_value(s) is Some {
                Some(s)
            } else {
                None
            },
            ColumnType::Float => if is_number_text(s) {
                Some(s)
            } else {
                None
            },
            ColumnType::Text => Some(s),
        },
        None => None,
    }
}

/// `t` is the typed table of `header` over the raw `columns`: as many rows
/// as the longest raw column under a header name, one column per name, each
/// with its inferred type and its cleaned cells kept under that type.
pub open spec fn is_cleaned(t: Table, header: Seq<String>, columns: Seq<Vec<String>>) -> bool {
    &&& t.wf()
    &&& t.height == tallest(columns, header.len() as int)
    &&& t.width() == header.len()
    &&& forall|c: int|
        0 <= c < header.len() ==> (#[trigger] t.columns@[c]).name@ == header[c]@ && t.columns@[c].kind == inferred_type(
            header[c]@,
            columns,
            c,
        )
    &&& forall|c: int, r: int|
        0 <= c < header.len() && 0 <= r < t.height ==> #[trigger] t.cell(c, r) == typed_cell(
            inferred_type(header[c]@, columns, c),
            cleaned(raw_cell(columns, c, r)),
        )
}

/// Cleaning keeps the row count of the longest raw column, and an
/// identifier column holds its raw cells as text, only trimmed (null where
/// the trimmed cell is empty or `N/A`).
pub proof fn identifier_columns_keep_their_text(t: Table, header: Seq<String>, columns: Seq<Vec<String>>, c: int, r: int)
    requires
        is_cleaned(t, header, columns),
        0 <= c < header.len(),
        0 <= r < t.height,
        is_identifier_name(lower_of(header[c]@)),
    ensures
        t.height == tallest(columns, header.len() as int),
        t.columns@[c].kind == ColumnType::Text,
        t.cell(c, r) == cleaned(raw_cell(columns, c, r)),
{
    assert(t.cell(c, r) == typed_cell(inferred_type(header[c]@, columns, c), cleaned(raw_cell(columns, c, r))));
}

/// A cleaned raw cell, with the text it came from.
fn clean_cell(columns: &Vec<Vec<String>>, c: usize, r: usize) -> (res: Option<String>)
    ensures
        match res {
            Some(s) => cleaned(raw_cell(columns@, c as int, r as int)) == Some(s@),
            None => cleaned(raw_cell(columns@, c as int, r as int)) is None,
        },
{
    if c < columns.len() && r < columns[c].len() {
        let chars = chars_of(&columns[c][r]);
        let t = trim_chars(&chars);
        let na = t.len() == 3 && t[0] == 'N' && t[1] == '/' && t[2] == 'A';
        assert(na == (t@ == seq!['N', '/', 'A'])) by {
            if t@.len() == 3 && t@ == seq!['N', '/', 'A'] {
                assert(t@[0] == 'N' && t@[1] == '/' && t@[2] == 'A');
            }
            if na {
                assert(t@ =~= seq!['N', '/', 'A']);
            }
        }
        if t.len() == 0 || na {
            None
        } else {
            Some(string_of(&t))
        }
    } else {
        None
    }
}

/// Builds a typed table from a header and raw columns. Column `i` is named
/// `header[i]` and holds the raw cells of `columns[i]`; rows that a column
/// lacks are null, and raw columns past the header are ignored.
pub fn clean_and_infer_columns(header: &Vec<String>, columns: &Vec<Vec<String>>) -> (t: Table)
    ensures
        is_cleaned(t, header@, columns@),
{
    let mut height: usize = 0;
    let mut c: usize = 0;
    while c < header.len()
        invariant
            0 <= c <= header.len(),
            height == tallest(columns@, c as int),
        decreases header.len() - c,
    {
        if c < columns.len() && columns[c].len() > height {
            height = columns[c].len();
        }
        c += 1;
    }
    let mut cols: Vec<Column> = Vec::new();
    let mut c: usize = 0;
    while c < header.len()
        invariant
            0 <= c <= header.len(),
            height == tallest(columns@, header.len() as int),
            cols.len() == c,
            forall|q: int|
                0 <= q < c ==> (#[trigger] cols@[q]).name@ == header@[q]@ && cols@[q].kind == inferred_type(
                    header@[q]@,
                    columns@,
                    q,
                ) && cols@[q].values.len() == height,
            forall|q: int, r: int|
                0 <= q < c && 0 <= r < height ==> crate::table::cell_view(#[trigger] cols@[q].values@[r])
                    == typed_cell(inferred_type(header@[q]@, columns@, q), cleaned(raw_cell(columns@, q, r))),
        decreases header.len() - c,
    {
        let kind = infer_type(&header[c], columns, c);
        let mut values: Vec<Option<String>> = Vec::new();
        let mut r: usize = 0;
        while r < height
            invariant
                0 <= r <= height,
                kind == inferred_type(header@[c as int]@, columns@, c as int),
                values.len() == r,
                forall|k: int|
                    0 <= k < r ==> crate::table::cell_view(#[trigger] values@[k]) == typed_cell(
                        kind,
                        cleaned(raw_cell(columns@, c as int, k)),
                    ),
            decreases height - r,
        {
            let v = clean_cell(columns, c, r);
            let kept = match v {
                Some(s) => {
                    let keep = match kind {
                        ColumnType::Integer => parse_int(&chars_of(&s)).is_some(),
                        ColumnType::Float => is_number(&chars_of(&s)),
                        ColumnType::Text => true,
                    };
                    if keep {
                        Some(s)
                    } else {
                        None
                    }
                },
                None => None,
            };
            values.push(kept);
            r += 1;
        }
        cols.push(Column { name: header[c].clone(), kind, values });
        c += 1;
    }
    Table { columns: cols, height }
}

/// The type that inference gives column `c`.
fn infer_type(name: &String, columns: &Vec<Vec<String>>, c: usize) -> (k: ColumnType)
    ensures
        k == inferred_type(name@, columns@, c as int),
{
    let lower = lowercase(name);
    if identifier_name(&chars_of(&lower)) {
        return ColumnType::Text;
    }
    let n: usize = if c < columns.len() { columns[c].len() } else { 0 };
    let mut any_int = false;
    let mut any_dec = false;
    let mut any_text = false;
    let mut r: usize = 0;
    while r < n
        invariant
            0 <= r <= n,
            n == raw_len(columns@, c as int),
            any_int == some_integer(columns@, c as int, r as int),
            any_dec == some_number(columns@, c as int, r as int),
            any_text == some_text(columns@, c as int, r as int),
        decreases n - r,
    {
        let v = clean_cell(columns, c, r);
        match v {
            Some(s) => {
                let cs = chars_of(&s);
                let whole = parse_int(&cs).is_some();
                let num = is_number(&cs);
                if whole {
                    any_int = true;
                }
                if num {
                    any_dec = true;
                }
                if !whole && !num {
                    any_text = true;
                }
            },
            None => {},
        }
        proof {
            if some_integer(columns@, c as int, r + 1) && !some_integer(columns@, c as int, r as int) {
                let w = choose|w: int| 0 <= w < r + 1 && #[trigger] cleaned(raw_cell(columns@, c as int, w)) is Some && int_value(cleaned(raw_cell(columns@, c as int, w))->Some_0) is Some;
                assert(w == r);
            }
            if some_number(columns@, c as int, r + 1) && !some_number(columns@, c as int, r as int) {
                let w = choose|w: int| 0 <= w < r + 1 && #[trigger] cleaned(raw_cell(columns@, c as int, w)) is Some && is_number_text(cleaned(raw_cell(columns@, c as int, w))->Some_0);
                assert(w == r);
            }
            if some_text(columns@, c as int, r + 1) && !some_text(columns@, c as int, r as int) {
                let w = choose|w: int|
                    0 <= w < r + 1 && #[trigger] cleaned(raw_cell(columns@, c as int, w)) is Some && int_value(
                        cleaned(raw_cell(columns@, c as int, w))->Some_0,
                    ) is None && !is_number_text(cleaned(raw_cell(columns@, c as int, w))->Some_0);
                assert(w == r);
            }
        }
        r += 1;
    }
    if any_text {
        ColumnType::Text
    } else if any_int {
        ColumnType::Integer
    } else if any_dec {
        ColumnType::Float
    } else {
        ColumnType::Text
    }
}

} // verus!
