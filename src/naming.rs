//! Names of exported files and sheets.
use vstd::prelude::*;
use crate::text::{chars_of, count_text, render_count, string_of};

verus! {

/// Characters that file names cannot hold.
pub open spec fn is_forbidden(c: char) -> bool {
    c == '<' || c == '>' || c == ':' || c == '"' || c == '/' || c == '\\' || c == '|' || c == '?' || c == '*'
}

/// `s` with forbidden characters turned into `_` and runs of `_` cut to one.
pub open spec fn collapsed(s: Seq<char>) -> Seq<char>
    decreases s.len(),
{
    if s.len() == 0 {
        s
    } else {
        let p = collapsed(s.drop_last());
        let c = if is_forbidden(s.last()) { '_' } else { s.last() };
        if c == '_' && p.len() > 0 && p.last() == '_' {
            p
        } else {
            p.push(c)
        }
    }
}

pub open spec fn strip_start(s: Seq<char>) -> Seq<char>
    decreases s.len(),
{
    if s.len() > 0 && s[0] == '_' {
        strip_start(s.drop_first())
    } else {
        s
    }
}

pub open spec fn strip_end(s: Seq<char>) -> Seq<char>
    decreases s.len(),
{
    if s.len() > 0 && s.last() == '_' {
        strip_end(s.drop_last())
    } else {
        s
    }
}

/// A group key made safe as a file name: forbidden characters become `_`,
/// runs of `_` become one, and `_` is trimmed from both ends.
pub open spec fn safe_file_name(s: Seq<char>) -> Seq<char> {
    strip_end(strip_start(collapsed(s)))
}

pub fn sanitize_filename(s: &String) -> (r: String)
    ensures
        r@ == safe_file_name(s@),
{
    let v = chars_of(s);
    let mut out: Vec<char> = Vec::new();
    let mut k: usize = 0;
    while k < v.len()
        invariant
            0 <= k <= v.len(),
            out@ == collapsed(v@.subrange(0, k as int)),
        decreases v.len() - k,
    {
        assert(v@.subrange(0, k + 1).drop_last() =~= v@.subrange(0, k as int));
        let ch = v[k];
        let c = if ch == '<' || ch == '>' || ch == ':' || ch == '"' || ch == '/' || ch == '\\' || ch == '|' || ch == '?'
            || ch == '*' {
            '_'
        } else {
            ch
        };
        if !(c == '_' && out.len() > 0 && out[out.len() - 1] == '_') {
            out.push(c);
        }
        k += 1;
    }
    assert(v@.subrange(0, k as int) =~= v@);
    let n = out.len();
    let mut i: usize = 0;
    assert(out@.subrange(0, n as int) =~= out@);
    while i < n && out[i] == '_'
        invariant
            n == out.len(),
            0 <= i <= n,
            strip_start(out@) == strip_start(out@.subrange(i as int, n as int)),
        decreases n - i,
    {
        assert(out@.subrange(i as int, n as int).drop_first() =~= out@.subrange(i + 1, n as int));
        i += 1;
    }
    let mut j: usize = n;
    while j > i && out[j - 1] == '_'
        invariant
            n == out.len(),
            0 <= i <= j <= n,
            strip_start(out@) == out@.subrange(i as int, n as int) || i == n,
            safe_file_name(v@) == strip_end(out@.subrange(i as int, j as int)),
        decreases j,
    {
        assert(out@.subrange(i as int, j as int).drop_last() =~= out@.subrange(i as int, j - 1));
        j -= 1;
    }
    let r = crate::text::copy_range(&out, i, j);
    string_of(&r)
}

/// Characters that sheet names cannot hold; they become `_`.
pub open spec fn is_sheet_forbidden(c: char) -> bool {
    c == ':' || c == '\\' || c == '/' || c == '?' || c == '*' || c == '[' || c == ']'
}

/// A text made safe as a sheet name, without its double quotes.
pub open spec fn sheet_chars(s: Seq<char>) -> Seq<char>
    decreases s.len(),
{
    if s.len() == 0 {
        s
    } else if s.last() == '"' {
        sheet_chars(s.drop_last())
    } else {
        sheet_chars(s.drop_last()).push(if is_sheet_forbidden(s.last()) { '_' } else { s.last() })
    }
}

/// At most the first 31 characters of the safe text.
pub open spec fn safe_sheet_name(s: Seq<char>) -> Seq<char> {
    let t = sheet_chars(s);
    if t.len() <= 31 {
        t
    } else {
        t.subrange(0, 31)
    }
}

pub fn sanitize_sheet_name(s: &String) -> (r: String)
    ensures
        r@ == safe_sheet_name(s@),
{
    let v = chars_of(s);
    let mut out: Vec<char> = Vec::new();
    let mut k: usize = 0;
    while k < v.len()
        invariant
            0 <= k <= v.len(),
            out@ == sheet_chars(v@.subrange(0, k as int)),
        decreases v.len() - k,
    {
        assert(v@.subrange(0, k + 1).drop_last() =~= v@.subrange(0, k as int));
        let ch = v[k];
        if ch != '"' {
            let c = if ch == ':' || ch == '\\' || ch == '/' || ch == '?' || ch == '*' || ch == '[' || ch == ']' {
                '_'
            } else {
                ch
            };
            out.push(c);
        }
        k += 1;
    }
    assert(v@.subrange(0, k as int) =~= v@);
    let end = if out.len() <= 31 { out.len() } else { 31 };
    let r = crate::text::copy_range(&out, 0, end);
    assert(out@.len() <= 31 ==> out@.subrange(0, end as int) =~= out@);
    string_of(&r)
}

/// The file that chunk `index` (from 1) of a group is saved to.
pub open spec fn chunk_file(key: Seq<char>, index: nat) -> Seq<char> {
    safe_file_name(key) + seq!['_'] + count_text(index) + seq!['.', 'x', 'l', 's', 'x']
}

pub fn chunk_file_name(key: &String, index: usize) -> (r: String)
    ensures
        r@ == chunk_file(key@, index as nat),
{
    let base = sanitize_filename(key);
    let mut out = chars_of(&base);
    out.push('_');
    let mut digits = render_count(index);
    out.append(&mut digits);
    let mut ext = vec!['.', 'x', 'l', 's', 'x'];
    out.append(&mut ext);
    assert(out@ =~= chunk_file(key@, index as nat));
    string_of(&out)
}

/// `path` with `_stamp` put before its last `.xlsx`, or after it when it has none.
pub open spec fn alternate_path(path: Seq<char>, stamp: Seq<char>) -> Seq<char> {
    let ext = seq!['.', 'x', 'l', 's', 'x'];
    if path.len() >= 5 && path.subrange(path.len() - 5, path.len() as int) == ext {
        path.subrange(0, path.len() - 5) + seq!['_'] + stamp + ext
    } else {
        path + seq!['_'] + stamp
    }
}

/// Another file name to offer when the chosen one is in use.
pub fn alternate_file_name(path: &String, stamp: &String) -> (r: String)
    ensures
        r@ == alternate_path(path@, stamp@),
{
    let p = chars_of(path);
    let n = p.len();
    let has_ext = n >= 5 && p[n - 5] == '.' && p[n - 4] == 'x' && p[n - 3] == 'l' && p[n - 2] == 's' && p[n - 1] == 'x';
    let ghost ext = seq!['.', 'x', 'l', 's', 'x'];
    proof {
        if n >= 5 {
            let tail = p@.subrange(n - 5, n as int);
            if tail == ext {
                assert(tail[0] == '.' && tail[1] == 'x' && tail[2] == 'l' && tail[3] == 's' && tail[4] == 'x');
            }
            if has_ext {
                assert(tail =~= ext);
            }
        }
    }
    let stem_end = if has_ext { n - 5 } else { n };
    let mut out = crate::text::copy_range(&p, 0, stem_end);
    out.push('_');
    let mut st = chars_of(stamp);
    out.append(&mut st);
    if has_ext {
        let mut e = vec!['.', 'x', 'l', 's', 'x'];
        out.append(&mut e);
    }
    assert(!has_ext ==> p@.subrange(0, stem_end as int) =~= p@);
    assert(out@ =~= alternate_path(path@, stamp@));
    string_of(&out)
}

} // verus!
