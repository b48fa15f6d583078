//! Character-level helpers shared by the pipeline: trimming, keyword search,
//! number grammars and the rendering of scaled integers.
use vstd::prelude::*;

verus! {

/// What `str::to_lowercase` gives for a text.
pub uninterp spec fn lower_of(s: Seq<char>) -> Seq<char>;

/// Relies on `str::to_lowercase`: the result depends on the characters alone.
#[verifier::external_body]
pub(crate) fn lowercase(s: &String) -> (r: String)
    ensures
        r@ == lower_of(s@),
{
    s.to_lowercase()
}

/// Relies on `str::chars` collected into a vector: the characters in order.
#[verifier::external_body]
pub(crate) fn chars_of(s: &String) -> (r: Vec<char>)
    ensures
        r@ == s@,
{
    s.chars().collect()
}

/// Relies on `String: FromIterator<&char>`: the characters in order.
#[verifier::external_body]
pub(crate) fn string_of(v: &Vec<char>) -> (r: String)
    ensures
        r@ == v@,
{
    v.iter().collect()
}

/// `needle` occurs in `hay` as a contiguous run.
pub open spec fn contains(hay: Seq<char>, needle: Seq<char>) -> bool {
    exists|i: int| 0 <= i <= hay.len() - needle.len() && #[trigger] hay.subrange(i, i + needle.len()) == needle
}

pub fn contains_chars(hay: &Vec<char>, needle: &Vec<char>) -> (r: bool)
    ensures
        r == contains(hay@, needle@),
{
    if needle.len() > hay.len() {
        return false;
    }
    let last = hay.len() - needle.len();
    let mut i: usize = 0;
    while i <= last
        invariant
            last == hay.len() - needle.len(),
            0 <= i <= last + 1,
            forall|k: int| 0 <= k < i ==> #[trigger] hay@.subrange(k, k + needle.len()) != needle@,
        decreases last + 1 - i,
    {
        let mut j: usize = 0;
        let mut same = true;
        while j < needle.len()
            invariant
                i <= last,
                last == hay.len() - needle.len(),
                0 <= j <= needle.len(),
                same == (forall|m: int| 0 <= m < j ==> hay@[i + m] == needle@[m]),
            decreases needle.len() - j,
        {
            if hay[i + j] != needle[j] {
                same = false;
            }
            j += 1;
        }
        if same {
            assert(hay@.subrange(i as int, i + needle.len()) =~= needle@);
            return true;
        }
        assert(hay@.subrange(i as int, i + needle.len()) != needle@) by {
            let m = choose|m: int| 0 <= m < needle.len() && hay@[i + m] != needle@[m];
            assert(hay@.subrange(i as int, i + needle.len())[m] != needle@[m]);
        }
        i += 1;
    }
    false
}

/// Characters removed from both ends of a raw cell.
pub open spec fn is_trim_char(c: char) -> bool {
    c == '"' || c == '\'' || c == ' ' || c == '\t' || c == '\n' || c == '\r'
}

pub open spec fn trim_start(s: Seq<char>) -> Seq<char>
    decreases s.len(),
{
    if s.len() > 0 && is_trim_char(s[0]) {
        trim_start(s.drop_first())
    } else {
        s
    }
}

pub open spec fn trim_end(s: Seq<char>) -> Seq<char>
    decreases s.len(),
{
    if s.len() > 0 && is_trim_char(s.last()) {
        trim_end(s.drop_last())
    } else {
        s
    }
}

/// A cell with quotes and whitespace removed from both ends.
pub open spec fn trim(s: Seq<char>) -> Seq<char> {
    trim_end(trim_start(s))
}

pub(crate) fn is_trim(c: char) -> (r: bool)
    ensures
        r == is_trim_char(c),
{
    c == '"' || c == '\'' || c == ' ' || c == '\t' || c == '\n' || c == '\r'
}

pub(crate) fn copy_range(v: &Vec<char>, from: usize, to: usize) -> (r: Vec<char>)
    requires
        from <= to <= v.len(),
    ensures
        r@ == v@.subrange(from as int, to as int),
{
    let mut out: Vec<char> = Vec::new();
    let mut k = from;
    while k < to
        invariant
            from <= k <= to <= v.len(),
            out@ == v@.subrange(from as int, k as int),
        decreases to - k,
    {
        out.push(v[k]);
        proof {
            assert(v@.subrange(from as int, k + 1) =~= v@.subrange(from as int, k as int).push(v@[k as int]));
        }
        k += 1;
    }
    out
}

pub fn trim_chars(v: &Vec<char>) -> (r: Vec<char>)
    ensures
        r@ == trim(v@),
{
    let n = v.len();
    let mut i: usize = 0;
    assert(v@.subrange(0, n as int) =~= v@);
    while i < n && is_trim(v[i])
        invariant
            n == v.len(),
            0 <= i <= n,
            trim_start(v@) == trim_start(v@.subrange(i as int, n as int)),
        decreases n - i,
    {
        proof {
            assert(v@.subrange(i as int, n as int).drop_first() =~= v@.subrange(i + 1, n as int));
        }
        i += 1;
    }
    assert(trim_start(v@) == v@.subrange(i as int, n as int));
    let mut j: usize = n;
    while j > i && is_trim(v[j - 1])
        invariant
            n == v.len(),
            0 <= i <= j <= n,
            trim(v@) == trim_end(v@.subrange(i as int, j as int)),
        decreases j,
    {
        proof {
            assert(v@.subrange(i as int, j as int).drop_last() =~= v@.subrange(i as int, j - 1));
        }
        j -= 1;
    }
    copy_range(v, i, j)
}


pub open spec fn is_digit(c: char) -> bool {
    '0' <= c && c <= '9'
}

pub open spec fn digit_value(c: char) -> int {
    c as int - '0' as int
}

pub open spec fn all_digits(s: Seq<char>) -> bool {
    forall|i: int| 0 <= i < s.len() ==> is_digit(#[trigger] s[i])
}

/// The number that a run of decimal digits spells.
pub open spec fn digits_value(s: Seq<char>) -> int
    decreases s.len(),
{
    if s.len() == 0 {
        0
    } else {
        digits_value(s.drop_last()) * 10 + digit_value(s.last())
    }
}

pub proof fn lemma_digits_value_nonneg(s: Seq<char>)
    requires
        all_digits(s),
    ensures
        digits_value(s) >= 0,
    decreases s.len(),
{
    if s.len() > 0 {
        assert(all_digits(s.drop_last())) by {
            assert forall|i: int| 0 <= i < s.len() - 1 implies is_digit(#[trigger] s.drop_last()[i]) by {
                assert(s.drop_last()[i] == s[i]);
            }
        }
        lemma_digits_value_nonneg(s.drop_last());
        assert(is_digit(s[s.len() - 1]));
    }
}

pub proof fn lemma_digits_value_grows(s: Seq<char>, k: int, m: int)
    requires
        0 <= k <= m <= s.len(),
        all_digits(s),
    ensures
        0 <= digits_value(s.subrange(0, k)) <= digits_value(s.subrange(0, m)),
    decreases m,
{
    assert(all_digits(s.subrange(0, m))) by {
        assert forall|i: int| 0 <= i < m implies is_digit(#[trigger] s.subrange(0, m)[i]) by {
            assert(s.subrange(0, m)[i] == s[i]);
        }
    }
    lemma_digits_value_nonneg(s.subrange(0, m));
    if k < m {
        lemma_digits_value_grows(s, k, m - 1);
        assert(s.subrange(0, m).drop_last() =~= s.subrange(0, m - 1));
        assert(is_digit(s[m - 1]));
    }
}

/// Reads the digits `v[from..to]`; `None` when their value passes `cap`.
pub(crate) fn read_digits(v: &Vec<char>, from: usize, to: usize, cap: i128) -> (r: Option<i128>)
    requires
        from <= to <= v.len(),
        all_digits(v@.subrange(from as int, to as int)),
        0 <= cap <= 1_000_000_000_000_000_000_000_000_000_000i128,
    ensures
        match r {
            Some(x) => x == digits_value(v@.subrange(from as int, to as int)) && 0 <= x <= cap,
            None => digits_value(v@.subrange(from as int, to as int)) > cap,
        },
{
    let ghost whole = v@.subrange(from as int, to as int);
    let mut acc: i128 = 0;
    let mut k = from;
    while k < to
        invariant
            from <= k <= to <= v.len(),
            whole == v@.subrange(from as int, to as int),
            all_digits(whole),
            0 <= cap <= 1_000_000_000_000_000_000_000_000_000_000i128,
            acc == digits_value(whole.subrange(0, k - from)),
            0 <= acc <= cap,
        decreases to - k,
    {
        let c = v[k];
        assert(is_digit(whole[k - from]));
        let d = (c as u32 - '0' as u32) as i128;
        proof {
            assert(whole.subrange(0, k + 1 - from).drop_last() =~= whole.subrange(0, k - from));
        }
        acc = acc * 10 + d;
        k += 1;
        if acc > cap {
            proof {
                lemma_digits_value_grows(whole, k - from, to - from);
                assert(whole.subrange(0, to - from) =~= whole);
            }
            return None;
        }
    }
    assert(whole.subrange(0, to - from) =~= whole);
    Some(acc)
}

pub(crate) fn check_digits(v: &Vec<char>, from: usize, to: usize) -> (r: bool)
    requires
        from <= to <= v.len(),
    ensures
        r == all_digits(v@.subrange(from as int, to as int)),
{
    let mut k = from;
    while k < to
        invariant
            from <= k <= to <= v.len(),
            all_digits(v@.subrange(from as int, k as int)),
        decreases to - k,
    {
        if !(v[k] >= '0' && v[k] <= '9') {
            assert(!is_digit(v@.subrange(from as int, to as int)[k - from]));
            return false;
        }
        k += 1;
    }
    true
}

/// Length of a leading `+` or `-`.
pub open spec fn sign_len(s: Seq<char>) -> int {
    if s.len() > 0 && (s[0] == '+' || s[0] == '-') {
        1
    } else {
        0
    }
}

pub open spec fn is_negative(s: Seq<char>) -> bool {
    s.len() > 0 && s[0] == '-'
}

pub open spec fn unsigned_body(s: Seq<char>) -> Seq<char> {
    s.subrange(sign_len(s), s.len() as int)
}

/// The value of a text that `i64` parsing accepts: an optional sign and at
/// least one digit, in the range of `i64`.
pub open spec fn int_value(s: Seq<char>) -> Option<int> {
    let body = unsigned_body(s);
    let mag = digits_value(body);
    let v = if is_negative(s) { -mag } else { mag };
    if body.len() > 0 && all_digits(body) && i64::MIN <= v <= i64::MAX {
        Some(v)
    } else {
        None
    }
}

pub fn parse_int(v: &Vec<char>) -> (r: Option<i64>)
    ensures
        match int_value(v@) {
            Some(x) => r == Some(x as i64),
            None => r is None,
        },
{
    let start: usize = if v.len() > 0 && (v[0] == '+' || v[0] == '-') { 1 } else { 0 };
    let neg = v.len() > 0 && v[0] == '-';
    if start >= v.len() || !check_digits(v, start, v.len()) {
        return None;
    }
    match read_digits(v, start, v.len(), 9_223_372_036_854_775_808i128) {
        None => None,
        Some(m) => {
            if neg {
                Some((-m) as i64)
            } else if m <= 9_223_372_036_854_775_807i128 {
                Some(m as i64)
            } else {
                None
            }
        },
    }
}

/// Places kept after the decimal point in scaled amounts.
pub const SCALE_DIGITS: usize = 6;

/// A body split at `p` into digits, then nothing or a point and digits, with
/// at least one digit in all.
pub open spec fn decimal_split(u: Seq<char>, p: int) -> bool {
    &&& 0 <= p <= u.len()
    &&& all_digits(u.subrange(0, p))
    &&& (p == u.len() || (u[p] == '.' && all_digits(u.subrange(p + 1, u.len() as int))))
    &&& (if p < u.len() { u.len() >= 2 } else { u.len() >= 1 })
}

/// A plain decimal number: an optional sign, digits, and at most one point.
pub open spec fn is_decimal_text(s: Seq<char>) -> bool {
    exists|p: int| decimal_split(unsigned_body(s), p)
}

pub open spec fn is_exp_char(c: char) -> bool {
    c == 'e' || c == 'E'
}

/// An exponent: an optional sign and at least one digit.
pub open spec fn is_exponent_body(e: Seq<char>) -> bool {
    unsigned_body(e).len() > 0 && all_digits(unsigned_body(e))
}

/// `s` splits at `q` into a plain decimal number and, unless `q` is its
/// end, `e` or `E` followed by an exponent.
pub open spec fn number_split(s: Seq<char>, q: int) -> bool {
    &&& 0 <= q <= s.len()
    &&& is_decimal_text(s.subrange(0, q))
    &&& (q == s.len() || (is_exp_char(s[q]) && is_exponent_body(s.subrange(q + 1, s.len() as int))))
}

/// A number as floating-point parsing reads it in finite form: a plain
/// decimal number, optionally with an exponent (`1e5`, `2.5E-3`).
pub open spec fn is_number_text(s: Seq<char>) -> bool {
    exists|q: int| number_split(s, q)
}

proof fn lemma_decimal_has_no_exp(x: Seq<char>, i: int)
    requires
        is_decimal_text(x),
        0 <= i < x.len(),
    ensures
        !is_exp_char(x[i]),
{
    let u = unsigned_body(x);
    let p = choose|p: int| decimal_split(u, p);
    let k = sign_len(x);
    if i >= k {
        let j = i - k;
        assert(u[j] == x[i]);
        if j < p {
            assert(u.subrange(0, p)[j] == u[j]);
        } else if j > p {
            assert(u.subrange(p + 1, u.len() as int)[j - p - 1] == u[j]);
        }
    }
}

fn exponent_ok(v: &Vec<char>, from: usize) -> (r: bool)
    requires
        from <= v.len(),
    ensures
        r == is_exponent_body(v@.subrange(from as int, v.len() as int)),
{
    let ghost e = v@.subrange(from as int, v.len() as int);
    let start: usize = if from < v.len() && (v[from] == '+' || v[from] == '-') { from + 1 } else { from };
    assert(unsigned_body(e) =~= v@.subrange(start as int, v.len() as int));
    start < v.len() && check_digits(v, start, v.len())
}

/// Whether `v` is a number in the sense of `is_number_text`.
pub fn is_number(v: &Vec<char>) -> (r: bool)
    ensures
        r == is_number_text(v@),
{
    let n = v.len();
    let mut q: usize = 0;
    while q < n && !(v[q] == 'e' || v[q] == 'E')
        invariant
            0 <= q <= n == v.len(),
            forall|k: int| 0 <= k < q ==> !is_exp_char(#[trigger] v@[k]),
        decreases n - q,
    {
        q += 1;
    }
    let head = copy_range(v, 0, q);
    let ok = is_decimal(&head) && (q == n || exponent_ok(v, q + 1));
    proof {
        if ok {
            assert(number_split(v@, q as int));
        } else if exists|q2: int| number_split(v@, q2) {
            let q2 = choose|q2: int| number_split(v@, q2);
            if q2 < q {
                assert(!is_exp_char(v@[q2]));
            } else if q2 > q {
                lemma_decimal_has_no_exp(v@.subrange(0, q2), q as int);
                assert(v@.subrange(0, q2)[q as int] == v@[q as int]);
            }
        }
    }
    ok
}

pub open spec fn zeros(n: nat) -> Seq<char> {
    Seq::new(n, |i: int| '0')
}

/// The first six places of a fraction, padded with zeros.
pub open spec fn fraction_places(f: Seq<char>) -> Seq<char> {
    if f.len() >= SCALE_DIGITS {
        f.subrange(0, SCALE_DIGITS as int)
    } else {
        f + zeros((SCALE_DIGITS - f.len()) as nat)
    }
}

/// Largest magnitude of a scaled amount: 10^24.
pub const AMOUNT_CAP: i128 = 1_000_000_000_000_000_000_000_000i128;

/// The value of a plain decimal number in millionths, truncated after the
/// sixth place; `None` for other texts and for magnitudes beyond the cap.
pub open spec fn scaled_value(s: Seq<char>) -> Option<int> {
    let u = unsigned_body(s);
    if is_decimal_text(s) {
        let p = choose|p: int| decimal_split(u, p);
        let frac = if p < u.len() { u.subrange(p + 1, u.len() as int) } else { Seq::<char>::empty() };
        let mag = digits_value(u.subrange(0, p) + fraction_places(frac));
        if mag <= AMOUNT_CAP {
            Some(if is_negative(s) { -mag } else { mag })
        } else {
            None
        }
    } else {
        None
    }
}

proof fn lemma_split_unique(u: Seq<char>, p: int, q: int)
    requires
        decimal_split(u, p),
        decimal_split(u, q),
    ensures
        p == q,
{
    if p < q {
        assert(u.subrange(0, q)[p] == u[p]);
    } else if q < p {
        assert(u.subrange(0, p)[q] == u[q]);
    }
}

/// Finds where a decimal body splits, if it is one.
fn find_split(v: &Vec<char>, start: usize) -> (r: Option<usize>)
    requires
        start <= v.len(),
    ensures
        match r {
            Some(p) => start <= p <= v.len() && decimal_split(v@.subrange(start as int, v.len() as int), p - start),
            None => !exists|p: int| decimal_split(v@.subrange(start as int, v.len() as int), p),
        },
{
    let ghost u = v@.subrange(start as int, v.len() as int);
    let n = v.len();
    let mut p = start;
    while p < n && v[p] >= '0' && v[p] <= '9'
        invariant
            start <= p <= n == v.len(),
            u == v@.subrange(start as int, n as int),
            all_digits(u.subrange(0, p - start)),
        decreases n - p,
    {
        proof {
            assert(u.subrange(0, p + 1 - start) =~= u.subrange(0, p - start).push(u[p - start]));
        }
        p += 1;
    }
    let ok = if p == n {
        n - start >= 1
    } else {
        v[p] == '.' && n - start >= 2 && check_digits(v, p + 1, n)
    };
    proof {
        if p < n {
            assert(v@.subrange(p + 1, n as int) =~= u.subrange(p + 1 - start, u.len() as int));
        }
    }
    if ok {
        Some(p)
    } else {
        proof {
            if exists|q: int| decimal_split(u, q) {
                let q = choose|q: int| decimal_split(u, q);
                if q < p - start {
                    assert(u.subrange(0, p - start)[q] == u[q]);
                } else if q > p - start {
                    assert(u.subrange(0, q)[p - start] == u[p - start]);
                }
            }
        }
        None
    }
}

pub fn is_decimal(v: &Vec<char>) -> (r: bool)
    ensures
        r == is_decimal_text(v@),
{
    let start: usize = if v.len() > 0 && (v[0] == '+' || v[0] == '-') { 1 } else { 0 };
    assert(unsigned_body(v@) =~= v@.subrange(start as int, v.len() as int));
    find_split(v, start).is_some()
}

/// Reads a plain decimal number in millionths.
pub fn parse_scaled(v: &Vec<char>) -> (r: Option<i128>)
    ensures
        match scaled_value(v@) {
            Some(x) => r == Some(x as i128) && r->Some_0 as int == x,
            None => r is None,
        },
{
    let start: usize = if v.len() > 0 && (v[0] == '+' || v[0] == '-') { 1 } else { 0 };
    let neg = v.len() > 0 && v[0] == '-';
    let ghost u = v@.subrange(start as int, v.len() as int);
    assert(unsigned_body(v@) =~= u);
    match find_split(v, start) {
        None => None,
        Some(p) => {
            proof {
                let q = choose|q: int| decimal_split(u, q);
                lemma_split_unique(u, p - start, q);
            }
            let ghost frac = if p < v.len() { u.subrange(p - start + 1, u.len() as int) } else { Seq::<char>::empty() };
            let mut digits = copy_range(v, start, p);
            assert(digits@ == u.subrange(0, p - start));
            let mut k: usize = 0;
            while k < SCALE_DIGITS
                invariant
                    start <= p <= v.len(),
                    u == v@.subrange(start as int, v.len() as int),
                    frac == (if p < v.len() { u.subrange(p - start + 1, u.len() as int) } else { Seq::<char>::empty() }),
                    0 <= k <= SCALE_DIGITS,
                    digits@ == u.subrange(0, p - start) + fraction_places(frac).subrange(0, k as int),
                decreases SCALE_DIGITS - k,
            {
                let c = if p < v.len() && k < v.len() - p - 1 { v[p + 1 + k] } else { '0' };
                proof {
                    assert(fraction_places(frac)[k as int] == c);
                    assert(fraction_places(frac).subrange(0, k + 1) =~= fraction_places(frac).subrange(0, k as int).push(c));
                }
                digits.push(c);
                proof {
                    assert(digits@ =~= u.subrange(0, p - start) + fraction_places(frac).subrange(0, k + 1));
                }
                k += 1;
            }
            proof {
                assert(fraction_places(frac).subrange(0, SCALE_DIGITS as int) =~= fraction_places(frac));
                assert(digits@.subrange(0, digits@.len() as int) =~= digits@);
                assert(all_digits(digits@)) by {
                    assert forall|i: int| 0 <= i < digits@.len() implies is_digit(#[trigger] digits@[i]) by {
                        if i < p - start {
                            assert(u.subrange(0, p - start)[i] == digits@[i]);
                        } else {
                            let j = i - (p - start);
                            if j < frac.len() {
                                assert(frac[j] == u.subrange(p - start + 1, u.len() as int)[j]);
                            }
                        }
                    }
                }
            }
            let n = digits.len();
            match read_digits(&digits, 0, n, AMOUNT_CAP) {
                None => None,
                Some(m) => if neg { Some(-m) } else { Some(m) },
            }
        },
    }
}


pub open spec fn digit_char(d: int) -> char {
    if d == 0 { '0' } else if d == 1 { '1' } else if d == 2 { '2' } else if d == 3 { '3' }
    else if d == 4 { '4' } else if d == 5 { '5' } else if d == 6 { '6' } else if d == 7 { '7' }
    else if d == 8 { '8' } else { '9' }
}

fn digit_char_of(d: u128) -> (c: char)
    requires
        d < 10,
    ensures
        c == digit_char(d as int),
{
    if d == 0 { '0' } else if d == 1 { '1' } else if d == 2 { '2' } else if d == 3 { '3' }
    else if d == 4 { '4' } else if d == 5 { '5' } else if d == 6 { '6' } else if d == 7 { '7' }
    else if d == 8 { '8' } else { '9' }
}

/// The decimal digits of a positive number, most significant first; empty for zero.
pub open spec fn digits_of(n: nat) -> Seq<char>
    decreases n,
{
    if n == 0 {
        Seq::empty()
    } else {
        digits_of(n / 10).push(digit_char((n % 10) as int))
    }
}

pub open spec fn strip_zeros(s: Seq<char>) -> Seq<char>
    decreases s.len(),
{
    if s.len() > 0 && s.last() == '0' {
        strip_zeros(s.drop_last())
    } else {
        s
    }
}

pub open spec fn padded(s: Seq<char>, w: nat) -> Seq<char> {
    if s.len() >= w {
        s
    } else {
        zeros((w - s.len()) as nat) + s
    }
}

/// How an amount in millionths is written: a sign for negatives, the whole
/// part, and the fraction without trailing zeros (and no point when it is empty).
pub open spec fn scaled_text(v: int) -> Seq<char> {
    let m = if v < 0 { -v } else { v };
    let d = padded(digits_of(m as nat), (SCALE_DIGITS + 1) as nat);
    let whole = d.subrange(0, d.len() - SCALE_DIGITS);
    let frac = strip_zeros(d.subrange(d.len() - SCALE_DIGITS, d.len() as int));
    (if v < 0 { seq!['-'] } else { Seq::empty() }) + whole + (if frac.len() == 0 {
        Seq::empty()
    } else {
        seq!['.'] + frac
    })
}

/// The digits of `m`, most significant first; empty for zero.
pub fn digits_vec(m: u128) -> (r: Vec<char>)
    ensures
        r@ == digits_of(m as nat),
{
    let mut m = m;
    let ghost m0: nat = m as nat;
    let mut ds: Vec<char> = Vec::new();
    assert(digits_of(m0) =~= digits_of(m as nat) + ds@);
    while m > 0
        invariant
            digits_of(m0) == digits_of(m as nat) + ds@,
        decreases m,
    {
        let c = digit_char_of(m % 10);
        let ghost before = ds@;
        proof {
            assert(digits_of(m as nat) == digits_of((m / 10) as nat).push(c));
            assert(digits_of(m as nat) + ds@ =~= digits_of((m / 10) as nat) + seq![c].add(ds@));
        }
        ds.insert(0, c);
        assert(seq![c].add(before) =~= ds@);
        m = m / 10;
    }
    assert(ds@ =~= digits_of(m0));
    ds
}

/// How a count is written in decimal.
pub open spec fn count_text(n: nat) -> Seq<char> {
    if n == 0 {
        seq!['0']
    } else {
        digits_of(n)
    }
}

pub fn render_count(n: usize) -> (r: Vec<char>)
    ensures
        r@ == count_text(n as nat),
{
    if n == 0 {
        let mut z: Vec<char> = Vec::new();
        z.push('0');
        assert(z@ =~= seq!['0']);
        z
    } else {
        digits_vec(n as u128)
    }
}

pub fn render_scaled(v: i128) -> (r: Vec<char>)
    requires
        v > i128::MIN,
    ensures
        r@ == scaled_text(v as int),
{
    let neg = v < 0;
    let m: u128 = if neg { (-v) as u128 } else { v as u128 };
    let ghost m0: nat = m as nat;
    assert(m0 == (if v < 0 { -v } else { v as int }));
    let mut ds = digits_vec(m);
    while ds.len() < SCALE_DIGITS + 1
        invariant
            padded(digits_of(m0), (SCALE_DIGITS + 1) as nat) == padded(ds@, (SCALE_DIGITS + 1) as nat),
        decreases SCALE_DIGITS + 1 - ds.len(),
    {
        let ghost before = ds@;
        ds.insert(0, '0');
        proof {
            assert(zeros((SCALE_DIGITS + 1 - before.len()) as nat) + before =~= zeros(
                (SCALE_DIGITS + 1 - ds@.len()) as nat,
            ) + ds@);
            if ds@.len() == SCALE_DIGITS + 1 {
                assert(zeros(0) + ds@ =~= ds@);
            }
        }
    }
    let n = ds.len();
    let cut = n - SCALE_DIGITS;
    let mut j = n;
    while j > cut && ds[j - 1] == '0'
        invariant
            n == ds.len(),
            cut == n - SCALE_DIGITS,
            cut <= j <= n,
            strip_zeros(ds@.subrange(cut as int, n as int)) == strip_zeros(ds@.subrange(cut as int, j as int)),
        decreases j,
    {
        proof {
            assert(ds@.subrange(cut as int, j as int).drop_last() =~= ds@.subrange(cut as int, j - 1));
        }
        j -= 1;
    }
    let mut out: Vec<char> = Vec::new();
    if neg {
        out.push('-');
    }
    let mut whole = copy_range(&ds, 0, cut);
    out.append(&mut whole);
    if j > cut {
        out.push('.');
        let mut frac = copy_range(&ds, cut, j);
        out.append(&mut frac);
    }
    proof {
        let d = padded(digits_of(m0), (SCALE_DIGITS + 1) as nat);
        assert(d == ds@);
        assert(strip_zeros(ds@.subrange(cut as int, j as int)) == ds@.subrange(cut as int, j as int));
        assert(out@ =~= scaled_text(v as int));
    }
    out
}

} // verus!
