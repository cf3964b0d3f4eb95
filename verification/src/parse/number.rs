use vstd::prelude::*;
use crate::parse::is_ascii_digit;
use crate::types::push_char;

verus! {

/// The value of a run of decimal digits.
pub open spec fn digits_value(s: Seq<char>) -> nat
    decreases s.len(),
{
    if s.len() == 0 {
        0
    } else {
        digits_value(s.drop_last()) * 10 + ((s.last() as int - '0' as int) as nat)
    }
}

pub open spec fn all_digits(s: Seq<char>) -> bool {
    forall|i: int| 0 <= i < s.len() ==> is_ascii_digit(#[trigger] s[i])
}

/// The text without one leading sign among `signs`.
pub open spec fn strip_plus(s: Seq<char>) -> Seq<char> {
    if s.len() > 0 && s[0] == '+' { s.skip(1) } else { s }
}

/// What `usize::from_str` gives: an optional `+`, then at least one digit, and a value that fits.
pub open spec fn spec_parse_usize(s: Seq<char>) -> Option<usize> {
    let d = strip_plus(s);
    if d.len() > 0 && all_digits(d) && digits_value(d) <= usize::MAX {
        Some(digits_value(d) as usize)
    } else {
        None
    }
}

proof fn lemma_digits_prefix(d: Seq<char>, i: int)
    requires
        all_digits(d),
        0 <= i <= d.len(),
    ensures
        digits_value(d.take(i)) <= digits_value(d),
    decreases d.len() - i,
{
    if i < d.len() {
        lemma_digits_prefix(d, i + 1);
        let t = d.take(i + 1);
        assert(t.drop_last() == d.take(i));
        assert(is_ascii_digit(d[i]));
    } else {
        assert(d.take(i) == d);
    }
}

fn digit_value(c: char) -> (v: usize)
    requires
        is_ascii_digit(c),
    ensures
        v == c as int - '0' as int,
        v < 10,
{
    let n = c as u32;
    (n - 48) as usize
}

/// Parses a decimal number as `usize::from_str` does.
pub fn parse_usize(chars: &Vec<char>) -> (r: Option<usize>)
    ensures
        r == spec_parse_usize(chars@),
{
    let ghost s = chars@;
    let start: usize = if chars.len() > 0 && chars[0] == '+' { 1 } else { 0 };
    let ghost d = strip_plus(s);
    assert(d == s.skip(start as int));
    if start >= chars.len() {
        return None;
    }
    let mut v: usize = 0;
    let mut i: usize = start;
    while i < chars.len()
        invariant
            start <= i <= chars.len(),
            start < chars.len(),
            d == chars@.skip(start as int),
            d == strip_plus(chars@),
            v == digits_value(d.take(i - start)),
            all_digits(d.take(i - start)),
        decreases chars.len() - i,
    {
        let c = chars[i];
        assert(c == d[i - start]);
        if !('0' <= c && c <= '9') {
            assert(!all_digits(d));
            return None;
        }
        let dv = digit_value(c);
        let ghost t = d.take(i - start + 1);
        proof {
            assert(t.drop_last() == d.take(i - start));
            assert(t.last() == c);
            assert forall|k: int| 0 <= k < t.len() implies is_ascii_digit(#[trigger] t[k]) by {
                if k < t.len() - 1 {
                    assert(t[k] == d.take(i - start)[k]);
                }
            }
        }
        match v.checked_mul(10) {
            Some(m) => match m.checked_add(dv) {
                Some(n) => {
                    v = n;
                }
                None => {
                    proof {
                        if all_digits(d) {
                            lemma_digits_prefix(d, i - start + 1);
                        }
                    }
                    return None;
                }
            },
            None => {
                proof {
                    if all_digits(d) {
                        lemma_digits_prefix(d, i - start + 1);
                    }
                }
                return None;
            }
        }
        i = i + 1;
    }
    assert(d.take(i - start) == d);
    Some(v)
}

pub open spec fn strip_sign(s: Seq<char>) -> Seq<char> {
    if s.len() > 0 && (s[0] == '+' || s[0] == '-') { s.skip(1) } else { s }
}

/// The code of a character with ASCII capitals made small.
pub open spec fn lower_code(c: char) -> int {
    if 'A' <= c && c <= 'Z' { (c as int) + 32 } else { c as int }
}

/// Whether `s` is `w` up to the case of ASCII letters (`w` is lower case).
pub open spec fn eq_ignore_case(s: Seq<char>, w: Seq<char>) -> bool {
    s.len() == w.len() && forall|i: int| 0 <= i < s.len() ==> lower_code(#[trigger] s[i]) == w[i] as int
}

pub open spec fn is_e(c: char) -> bool {
    c == 'e' || c == 'E'
}

/// Digits with at most one `.`, and at least one digit.
pub open spec fn is_mantissa(m: Seq<char>) -> bool {
    &&& forall|i: int| 0 <= i < m.len() ==> is_ascii_digit(#[trigger] m[i]) || m[i] == '.'
    &&& forall|i: int, j: int| #![trigger m[i], m[j]] 0 <= i < j < m.len() && m[i] == '.' ==> m[j] != '.'
    &&& exists|i: int| 0 <= i < m.len() && is_ascii_digit(#[trigger] m[i])
}

/// `e` or `E`, an optional sign, then at least one digit.
pub open spec fn is_exponent(x: Seq<char>) -> bool {
    x.len() > 0 && is_e(x[0]) && {
        let r = strip_sign(x.skip(1));
        r.len() > 0 && all_digits(r)
    }
}

/// Whether `b` is a decimal number with an optional exponent.
pub open spec fn is_number_text(b: Seq<char>) -> bool {
    exists|k: int| 0 <= k <= b.len() && is_mantissa(#[trigger] b.take(k))
        && (k == b.len() || is_exponent(b.skip(k)))
}

/// Whether `f64::from_str` accepts a text: an optional sign, then `inf`, `infinity`, `nan`
/// (in any case) or a decimal number with an optional exponent.
pub open spec fn is_float_text(s: Seq<char>) -> bool {
    let b = strip_sign(s);
    ||| eq_ignore_case(b, seq!['i', 'n', 'f'])
    ||| eq_ignore_case(b, seq!['i', 'n', 'f', 'i', 'n', 'i', 't', 'y'])
    ||| eq_ignore_case(b, seq!['n', 'a', 'n'])
    ||| is_number_text(b)
}

/// A token read as a float: what `f64::from_str` accepts, or digits with `f` for the point.
pub open spec fn is_float_token(s: Seq<char>) -> bool {
    is_float_text(s) || is_f_float_text(s)
}

/// The text a float token is kept as: as written, with a point for an `f` that stands for one.
pub open spec fn float_token_text(s: Seq<char>) -> Seq<char> {
    if is_float_text(s) { s } else { f_float_point(s) }
}

/// A float written with `f` for its point: digits, `f`, digits.
pub open spec fn is_f_float_text(s: Seq<char>) -> bool {
    exists|k: int| 0 < k < s.len() - 1 && s[k] == 'f' && all_digits(#[trigger] s.take(k)) && all_digits(s.skip(k + 1))
}

/// The decimal that a float written with `f` stands for: the `f` becomes a point.
pub open spec fn f_float_point(s: Seq<char>) -> Seq<char> {
    s.map_values(|c: char| if c == 'f' { '.' } else { c })
}

/// For a float written with `f` for its point, the same float written with a point.
pub fn f_float_decimal(chars: &Vec<char>) -> (r: Option<String>)
    ensures
        r is Some <==> is_f_float_text(chars@),
        r matches Some(t) ==> t@ == f_float_point(chars@),
{
    let ghost s = chars@;
    let mut k: usize = 0;
    while k < chars.len() && '0' <= chars[k] && chars[k] <= '9'
        invariant
            k <= chars.len(),
            s == chars@,
            all_digits(s.take(k as int)),
        decreases chars.len() - k,
    {
        assert(s.take(k as int + 1).drop_last() == s.take(k as int));
        k = k + 1;
    }
    if k == 0 || k >= chars.len() || chars[k] != 'f' || k + 1 >= chars.len() {
        proof {
            if is_f_float_text(s) {
                let w = choose|w: int| 0 < w < s.len() - 1 && s[w] == 'f' && all_digits(#[trigger] s.take(w)) && all_digits(s.skip(w + 1));
                if w < k {
                    assert(s.take(k as int)[w] == s[w]);
                } else if w > k {
                    assert(s.take(w)[k as int] == s[k as int]);
                    assert(!is_ascii_digit(s[k as int]));
                }
            }
        }
        return None;
    }
    let mut j: usize = k + 1;
    while j < chars.len()
        invariant
            k + 1 <= j <= chars.len(),
            s == chars@,
            0 < k,
            s[k as int] == 'f',
            all_digits(s.take(k as int)),
            all_digits(s.subrange(k as int + 1, j as int)),
        decreases chars.len() - j,
    {
        if !('0' <= chars[j] && chars[j] <= '9') {
            proof {
                if is_f_float_text(s) {
                    let w = choose|w: int| 0 < w < s.len() - 1 && s[w] == 'f' && all_digits(#[trigger] s.take(w)) && all_digits(s.skip(w + 1));
                    if w < k {
                        assert(s.take(k as int)[w] == s[w]);
                        assert(is_ascii_digit(s.take(k as int)[w]));
                    } else if w > k {
                        assert(s.take(w)[k as int] == s[k as int]);
                        assert(is_ascii_digit(s.take(w)[k as int]));
                    } else {
                        assert(s.skip(w + 1)[j - w - 1] == s[j as int]);
                        assert(is_ascii_digit(s.skip(w + 1)[j - w - 1]));
                    }
                }
            }
            return None;
        }
        assert(s.subrange(k as int + 1, j as int + 1).drop_last() == s.subrange(k as int + 1, j as int));
        j = j + 1;
    }
    assert(s.subrange(k as int + 1, j as int) == s.skip(k as int + 1));
    assert(is_f_float_text(s));
    let mut t = String::new();
    let mut i: usize = 0;
    while i < chars.len()
        invariant
            i <= chars.len(),
            s == chars@,
            t@ == f_float_point(s.take(i as int)),
        decreases chars.len() - i,
    {
        let c = if chars[i] == 'f' { '.' } else { chars[i] };
        push_char(&mut t, c);
        assert(f_float_point(s.take(i as int + 1)) == f_float_point(s.take(i as int)).push(c));
        i = i + 1;
    }
    assert(s.take(i as int) == s);
    Some(t)
}

fn same_lower(c: char, l: char) -> (b: bool)
    ensures
        b == (lower_code(c) == l as int),
{
    if 'A' <= c && c <= 'Z' {
        (c as u32) + 32 == (l as u32)
    } else {
        (c as u32) == (l as u32)
    }
}

fn eq_ignore_case_at(chars: &Vec<char>, from: usize, w: &Vec<char>) -> (b: bool)
    requires
        from <= chars.len(),
    ensures
        b == eq_ignore_case(chars@.skip(from as int), w@),
{
    let ghost b = chars@.skip(from as int);
    if chars.len() - from != w.len() {
        return false;
    }
    let mut i: usize = 0;
    while i < w.len()
        invariant
            i <= w.len(),
            chars.len() - from == w.len(),
            b == chars@.skip(from as int),
            forall|k: int| 0 <= k < i ==> lower_code(#[trigger] b[k]) == w@[k] as int,
        decreases w.len() - i,
    {
        assert(b[i as int] == chars@[from + i]);
        if !same_lower(chars[from + i], w[i]) {
            return false;
        }
        i = i + 1;
    }
    true
}

/// Whether the characters from `from` to `to` form a mantissa.
fn mantissa_at(chars: &Vec<char>, from: usize, to: usize) -> (r: bool)
    requires
        from <= to <= chars.len(),
    ensures
        r == is_mantissa(chars@.subrange(from as int, to as int)),
{
    let ghost m = chars@.subrange(from as int, to as int);
    let mut dot = false;
    let mut digit = false;
    let mut i: usize = from;
    while i < to
        invariant
            from <= i <= to <= chars.len(),
            m == chars@.subrange(from as int, to as int),
            forall|k: int| 0 <= k < i - from ==> is_ascii_digit(#[trigger] m[k]) || m[k] == '.',
            dot <==> exists|k: int| 0 <= k < i - from && #[trigger] m[k] == '.',
            forall|a: int, c: int| #![trigger m[a], m[c]] 0 <= a < c < i - from && m[a] == '.' ==> m[c] != '.',
            digit <==> exists|k: int| 0 <= k < i - from && is_ascii_digit(#[trigger] m[k]),
        decreases to - i,
    {
        let c = chars[i];
        assert(m[i - from] == c);
        if c == '.' {
            if dot {
                assert(!is_mantissa(m));
                return false;
            }
            dot = true;
        } else if '0' <= c && c <= '9' {
            digit = true;
        } else {
            assert(!is_mantissa(m));
            return false;
        }
        i = i + 1;
    }
    digit
}

/// Whether the characters from `from` on form an exponent.
fn exponent_at(chars: &Vec<char>, from: usize) -> (r: bool)
    requires
        from <= chars.len(),
    ensures
        r == is_exponent(chars@.skip(from as int)),
{
    let ghost x = chars@.skip(from as int);
    if from >= chars.len() || !(chars[from] == 'e' || chars[from] == 'E') {
        return false;
    }
    let mut i = from + 1;
    if i < chars.len() && (chars[i] == '+' || chars[i] == '-') {
        i = i + 1;
    }
    let ghost r = strip_sign(x.skip(1));
    assert(r == chars@.skip(i as int));
    if i >= chars.len() {
        return false;
    }
    let start = i;
    while i < chars.len()
        invariant
            start <= i <= chars.len(),
            r == chars@.skip(start as int),
            from < chars.len(),
            is_e(chars@[from as int]),
            r == strip_sign(chars@.skip(from as int).skip(1)),
            forall|k: int| 0 <= k < i - start ==> is_ascii_digit(#[trigger] r[k]),
        decreases chars.len() - i,
    {
        assert(r[i - start] == chars@[i as int]);
        if !('0' <= chars[i] && chars[i] <= '9') {
            return false;
        }
        i = i + 1;
    }
    true
}

fn word(w: &str) -> (v: Vec<char>)
    ensures
        v@ == w@,
{
    crate::lex::chars_of(w)
}

/// Whether `f64::from_str` would accept the text.
pub fn is_float(chars: &Vec<char>) -> (r: bool)
    ensures
        r == is_float_text(chars@),
{
    let ghost s = chars@;
    let from: usize = if chars.len() > 0 && (chars[0] == '+' || chars[0] == '-') { 1 } else { 0 };
    let ghost b = strip_sign(s);
    assert(b == s.skip(from as int));
    proof {
        reveal_strlit("inf");
        reveal_strlit("infinity");
        reveal_strlit("nan");
    }
    let inf = word("inf");
    let infinity = word("infinity");
    let nan = word("nan");
    assert(inf@ == seq!['i', 'n', 'f']);
    assert(infinity@ == seq!['i', 'n', 'f', 'i', 'n', 'i', 't', 'y']);
    assert(nan@ == seq!['n', 'a', 'n']);
    if eq_ignore_case_at(chars, from, &inf) || eq_ignore_case_at(chars, from, &infinity)
        || eq_ignore_case_at(chars, from, &nan) {
        return true;
    }
    let mut k: usize = from;
    while k < chars.len() && !(chars[k] == 'e' || chars[k] == 'E')
        invariant
            from <= k <= chars.len(),
            forall|j: int| from <= j < k ==> !is_e(#[trigger] chars@[j]),
        decreases chars.len() - k,
    {
        k = k + 1;
    }
    let ok = mantissa_at(chars, from, k) && (k == chars.len() || exponent_at(chars, k));
    proof {
        let kk = k - from;
        assert(b.take(kk) == chars@.subrange(from as int, k as int));
        if k < chars.len() {
            assert(b.skip(kk) == chars@.skip(k as int));
        }
        if ok {
            assert(is_mantissa(b.take(kk)));
        } else if is_number_text(b) {
            let w = choose|w: int| 0 <= w <= b.len() && is_mantissa(#[trigger] b.take(w))
                && (w == b.len() || is_exponent(b.skip(w)));
            if w < kk {
                assert(b.skip(w)[0] == b[w]);
                assert(b[w] == chars@[from + w]);
                assert(is_e(b.skip(w)[0]));
                assert(false);
            } else if w > kk {
                assert(b.take(w)[kk] == chars@[k as int]);
                assert(is_e(chars@[k as int]));
                assert(false);
            }
        }
    }
    ok
}

} // verus!
