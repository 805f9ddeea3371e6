//! The textual shape of a 64-bit float field: an optional sign, then
//! either one of the special words (`inf`, `infinity`, `nan`, case
//! insensitive) or a decimal number with an optional fraction and an
//! optional exponent.  Bid and ask fields must take this shape; the
//! numeric value itself is never interpreted here.
use crate::datetime::{all_digits, is_digit};
use crate::text::{ascii_chars, token_ok};
use vstd::prelude::*;

verus! {

pub open spec fn is_sign(c: char) -> bool {
    c == '+' || c == '-'
}

/// The sequence with a leading sign removed, if there is one.
pub open spec fn strip_sign(s: Seq<char>) -> Seq<char> {
    if s.len() > 0 && is_sign(s[0]) {
        s.skip(1)
    } else {
        s
    }
}

/// ASCII lowercasing of a single character.
pub open spec fn lower_ascii(c: char) -> char {
    if 65 <= c as int <= 90 {
        ((c as int + 32) as u8) as char
    } else {
        c
    }
}

/// Whether `b` spells `w` up to ASCII case.
pub open spec fn matches_ci(b: Seq<char>, w: Seq<char>) -> bool {
    b.len() == w.len() && forall|i: int|
        0 <= i < b.len() ==> lower_ascii(#[trigger] b[i]) == w[i]
}

/// One of the words that the standard float parser accepts besides a
/// decimal number.
pub open spec fn is_special_float(b: Seq<char>) -> bool {
    ||| matches_ci(b, seq!['i', 'n', 'f'])
    ||| matches_ci(b, seq!['i', 'n', 'f', 'i', 'n', 'i', 't', 'y'])
    ||| matches_ci(b, seq!['n', 'a', 'n'])
}

/// Digits with at most one decimal point and at least one digit.
pub open spec fn is_mantissa(m: Seq<char>) -> bool {
    ||| (m.len() > 0 && all_digits(m))
    ||| (m.len() > 1 && exists|j: int|
        0 <= j < m.len() && #[trigger] m[j] == '.' && all_digits(m.subrange(0, j)) && all_digits(
            m.subrange(j + 1, m.len() as int),
        ))
}

/// An exponent: an optional sign and at least one digit.
pub open spec fn is_exp_part(e: Seq<char>) -> bool {
    strip_sign(e).len() > 0 && all_digits(strip_sign(e))
}

/// A decimal number: a mantissa, optionally followed by `e` or `E` and
/// an exponent.
pub open spec fn is_number(b: Seq<char>) -> bool {
    ||| is_mantissa(b)
    ||| (exists|i: int|
        0 <= i < b.len() && (#[trigger] b[i] == 'e' || b[i] == 'E') && is_mantissa(
            b.subrange(0, i),
        ) && is_exp_part(b.subrange(i + 1, b.len() as int)))
}

/// What the standard textual parser for 64-bit floats accepts.
pub open spec fn is_float_text(s: Seq<char>) -> bool {
    is_special_float(strip_sign(s)) || is_number(strip_sign(s))
}

/// Every character of a mantissa is a digit or the decimal point.
pub proof fn lemma_mantissa_chars(m: Seq<char>, i: int)
    requires
        is_mantissa(m),
        0 <= i < m.len(),
    ensures
        is_digit(m[i]) || m[i] == '.',
{
    if !(m.len() > 0 && all_digits(m)) {
        let j = choose|j: int|
            0 <= j < m.len() && #[trigger] m[j] == '.' && all_digits(m.subrange(0, j))
                && all_digits(m.subrange(j + 1, m.len() as int));
        if i < j {
            assert(m.subrange(0, j)[i] == m[i]);
        } else if i > j {
            assert(m.subrange(j + 1, m.len() as int)[i - j - 1] == m[i]);
        }
    }
}

/// A float field is a plain token: nonempty ASCII with no separator and
/// no line terminator in it.
pub proof fn lemma_float_token(s: Seq<char>)
    requires
        is_float_text(s),
    ensures
        token_ok(s),
{
    let b = strip_sign(s);
    assert forall|i: int| 0 <= i < s.len() implies 33 <= (#[trigger] s[i] as int) < 128 by {
        if i == 0 && s.len() > 0 && is_sign(s[0]) {
            assert(('+' as int) == 43 && ('-' as int) == 45);
        } else {
            let k = if s.len() > 0 && is_sign(s[0]) {
                i - 1
            } else {
                i
            };
            assert(b[k] == s[i]);
            lemma_float_body_char(b, k);
        }
    }
    assert(s.len() > 0) by {
        if is_special_float(b) || is_number(b) {
            assert(b.len() > 0) by {
                if is_special_float(b) {
                } else if is_mantissa(b) {
                } else {
                    let j = choose|j: int|
                        0 <= j < b.len() && (#[trigger] b[j] == 'e' || b[j] == 'E') && is_mantissa(
                            b.subrange(0, j),
                        ) && is_exp_part(b.subrange(j + 1, b.len() as int));
                }
            }
        }
    }
    assert forall|i: int|
        0 <= i < s.len() implies (#[trigger] s[i]) != ' ' && s[i] != '\r' && s[i] != '\n' by {
        assert(33 <= (s[i] as int) < 128);
        assert((' ' as int) == 32 && ('\r' as int) == 13 && ('\n' as int) == 10);
    }
    assert(ascii_chars(s)) by {
        assert forall|i: int| 0 <= i < s.len() implies '\0' <= #[trigger] s[i] <= '\u{7f}' by {
            assert(33 <= (s[i] as int) < 128);
        }
    }
}

/// Characters after the sign of a float are printable and ASCII.
proof fn lemma_float_body_char(b: Seq<char>, k: int)
    requires
        is_special_float(b) || is_number(b),
        0 <= k < b.len(),
    ensures
        33 <= (b[k] as int) < 128,
{
    if is_special_float(b) {
        assert(lower_ascii(b[k]) as int >= 97 ==> 33 <= (b[k] as int) < 128) by {
            if !(65 <= b[k] as int <= 90) {
                assert(lower_ascii(b[k]) == b[k]);
            }
        }
        if matches_ci(b, seq!['i', 'n', 'f']) {
            assert(lower_ascii(b[k]) == seq!['i', 'n', 'f'][k]);
            assert(lower_ascii(b[k]) as int >= 102);
        } else if matches_ci(b, seq!['i', 'n', 'f', 'i', 'n', 'i', 't', 'y']) {
            assert(lower_ascii(b[k]) == seq!['i', 'n', 'f', 'i', 'n', 'i', 't', 'y'][k]);
            assert(lower_ascii(b[k]) as int >= 102);
        } else {
            assert(lower_ascii(b[k]) == seq!['n', 'a', 'n'][k]);
            assert(lower_ascii(b[k]) as int >= 97);
        }
    } else if is_mantissa(b) {
        lemma_mantissa_chars(b, k);
        assert(('.' as int) == 46);
    } else {
        let j = choose|j: int|
            0 <= j < b.len() && (#[trigger] b[j] == 'e' || b[j] == 'E') && is_mantissa(
                b.subrange(0, j),
            ) && is_exp_part(b.subrange(j + 1, b.len() as int));
        if k < j {
            lemma_mantissa_chars(b.subrange(0, j), k);
            assert(b.subrange(0, j)[k] == b[k]);
            assert(('.' as int) == 46);
        } else if k == j {
            assert(('e' as int) == 101 && ('E' as int) == 69);
        } else {
            let e = b.subrange(j + 1, b.len() as int);
            assert(e[k - j - 1] == b[k]);
            if k == j + 1 && e.len() > 0 && is_sign(e[0]) {
                assert(('+' as int) == 43 && ('-' as int) == 45);
            } else {
                let d = strip_sign(e);
                let p = if e.len() > 0 && is_sign(e[0]) {
                    k - j - 2
                } else {
                    k - j - 1
                };
                assert(d[p] == e[k - j - 1]);
                assert(is_digit(d[p]));
            }
        }
    }
}

/// First index in `[a, b)` whose character equals `byte`, else `b`.
fn scan_byte(s: &str, a: usize, b: usize, byte: u8) -> (r: usize)
    requires
        s.is_ascii(),
        a <= b <= s@.len(),
        byte < 128,
    ensures
        a <= r <= b,
        r < b ==> s@[r as int] == byte as char,
        forall|t: int| a <= t < r ==> s@[t] != byte as char,
{
    let mut j = a;
    while j < b
        invariant
            s.is_ascii(),
            a <= j <= b <= s@.len(),
            byte < 128,
            forall|t: int| a <= t < j ==> s@[t] != byte as char,
        decreases b - j,
    {
        let c = s.get_ascii(j);
        if c == byte {
            proof {
                crate::text::lemma_ascii_chars_bound(s@);
                crate::text::lemma_ascii_char_eq(s@[j as int], byte as char);
            }
            return j;
        }
        proof {
            assert(s@[j as int] != byte as char) by {
                if s@[j as int] == byte as char {
                    assert(s@[j as int] as u8 == byte);
                }
            }
        }
        j += 1;
    }
    b
}

/// First index in `[a, b)` holding `e` or `E`, else `b`.
fn scan_exp_marker(s: &str, a: usize, b: usize) -> (r: usize)
    requires
        s.is_ascii(),
        a <= b <= s@.len(),
    ensures
        a <= r <= b,
        r < b ==> s@[r as int] == 'e' || s@[r as int] == 'E',
        forall|t: int| a <= t < r ==> s@[t] != 'e' && s@[t] != 'E',
{
    let mut j = a;
    while j < b
        invariant
            s.is_ascii(),
            a <= j <= b <= s@.len(),
            forall|t: int| a <= t < j ==> s@[t] != 'e' && s@[t] != 'E',
        decreases b - j,
    {
        let c = s.get_ascii(j);
        if c == 101 || c == 69 {
            proof {
                crate::text::lemma_ascii_chars_bound(s@);
                if c == 101 {
                    crate::text::lemma_ascii_char_eq(s@[j as int], 'e');
                } else {
                    crate::text::lemma_ascii_char_eq(s@[j as int], 'E');
                }
            }
            return j;
        }
        proof {
            assert(('e' as int) == 101 && ('E' as int) == 69);
            assert(s@[j as int] != 'e' && s@[j as int] != 'E') by {
                if s@[j as int] == 'e' || s@[j as int] == 'E' {
                    assert(s@[j as int] as u8 == 101 || s@[j as int] as u8 == 69);
                }
            }
        }
        j += 1;
    }
    b
}

/// Whether every character in `[a, b)` is a decimal digit.
fn all_digits_range(s: &str, a: usize, b: usize) -> (r: bool)
    requires
        s.is_ascii(),
        a <= b <= s@.len(),
    ensures
        r == all_digits(s@.subrange(a as int, b as int)),
{
    let ghost m = s@.subrange(a as int, b as int);
    let mut j = a;
    while j < b
        invariant
            s.is_ascii(),
            a <= j <= b <= s@.len(),
            m == s@.subrange(a as int, b as int),
            forall|t: int| 0 <= t < j - a ==> is_digit(#[trigger] m[t]),
        decreases b - j,
    {
        let c = s.get_ascii(j);
        if c < 48 || c > 57 {
            proof {
                crate::text::lemma_ascii_chars_bound(s@);
                assert(m[j - a] == s@[j as int]);
                assert(!is_digit(m[j - a]));
            }
            return false;
        }
        proof {
            crate::text::lemma_ascii_chars_bound(s@);
            assert(m[j - a] == s@[j as int]);
            assert(is_digit(m[j - a]));
        }
        j += 1;
    }
    true
}

/// Whether `[a, b)` spells `w` up to ASCII case.
fn tail_matches_ci(s: &str, a: usize, b: usize, w: &str) -> (r: bool)
    requires
        s.is_ascii(),
        w.is_ascii(),
        a <= b <= s@.len(),
    ensures
        r == matches_ci(s@.subrange(a as int, b as int), w@),
{
    let ghost m = s@.subrange(a as int, b as int);
    let wl = w.unicode_len();
    if b - a != wl {
        return false;
    }
    let mut i: usize = 0;
    while i < wl
        invariant
            s.is_ascii(),
            w.is_ascii(),
            a <= b <= s@.len(),
            b - a == wl == w@.len(),
            0 <= i <= wl,
            m == s@.subrange(a as int, b as int),
            forall|t: int| 0 <= t < i ==> lower_ascii(#[trigger] m[t]) == w@[t],
        decreases wl - i,
    {
        let bs = s.get_ascii(a + i);
        let bw = w.get_ascii(i);
        let lb: u8 = if 65 <= bs && bs <= 90 {
            bs + 32
        } else {
            bs
        };
        proof {
            crate::text::lemma_ascii_chars_bound(s@);
            crate::text::lemma_ascii_chars_bound(w@);
            let c = s@[a + i];
            assert(m[i as int] == c);
            assert(lower_ascii(c) as int == lb as int);
        }
        if lb != bw {
            proof {
                assert(lower_ascii(m[i as int]) != w@[i as int]);
            }
            return false;
        }
        proof {
            crate::text::lemma_ascii_char_eq(lower_ascii(m[i as int]), w@[i as int]);
        }
        i += 1;
    }
    true
}

/// Whether `[a, b)` is a mantissa as [`is_mantissa`] states it.
fn is_mantissa_range(s: &str, a: usize, b: usize) -> (r: bool)
    requires
        s.is_ascii(),
        a <= b <= s@.len(),
    ensures
        r == is_mantissa(s@.subrange(a as int, b as int)),
{
    let ghost m = s@.subrange(a as int, b as int);
    proof {
        assert(!is_digit('.')) by {
            assert(('.' as int) == 46);
        }
    }
    let j = scan_byte(s, a, b, 46);
    proof {
        assert(('.' as int) == 46);
        assert(forall|t: int| 0 <= t < j - a ==> #[trigger] m[t] != '.');
    }
    if j == b {
        let r = b > a && all_digits_range(s, a, b);
        proof {
            if !r && is_mantissa(m) {
                if !(m.len() > 0 && all_digits(m)) {
                    let jj = choose|jj: int|
                        0 <= jj < m.len() && #[trigger] m[jj] == '.' && all_digits(
                            m.subrange(0, jj),
                        ) && all_digits(m.subrange(jj + 1, m.len() as int));
                    assert(m[jj] != '.');
                }
            }
        }
        r
    } else {
        let ghost jj = j - a;
        proof {
            assert(m[jj] == '.');
        }
        if b - a <= 1 {
            proof {
                assert(m.len() == 1);
                assert(!all_digits(m)) by {
                    assert(!is_digit(m[0]));
                }
            }
            return false;
        }
        let left = all_digits_range(s, a, j);
        let right = if left {
            all_digits_range(s, j + 1, b)
        } else {
            false
        };
        let r = left && right;
        proof {
            assert(m.subrange(0, jj) =~= s@.subrange(a as int, j as int));
            assert(m.subrange(jj + 1, m.len() as int) =~= s@.subrange(j + 1, b as int));
            if r {
                assert(is_mantissa(m));
            } else {
                assert(!(m.len() > 0 && all_digits(m))) by {
                    assert(!is_digit(m[jj]));
                }
                if is_mantissa(m) {
                    let j2 = choose|j2: int|
                        0 <= j2 < m.len() && #[trigger] m[j2] == '.' && all_digits(
                            m.subrange(0, j2),
                        ) && all_digits(m.subrange(j2 + 1, m.len() as int));
                    if j2 < jj {
                        assert(m[j2] != '.');
                    } else if j2 > jj {
                        assert(m.subrange(0, j2)[jj] == m[jj]);
                        assert(!all_digits(m.subrange(0, j2))) by {
                            assert(!is_digit(m.subrange(0, j2)[jj]));
                        }
                    }
                }
            }
        }
        r
    }
}

/// Whether `[a, b)` is an exponent as [`is_exp_part`] states it.
fn is_exp_range(s: &str, a: usize, b: usize) -> (r: bool)
    requires
        s.is_ascii(),
        a <= b <= s@.len(),
    ensures
        r == is_exp_part(s@.subrange(a as int, b as int)),
{
    let ghost e = s@.subrange(a as int, b as int);
    let mut x = a;
    if a < b {
        let c = s.get_ascii(a);
        if c == 43 || c == 45 {
            x = a + 1;
            proof {
                crate::text::lemma_ascii_chars_bound(s@);
                if c == 43 {
                    crate::text::lemma_ascii_char_eq(s@[a as int], '+');
                } else {
                    crate::text::lemma_ascii_char_eq(s@[a as int], '-');
                }
                assert(is_sign(e[0]));
            }
        } else {
            proof {
                assert(('+' as int) == 43 && ('-' as int) == 45);
                assert(!is_sign(e[0])) by {
                    if is_sign(e[0]) {
                        assert(e[0] as u8 == 43 || e[0] as u8 == 45);
                    }
                }
            }
        }
    }
    proof {
        assert(strip_sign(e) =~= s@.subrange(x as int, b as int));
    }
    b > x && all_digits_range(s, x, b)
}

/// Whether `f` is a float field, as [`is_float_text`] states it.
pub fn check_float_text(f: &str) -> (r: bool)
    ensures
        r == is_float_text(f@),
{
    if !crate::text::str_is_ascii(f) {
        proof {
            if is_float_text(f@) {
                lemma_float_token(f@);
            }
        }
        return false;
    }
    let n = f.unicode_len();
    let mut a: usize = 0;
    if n > 0 {
        let b0 = f.get_ascii(0);
        if b0 == 43 || b0 == 45 {
            a = 1;
            proof {
                crate::text::lemma_ascii_chars_bound(f@);
                if b0 == 43 {
                    crate::text::lemma_ascii_char_eq(f@[0], '+');
                } else {
                    crate::text::lemma_ascii_char_eq(f@[0], '-');
                }
            }
        } else {
            proof {
                assert(('+' as int) == 43 && ('-' as int) == 45);
                assert(!is_sign(f@[0])) by {
                    if is_sign(f@[0]) {
                        assert(f@[0] as u8 == 43 || f@[0] as u8 == 45);
                    }
                }
            }
        }
    }
    let ghost body = strip_sign(f@);
    proof {
        assert(body =~= f@.subrange(a as int, n as int));
    }
    proof {
        lemma_float_words();
    }
    if tail_matches_ci(f, a, n, "inf") {
        return true;
    }
    if tail_matches_ci(f, a, n, "infinity") {
        return true;
    }
    if tail_matches_ci(f, a, n, "nan") {
        return true;
    }
    let e = scan_exp_marker(f, a, n);
    if e == n {
        let r = is_mantissa_range(f, a, n);
        proof {
            if !r && is_number(body) {
                let i = choose|i: int|
                    0 <= i < body.len() && (#[trigger] body[i] == 'e' || body[i] == 'E')
                        && is_mantissa(body.subrange(0, i)) && is_exp_part(
                        body.subrange(i + 1, body.len() as int),
                    );
                assert(f@[a + i] == body[i]);
            }
        }
        r
    } else {
        let r1 = is_mantissa_range(f, a, e);
        let r2 = if r1 {
            is_exp_range(f, e + 1, n)
        } else {
            false
        };
        let r = r1 && r2;
        proof {
            let ghost ei = e - a;
            assert(body[ei] == 'e' || body[ei] == 'E');
            assert(body.subrange(0, ei) =~= f@.subrange(a as int, e as int));
            assert(body.subrange(ei + 1, body.len() as int) =~= f@.subrange(e + 1, n as int));
            if r {
                assert(is_number(body));
            } else {
                assert(!is_mantissa(body)) by {
                    if is_mantissa(body) {
                        lemma_mantissa_chars(body, ei);
                        assert(('e' as int) == 101 && ('E' as int) == 69 && ('.' as int) == 46);
                    }
                }
                if is_number(body) {
                    let i = choose|i: int|
                        0 <= i < body.len() && (#[trigger] body[i] == 'e' || body[i] == 'E')
                            && is_mantissa(body.subrange(0, i)) && is_exp_part(
                            body.subrange(i + 1, body.len() as int),
                        );
                    if i < ei {
                        assert(f@[a + i] == body[i]);
                    } else if i > ei {
                        assert(body.subrange(0, i)[ei] == body[ei]);
                        lemma_mantissa_chars(body.subrange(0, i), ei);
                        assert(('e' as int) == 101 && ('E' as int) == 69 && ('.' as int) == 46);
                    }
                }
            }
        }
        r
    }
}

/// The character sequences of the three special float words.
proof fn lemma_float_words()
    ensures
        "inf"@ =~= seq!['i', 'n', 'f'],
        "infinity"@ =~= seq!['i', 'n', 'f', 'i', 'n', 'i', 't', 'y'],
        "nan"@ =~= seq!['n', 'a', 'n'],
        vstd::string::is_ascii("inf"),
        vstd::string::is_ascii("infinity"),
        vstd::string::is_ascii("nan"),
{
    reveal_strlit("inf");
    reveal_strlit("infinity");
    reveal_strlit("nan");
    assert forall|i: int| 0 <= i < "inf"@.len() implies '\0' <= #[trigger] "inf"@[i]
        <= '\u{7f}' by {
        assert("inf"@ =~= seq!['i', 'n', 'f']);
    }
    assert forall|i: int| 0 <= i < "infinity"@.len() implies '\0' <= #[trigger] "infinity"@[i]
        <= '\u{7f}' by {
        assert("infinity"@ =~= seq!['i', 'n', 'f', 'i', 'n', 'i', 't', 'y']);
    }
    assert forall|i: int| 0 <= i < "nan"@.len() implies '\0' <= #[trigger] "nan"@[i]
        <= '\u{7f}' by {
        assert("nan"@ =~= seq!['n', 'a', 'n']);
    }
}

} // verus!
