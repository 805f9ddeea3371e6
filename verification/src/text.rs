//! Character-level helpers shared by the wire codec: the ASCII byte view
//! of a character sequence, scanning for a separator, and the shape of
//! the plain tokens (instrument id, source tag) that may stand in a line.
use vstd::prelude::*;

verus! {

/// The bytes that an ASCII character sequence occupies on the wire.
pub open spec fn ascii_bytes(s: Seq<char>) -> Seq<u8> {
    Seq::new(s.len(), |i: int| s[i] as u8)
}

/// The characters denoted by a sequence of ASCII bytes.
pub open spec fn chars_of_bytes(b: Seq<u8>) -> Seq<char> {
    Seq::new(b.len(), |i: int| b[i] as char)
}

pub open spec fn ascii_chars(s: Seq<char>) -> bool {
    vstd::utf8::is_ascii_chars(s)
}

/// Whether every byte is in the ASCII range.
pub open spec fn bytes_ascii(b: Seq<u8>) -> bool {
    forall|i: int| 0 <= i < b.len() ==> (#[trigger] b[i]) < 128
}

/// ASCII characters and their bytes denote each other one to one.
pub proof fn lemma_ascii_chars_to_bytes(s: Seq<char>)
    requires
        ascii_chars(s),
    ensures
        vstd::utf8::encode_utf8(s) == ascii_bytes(s),
        bytes_ascii(ascii_bytes(s)),
        chars_of_bytes(ascii_bytes(s)) == s,
{
    vstd::utf8::is_ascii_chars_encode_utf8(s);
    lemma_ascii_chars_bound(s);
    assert(vstd::utf8::encode_utf8(s) =~= ascii_bytes(s));
    assert(chars_of_bytes(ascii_bytes(s)) =~= s) by {
        assert forall|i: int| 0 <= i < s.len() implies chars_of_bytes(ascii_bytes(s))[i]
            == s[i] by {
            lemma_ascii_char_eq(chars_of_bytes(ascii_bytes(s))[i], s[i]);
        }
    }
}

/// Every character of an ASCII sequence casts to an integer below 128.
pub proof fn lemma_ascii_chars_bound(s: Seq<char>)
    requires
        ascii_chars(s),
    ensures
        forall|i: int| #![trigger s[i]] 0 <= i < s.len() ==> 0 <= (s[i] as int) < 128,
{
    vstd::utf8::is_ascii_chars_nat_bound(s);
}

/// Two characters in the ASCII range with the same byte value are equal.
pub proof fn lemma_ascii_char_eq(c1: char, c2: char)
    requires
        (c1 as int) < 128,
        (c2 as int) < 128,
        c1 as u8 == c2 as u8,
    ensures
        c1 == c2,
{
}

/// The first index at or after `from` where `c` occurs in `s`, or
/// `s.len()` if there is none.
pub open spec fn find_char(s: Seq<char>, c: char, from: int) -> int
    decreases s.len() - from,
{
    if from < 0 || from >= s.len() {
        s.len() as int
    } else if s[from] == c {
        from
    } else {
        find_char(s, c, from + 1)
    }
}

/// If `c` first occurs at `i`, the scan finds exactly `i`.
pub proof fn lemma_find_char_at(s: Seq<char>, c: char, from: int, i: int)
    requires
        0 <= from <= i < s.len(),
        s[i] == c,
        forall|j: int| from <= j < i ==> s[j] != c,
    ensures
        find_char(s, c, from) == i,
    decreases i - from,
{
    if from < i {
        lemma_find_char_at(s, c, from + 1, i);
    }
}

/// If `c` does not occur at or after `from`, the scan reports the length.
pub proof fn lemma_find_char_none(s: Seq<char>, c: char, from: int)
    requires
        0 <= from <= s.len(),
        forall|j: int| from <= j < s.len() ==> s[j] != c,
    ensures
        find_char(s, c, from) == s.len(),
    decreases s.len() - from,
{
    if from < s.len() {
        lemma_find_char_none(s, c, from + 1);
    }
}

/// A field that may stand on its own in a line: nonempty ASCII with no
/// separator and no line-terminator character.
pub open spec fn token_ok(s: Seq<char>) -> bool {
    &&& s.len() > 0
    &&& ascii_chars(s)
    &&& forall|i: int| 0 <= i < s.len() ==> (#[trigger] s[i]) != ' ' && s[i] != '\r' && s[i]
        != '\n'
}

/// Whether every character of `s` is in the ASCII range, as [`ascii_chars`]
/// states it.
pub fn str_is_ascii(s: &str) -> (r: bool)
    ensures
        r == ascii_chars(s@),
        r == s.is_ascii(),
{
    s.is_ascii()
}

/// The first separator at or after `from`, as [`find_char`] states it.
pub fn find_space(s: &str, from: usize) -> (r: usize)
    requires
        s.is_ascii(),
        from <= s@.len(),
    ensures
        from <= r <= s@.len(),
        r == find_char(s@, ' ', from as int),
{
    proof {
        vstd::string::is_ascii_spec_bytes(s);
    }
    let n = s.unicode_len();
    let mut j = from;
    while j < n
        invariant
            s.is_ascii(),
            from <= j <= n == s@.len(),
            forall|t: int| from <= t < j ==> s@[t] != ' ',
        decreases n - j,
    {
        let c = s.get_ascii(j);
        if c == 32 {
            proof {
                lemma_ascii_chars_bound(s@);
                lemma_ascii_char_eq(s@[j as int], ' ');
                lemma_find_char_at(s@, ' ', from as int, j as int);
            }
            return j;
        }
        proof {
            assert((' ' as int) == 32);
            assert(s@[j as int] != ' ') by {
                if s@[j as int] == ' ' {
                    assert(s@[j as int] as u8 == 32);
                }
            }
        }
        j += 1;
    }
    proof {
        lemma_find_char_none(s@, ' ', from as int);
    }
    n
}

/// Whether the characters in `[a, b)` form a plain token, as
/// [`token_ok`] states it.
pub fn check_token_range(s: &str, a: usize, b: usize) -> (r: bool)
    requires
        s.is_ascii(),
        a <= b <= s@.len(),
    ensures
        r == token_ok(s@.subrange(a as int, b as int)),
{
    let ghost m = s@.subrange(a as int, b as int);
    if b == a {
        return false;
    }
    let mut j = a;
    while j < b
        invariant
            s.is_ascii(),
            a <= j <= b <= s@.len(),
            m == s@.subrange(a as int, b as int),
            forall|t: int|
                0 <= t < j - a ==> (#[trigger] m[t]) != ' ' && m[t] != '\r' && m[t] != '\n',
        decreases b - j,
    {
        let c = s.get_ascii(j);
        if c == 32 || c == 13 || c == 10 {
            proof {
                lemma_ascii_chars_bound(s@);
                assert(m[j - a] == s@[j as int]);
                if c == 32 {
                    lemma_ascii_char_eq(s@[j as int], ' ');
                } else if c == 13 {
                    lemma_ascii_char_eq(s@[j as int], '\r');
                } else {
                    lemma_ascii_char_eq(s@[j as int], '\n');
                }
            }
            return false;
        }
        proof {
            assert((' ' as int) == 32 && ('\r' as int) == 13 && ('\n' as int) == 10);
            assert(m[j - a] == s@[j as int]);
            assert(m[j - a] != ' ' && m[j - a] != '\r' && m[j - a] != '\n') by {
                if m[j - a] == ' ' || m[j - a] == '\r' || m[j - a] == '\n' {
                    assert(s@[j as int] as u8 == 32 || s@[j as int] as u8 == 13 || s@[j as int]
                        as u8 == 10);
                }
            }
        }
        j += 1;
    }
    proof {
        assert(ascii_chars(m)) by {
            assert forall|i: int| 0 <= i < m.len() implies '\0' <= #[trigger] m[i] <= '\u{7f}' by {
                assert(m[i] == s@[a + i]);
            }
        }
    }
    true
}

/// Appends the bytes of an ASCII string.
pub fn push_ascii_chars(dest: &mut Vec<u8>, s: &str)
    requires
        s.is_ascii(),
    ensures
        final(dest)@ == old(dest)@ + ascii_bytes(s@),
{
    proof {
        vstd::string::is_ascii_spec_bytes(s);
    }
    let n = s.unicode_len();
    let mut i: usize = 0;
    while i < n
        invariant
            s.is_ascii(),
            0 <= i <= n == s@.len(),
            dest@ == old(dest)@ + ascii_bytes(s@.subrange(0, i as int)),
        decreases n - i,
    {
        let b = s.get_ascii(i);
        dest.push(b);
        proof {
            assert(dest@ =~= old(dest)@ + ascii_bytes(s@.subrange(0, i + 1)));
        }
        i += 1;
    }
    proof {
        assert(s@.subrange(0, n as int) =~= s@);
    }
}

/// Whether the bytes of `s` (an ASCII string) and `t` agree; used to
/// recognize the keyword lines.
pub fn ascii_str_eq(a: &str, b: &str) -> (r: bool)
    requires
        a.is_ascii(),
        b.is_ascii(),
    ensures
        r == (a@ == b@),
{
    proof {
        vstd::string::is_ascii_spec_bytes(a);
        vstd::string::is_ascii_spec_bytes(b);
    }
    let alen = a.unicode_len();
    let blen = b.unicode_len();
    if alen != blen {
        proof {
            assert(a@.len() != b@.len());
        }
        return false;
    }
    let mut i: usize = 0;
    while i < alen
        invariant
            a.is_ascii(),
            b.is_ascii(),
            alen == a@.len(),
            alen == b@.len(),
            0 <= i <= alen,
            forall|j: int| 0 <= j < i ==> a@[j] == b@[j],
        decreases alen - i,
    {
        let ca = a.get_ascii(i);
        let cb = b.get_ascii(i);
        if ca != cb {
            proof {
                assert(a@[i as int] as u8 != b@[i as int] as u8);
            }
            return false;
        }
        proof {
            lemma_ascii_char_eq(a@[i as int], b@[i as int]);
        }
        i += 1;
    }
    proof {
        assert(a@ =~= b@);
    }
    true
}

} // verus!
