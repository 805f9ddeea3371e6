//! Calendar timestamps at microsecond resolution, tagged with their
//! provenance, and their fixed-layout wire encoding
//! `<marker><YYYYMMDDhhmmss>.<ffffff>`.
use crate::text::{ascii_bytes, ascii_chars};
use vstd::arithmetic::div_mod::{lemma_div_denominator, lemma_fundamental_div_mod};
use vstd::prelude::*;

verus! {

/// A point in time at microsecond resolution, kept as plain calendar
/// fields exactly as they appear on the wire.
#[derive(Clone, Copy, Debug, PartialEq, Eq, Structural)]
pub struct DateTimeMicros {
    pub year: u16,
    pub month: u8,
    pub day: u8,
    pub hour: u8,
    pub minute: u8,
    pub second: u8,
    pub micro: u32,
}

impl DateTimeMicros {
    /// Field ranges that the fixed-digit layout can carry.
    pub open spec fn wf(self) -> bool {
        &&& self.year <= 9999
        &&& 1 <= self.month <= 12
        &&& 1 <= self.day <= 31
        &&& self.hour <= 23
        &&& self.minute <= 59
        &&& self.second <= 59
        &&& self.micro < 1_000_000
    }
}

/// The decimal digit character for `d`.
pub open spec fn digit_char(d: int) -> char {
    ((48 + d) as u8) as char
}

pub open spec fn is_digit(c: char) -> bool {
    48 <= c as int <= 57
}

/// `n` rendered as exactly `w` decimal digits, most significant first.
pub open spec fn digits(n: int, w: nat) -> Seq<char>
    decreases w,
{
    if w == 0 {
        Seq::empty()
    } else {
        digits(n / 10, (w - 1) as nat) + seq![digit_char(n % 10)]
    }
}

/// Numeric value of a digit string, most significant first.
pub open spec fn digits_val(s: Seq<char>) -> int
    decreases s.len(),
{
    if s.len() == 0 {
        0
    } else {
        digits_val(s.drop_last()) * 10 + (s.last() as int - 48)
    }
}

pub open spec fn all_digits(s: Seq<char>) -> bool {
    forall|i: int| 0 <= i < s.len() ==> is_digit(#[trigger] s[i])
}

pub open spec fn pow10(e: nat) -> int
    decreases e,
{
    if e == 0 {
        1
    } else {
        10 * pow10((e - 1) as nat)
    }
}

pub proof fn lemma_digits_props(n: int, w: nat)
    requires
        0 <= n < pow10(w),
    ensures
        digits(n, w).len() == w,
        all_digits(digits(n, w)),
        digits_val(digits(n, w)) == n,
    decreases w,
{
    if w == 0 {
    } else {
        let rest = digits(n / 10, (w - 1) as nat);
        let last = digit_char(n % 10);
        lemma_fundamental_div_mod(n, 10);
        assert(n / 10 < pow10((w - 1) as nat)) by {
            if n / 10 >= pow10((w - 1) as nat) {
                assert(n >= 10 * pow10((w - 1) as nat));
            }
        }
        lemma_digits_props(n / 10, (w - 1) as nat);
        assert(digits(n, w).drop_last() =~= rest);
        assert(digits(n, w).last() == last);
        assert(last as int == 48 + n % 10);
    }
}

pub proof fn lemma_digits_val_bound(s: Seq<char>)
    requires
        all_digits(s),
    ensures
        0 <= digits_val(s) < pow10(s.len()),
    decreases s.len(),
{
    if s.len() > 0 {
        lemma_digits_val_bound(s.drop_last());
    }
}

/// Appending one digit extends the value by one decimal place.
pub proof fn lemma_digits_val_snoc(s: Seq<char>, i: int)
    requires
        0 <= i < s.len(),
    ensures
        digits_val(s.subrange(0, i + 1)) == digits_val(s.subrange(0, i)) * 10 + (s[i] as int - 48),
{
    assert(s.subrange(0, i + 1).drop_last() =~= s.subrange(0, i));
    assert(s.subrange(0, i + 1).last() == s[i]);
}

/// The explicit four digits of a number below ten thousand.
pub proof fn lemma_digits4(n: int)
    requires
        0 <= n < 10000,
    ensures
        digits(n, 4) =~= seq![
            digit_char(n / 1000),
            digit_char((n / 100) % 10),
            digit_char((n / 10) % 10),
            digit_char(n % 10),
        ],
{
    reveal_with_fuel(digits, 5);
    lemma_div_denominator(n, 10, 10);
    lemma_div_denominator(n, 100, 10);
    assert((n / 10) / 10 == n / 100);
    assert((n / 100) / 10 == n / 1000);
    assert(n / 1000 < 10);
    assert((n / 1000) % 10 == n / 1000) by {
        vstd::arithmetic::div_mod::lemma_small_mod((n / 1000) as nat, 10);
    }
}

/// The explicit two digits of a number below one hundred.
pub proof fn lemma_digits2(n: int)
    requires
        0 <= n < 100,
    ensures
        digits(n, 2) =~= seq![digit_char(n / 10), digit_char(n % 10)],
{
    reveal_with_fuel(digits, 3);
    assert(n / 10 < 10);
    assert((n / 10) % 10 == n / 10) by {
        vstd::arithmetic::div_mod::lemma_small_mod((n / 10) as nat, 10);
    }
}

/// The explicit six digits of a number below one million.
pub proof fn lemma_digits6(n: int)
    requires
        0 <= n < 1_000_000,
    ensures
        digits(n, 6) =~= seq![
            digit_char(n / 100000),
            digit_char((n / 10000) % 10),
            digit_char((n / 1000) % 10),
            digit_char((n / 100) % 10),
            digit_char((n / 10) % 10),
            digit_char(n % 10),
        ],
{
    reveal_with_fuel(digits, 7);
    lemma_div_denominator(n, 10, 10);
    lemma_div_denominator(n, 100, 10);
    lemma_div_denominator(n, 1000, 10);
    lemma_div_denominator(n, 10000, 10);
    assert((n / 10) / 10 == n / 100);
    assert((n / 100) / 10 == n / 1000);
    assert((n / 1000) / 10 == n / 10000);
    assert((n / 10000) / 10 == n / 100000);
    assert(n / 100000 < 10);
    assert((n / 100000) % 10 == n / 100000) by {
        vstd::arithmetic::div_mod::lemma_small_mod((n / 100000) as nat, 10);
    }
}

/// The fourteen date digits followed by a dot and six microsecond digits.
pub open spec fn date_time_chars(dt: DateTimeMicros) -> Seq<char> {
    digits(dt.year as int, 4) + digits(dt.month as int, 2) + digits(dt.day as int, 2) + digits(
        dt.hour as int,
        2,
    ) + digits(dt.minute as int, 2) + digits(dt.second as int, 2) + seq!['.'] + digits(
        dt.micro as int,
        6,
    )
}

/// Decode of the fixed layout after the provenance marker: fourteen date
/// digits, a dot, then one to six fractional digits scaled to
/// microseconds.  Anything else is a malformed timestamp field.
pub open spec fn spec_parse_date_time(s: Seq<char>) -> Option<DateTimeMicros> {
    if !ascii_chars(s) {
        None
    } else if !(16 <= s.len() <= 21) {
        None
    } else if !all_digits(s.subrange(0, 14)) {
        None
    } else if s[14] != '.' {
        None
    } else if !all_digits(s.subrange(15, s.len() as int)) {
        None
    } else {
        let frac_len = s.len() - 15;
        let dt = DateTimeMicros {
            year: digits_val(s.subrange(0, 4)) as u16,
            month: digits_val(s.subrange(4, 6)) as u8,
            day: digits_val(s.subrange(6, 8)) as u8,
            hour: digits_val(s.subrange(8, 10)) as u8,
            minute: digits_val(s.subrange(10, 12)) as u8,
            second: digits_val(s.subrange(12, 14)) as u8,
            micro: (digits_val(s.subrange(15, s.len() as int)) * pow10((6 - frac_len) as nat)) as u32,
        };
        if dt.wf() {
            Some(dt)
        } else {
            None
        }
    }
}

/// Appends the two decimal digits of `value`, zero-padded on the left.
pub fn push_with_leading_zero(result: &mut Vec<u8>, value: u8)
    requires
        value < 100,
    ensures
        final(result)@ == old(result)@ + ascii_bytes(digits(value as int, 2)),
{
    let hi: u8 = 48 + value / 10;
    let lo: u8 = 48 + value % 10;
    result.push(hi);
    result.push(lo);
    proof {
        lemma_digits2(value as int);
        assert(final(result)@ =~= old(result)@ + ascii_bytes(digits(value as int, 2)));
    }
}

/// Appends the twenty-one fixed-layout characters of `dt` as bytes.
#[verifier::rlimit(30)]
pub fn date_time_to_string(result: &mut Vec<u8>, dt: &DateTimeMicros)
    requires
        dt.wf(),
    ensures
        final(result)@ == old(result)@ + ascii_bytes(date_time_chars(*dt)),
{
    let y = dt.year;
    result.push(48 + (y / 1000) as u8);
    result.push(48 + ((y / 100) % 10) as u8);
    result.push(48 + ((y / 10) % 10) as u8);
    result.push(48 + (y % 10) as u8);
    push_with_leading_zero(result, dt.month);
    push_with_leading_zero(result, dt.day);
    push_with_leading_zero(result, dt.hour);
    push_with_leading_zero(result, dt.minute);
    push_with_leading_zero(result, dt.second);
    result.push(46);
    let m = dt.micro;
    result.push(48 + (m / 100000) as u8);
    result.push(48 + ((m / 10000) % 10) as u8);
    result.push(48 + ((m / 1000) % 10) as u8);
    result.push(48 + ((m / 100) % 10) as u8);
    result.push(48 + ((m / 10) % 10) as u8);
    result.push(48 + (m % 10) as u8);
    proof {
        lemma_digits4(dt.year as int);
        lemma_digits6(dt.micro as int);
        assert(('.' as int) == 46);
        assert(final(result)@ =~= old(result)@ + ascii_bytes(date_time_chars(*dt)));
    }
}

proof fn lemma_pow10_mono(a: nat, b: nat)
    requires
        a <= b,
    ensures
        pow10(a) <= pow10(b),
    decreases b,
{
    if a < b {
        lemma_pow10_mono(a, (b - 1) as nat);
        lemma_pow10_mul((b - 1) as nat, 0);
    }
}

/// Reads the digit substring `[from, to)` of `s` as a number; reports
/// a malformed field if any character there is not a decimal digit.
pub fn parse_fixed_digits(s: &str, from: usize, to: usize) -> (r: Option<u32>)
    requires
        s.is_ascii(),
        from <= to <= s@.len(),
        to - from <= 6,
    ensures
        match r {
            Some(v) => all_digits(s@.subrange(from as int, to as int)) && v as int == digits_val(
                s@.subrange(from as int, to as int),
            ),
            None => !all_digits(s@.subrange(from as int, to as int)),
        },
{
    let ghost whole = s@.subrange(from as int, to as int);
    let mut acc: u32 = 0;
    let mut i: usize = from;
    proof {
        reveal_with_fuel(pow10, 7);
        assert(whole.subrange(0, 0) =~= Seq::<char>::empty());
    }
    while i < to
        invariant
            s.is_ascii(),
            from <= i <= to <= s@.len(),
            to - from <= 6,
            whole == s@.subrange(from as int, to as int),
            all_digits(whole.subrange(0, i - from)),
            acc as int == digits_val(whole.subrange(0, i - from)),
            (acc as int) < pow10((i - from) as nat),
        decreases to - i,
    {
        let b = s.get_ascii(i);
        if b < 48 || b > 57 {
            proof {
                let c = s@[i as int];
                assert(whole[i - from] == c);
                assert(!is_digit(c));
            }
            return None;
        }
        proof {
            lemma_pow10_mono((i - from) as nat, 5);
            reveal_with_fuel(pow10, 7);
        }
        acc = acc * 10 + (b - 48) as u32;
        proof {
            let c = s@[i as int];
            assert(whole[i - from] == c);
            assert(is_digit(c));
            assert(c as int == b as int);
            lemma_digits_val_snoc(whole, i - from);
            assert(whole.subrange(0, i - from + 1).drop_last() =~= whole.subrange(0, i - from));
            lemma_digits_val_bound(whole.subrange(0, i - from + 1));
        }
        i += 1;
    }
    proof {
        assert(whole.subrange(0, (to - from) as int) =~= whole);
    }
    Some(acc)
}

/// Parses the fixed layout after the provenance marker, as
/// [`spec_parse_date_time`] states it.
pub fn parse_date_time(line: &str) -> (r: Option<DateTimeMicros>)
    ensures
        r == spec_parse_date_time(line@),
{
    if !crate::text::str_is_ascii(line) {
        return None;
    }
    let n = line.unicode_len();
    if n < 16 || n > 21 {
        return None;
    }
    proof {
        reveal_with_fuel(pow10, 7);
    }
    let year = match parse_fixed_digits(line, 0, 4) {
        Some(v) => v,
        None => {
            proof {
                lemma_sub_all_digits(line@, 0, 14, 0, 4);
            }
            return None;
        },
    };
    let month = match parse_fixed_digits(line, 4, 6) {
        Some(v) => v,
        None => {
            proof {
                lemma_sub_all_digits(line@, 0, 14, 4, 6);
            }
            return None;
        },
    };
    let day = match parse_fixed_digits(line, 6, 8) {
        Some(v) => v,
        None => {
            proof {
                lemma_sub_all_digits(line@, 0, 14, 6, 8);
            }
            return None;
        },
    };
    let hour = match parse_fixed_digits(line, 8, 10) {
        Some(v) => v,
        None => {
            proof {
                lemma_sub_all_digits(line@, 0, 14, 8, 10);
            }
            return None;
        },
    };
    let minute = match parse_fixed_digits(line, 10, 12) {
        Some(v) => v,
        None => {
            proof {
                lemma_sub_all_digits(line@, 0, 14, 10, 12);
            }
            return None;
        },
    };
    let second = match parse_fixed_digits(line, 12, 14) {
        Some(v) => v,
        None => {
            proof {
                lemma_sub_all_digits(line@, 0, 14, 12, 14);
            }
            return None;
        },
    };
    if line.get_ascii(14) != 46 {
        proof {
            assert(('.' as int) == 46);
            assert(line@[14] != '.');
        }
        return None;
    }
    proof {
        assert(line@[14] == '.') by {
            crate::text::lemma_ascii_char_eq(line@[14], '.');
        }
    }
    let frac = match parse_fixed_digits(line, 15, n) {
        Some(v) => v,
        None => {
            return None;
        },
    };
    proof {
        assert(all_digits(line@.subrange(0, 14))) by {
            assert forall|i: int| 0 <= i < 14 implies is_digit(#[trigger] line@.subrange(0, 14)[i]) by {
                if i < 4 {
                    assert(line@.subrange(0, 4)[i] == line@.subrange(0, 14)[i]);
                } else if i < 6 {
                    assert(line@.subrange(4, 6)[i - 4] == line@.subrange(0, 14)[i]);
                } else if i < 8 {
                    assert(line@.subrange(6, 8)[i - 6] == line@.subrange(0, 14)[i]);
                } else if i < 10 {
                    assert(line@.subrange(8, 10)[i - 8] == line@.subrange(0, 14)[i]);
                } else if i < 12 {
                    assert(line@.subrange(10, 12)[i - 10] == line@.subrange(0, 14)[i]);
                } else {
                    assert(line@.subrange(12, 14)[i - 12] == line@.subrange(0, 14)[i]);
                }
            }
        }
        lemma_digits_val_bound(line@.subrange(15, line@.len() as int));
        lemma_pow10_mono((line@.len() - 15) as nat, 6);
    }
    let scale: u32 = match n - 15 {
        1 => 100_000,
        2 => 10_000,
        3 => 1_000,
        4 => 100,
        5 => 10,
        _ => 1,
    };
    proof {
        reveal_with_fuel(pow10, 7);
        let fl = (line@.len() - 15) as nat;
        assert(scale as int == pow10((6 - fl) as nat));
        assert((frac as int) < pow10(fl));
        lemma_pow10_mul(fl, (6 - fl) as nat);
        assert((frac as int) * (scale as int) < 1_000_000) by (nonlinear_arith)
            requires
                (frac as int) < pow10(fl),
                scale as int == pow10((6 - fl) as nat),
                pow10(fl) * pow10((6 - fl) as nat) == 1_000_000,
                pow10((6 - fl) as nat) >= 1,
                frac >= 0,
        ;
    }
    let micro: u32 = frac * scale;
    let dt = DateTimeMicros {
        year: year as u16,
        month: month as u8,
        day: day as u8,
        hour: hour as u8,
        minute: minute as u8,
        second: second as u8,
        micro,
    };
    proof {
        reveal_with_fuel(pow10, 7);
        lemma_digits_val_bound(line@.subrange(0, 4));
    }
    if 1 <= dt.month && dt.month <= 12 && 1 <= dt.day && dt.day <= 31 && dt.hour <= 23 && dt.minute
        <= 59 && dt.second <= 59 {
        Some(dt)
    } else {
        None
    }
}

/// A digit somewhere in `[lo, hi)` is malformed if one of its parts is.
proof fn lemma_sub_all_digits(s: Seq<char>, lo: int, hi: int, a: int, b: int)
    requires
        0 <= lo <= a <= b <= hi <= s.len(),
        !all_digits(s.subrange(a, b)),
    ensures
        !all_digits(s.subrange(lo, hi)),
{
    let j = choose|j: int| 0 <= j < b - a && !is_digit(#[trigger] s.subrange(a, b)[j]);
    assert(s.subrange(lo, hi)[j + a - lo] == s.subrange(a, b)[j]);
}

/// A timestamp together with its provenance: reported by the upstream
/// source, or assigned locally by this system.
#[derive(Clone, Copy, Debug, PartialEq, Eq, Structural)]
pub enum BidAskDateTime {
    Source(DateTimeMicros),
    Our(DateTimeMicros),
}

impl BidAskDateTime {
    pub open spec fn date(self) -> DateTimeMicros {
        match self {
            BidAskDateTime::Source(d) => d,
            BidAskDateTime::Our(d) => d,
        }
    }

    pub open spec fn wf(self) -> bool {
        self.date().wf()
    }

    /// The one-byte provenance marker that leads the encoding.
    pub open spec fn marker(self) -> char {
        match self {
            BidAskDateTime::Source(_) => 'S',
            BidAskDateTime::Our(_) => 'O',
        }
    }

    /// The full twenty-one character wire form of this timestamp.
    pub open spec fn chars(self) -> Seq<char> {
        seq![self.marker()] + date_time_chars(self.date())
    }

    /// Decode of the marker followed by the fixed date layout.
    pub open spec fn spec_parse(s: Seq<char>) -> Option<BidAskDateTime> {
        if s.len() == 0 {
            None
        } else if s[0] == 'S' {
            match spec_parse_date_time(s.skip(1)) {
                Some(d) => Some(BidAskDateTime::Source(d)),
                None => None,
            }
        } else if s[0] == 'O' {
            match spec_parse_date_time(s.skip(1)) {
                Some(d) => Some(BidAskDateTime::Our(d)),
                None => None,
            }
        } else {
            None
        }
    }

    pub fn unwrap_as_our_date(&self) -> (r: &DateTimeMicros)
        requires
            self is Our,
        ensures
            *r == self.date(),
    {
        match self {
            BidAskDateTime::Our(data) => data,
            BidAskDateTime::Source(data) => data,
        }
    }

    pub fn unwrap_as_source_date(&self) -> (r: &DateTimeMicros)
        requires
            self is Source,
        ensures
            *r == self.date(),
    {
        match self {
            BidAskDateTime::Source(data) => data,
            BidAskDateTime::Our(data) => data,
        }
    }

    /// Appends the marker and the fixed layout as bytes.
    pub fn serialize(&self, dest: &mut Vec<u8>)
        requires
            self.wf(),
        ensures
            final(dest)@ == old(dest)@ + ascii_bytes(self.chars()),
    {
        match self {
            BidAskDateTime::Source(date_time) => {
                dest.push(83);
                date_time_to_string(dest, date_time);
            },
            BidAskDateTime::Our(date_time) => {
                dest.push(79);
                date_time_to_string(dest, date_time);
            },
        }
        proof {
            assert(('S' as int) == 83 && ('O' as int) == 79);
            assert(final(dest)@ =~= old(dest)@ + ascii_bytes(self.chars()));
        }
    }

    /// Decodes a timestamp field, as [`Self::spec_parse`] states it.
    pub fn parse(src: &str) -> (r: Option<BidAskDateTime>)
        ensures
            r == Self::spec_parse(src@),
    {
        if !crate::text::str_is_ascii(src) {
            proof {
                Self::lemma_spec_parse_non_ascii(src@);
            }
            return None;
        }
        let n = src.unicode_len();
        if n == 0 {
            return None;
        }
        let m = src.get_ascii(0);
        if m != 83 && m != 79 {
            proof {
                crate::text::lemma_ascii_chars_bound(src@);
                assert(src@[0] != 'S' && src@[0] != 'O');
            }
            return None;
        }
        let rest = src.substring_ascii(1, n);
        proof {
            assert(rest@ =~= src@.skip(1));
            crate::text::lemma_ascii_chars_bound(src@);
            if m == 83 {
                crate::text::lemma_ascii_char_eq(src@[0], 'S');
            } else {
                crate::text::lemma_ascii_char_eq(src@[0], 'O');
            }
        }
        match parse_date_time(rest) {
            Some(d) => {
                if m == 83 {
                    Some(BidAskDateTime::Source(d))
                } else {
                    Some(BidAskDateTime::Our(d))
                }
            },
            None => None,
        }
    }

    /// A sequence with a character outside ASCII decodes to no timestamp.
    pub proof fn lemma_spec_parse_non_ascii(s: Seq<char>)
        requires
            !ascii_chars(s),
        ensures
            Self::spec_parse(s) == None::<BidAskDateTime>,
    {
        if s.len() == 0 {
            assert(ascii_chars(s));
        } else if s[0] == 'S' || s[0] == 'O' {
            if ascii_chars(s.skip(1)) {
                assert forall|i: int| 0 <= i < s.len() implies '\0' <= #[trigger] s[i]
                    <= '\u{7f}' by {
                    if i > 0 {
                        assert(s.skip(1)[i - 1] == s[i]);
                    }
                }
                assert(ascii_chars(s));
            }
        }
    }
}

proof fn lemma_pow10_mul(a: nat, b: nat)
    ensures
        pow10(a) * pow10(b) == pow10((a + b) as nat),
        pow10(a) >= 1,
    decreases a,
{
    if a == 0 {
    } else {
        lemma_pow10_mul((a - 1) as nat, b);
        assert(pow10(a) * pow10(b) == 10 * (pow10((a - 1) as nat) * pow10(b)))
            by (nonlinear_arith)
            requires
                pow10(a) == 10 * pow10((a - 1) as nat),
        ;
    }
}

/// The encoded layout of a well-formed timestamp: twenty-one ASCII
/// characters, none of which is a separator or line terminator.
pub proof fn lemma_date_time_chars_props(dt: DateTimeMicros)
    requires
        dt.wf(),
    ensures
        date_time_chars(dt).len() == 21,
        ascii_chars(date_time_chars(dt)),
        forall|i: int|
            0 <= i < 21 ==> (#[trigger] date_time_chars(dt)[i]) != ' ' && date_time_chars(dt)[i]
                != '\r' && date_time_chars(dt)[i] != '\n',
        spec_parse_date_time(date_time_chars(dt)) == Some(dt),
{
    let s = date_time_chars(dt);
    reveal_with_fuel(pow10, 7);
    lemma_digits_props(dt.year as int, 4);
    lemma_digits_props(dt.month as int, 2);
    lemma_digits_props(dt.day as int, 2);
    lemma_digits_props(dt.hour as int, 2);
    lemma_digits_props(dt.minute as int, 2);
    lemma_digits_props(dt.second as int, 2);
    lemma_digits_props(dt.micro as int, 6);
    assert(s.len() == 21);
    assert(s.subrange(0, 4) =~= digits(dt.year as int, 4));
    assert(s.subrange(4, 6) =~= digits(dt.month as int, 2));
    assert(s.subrange(6, 8) =~= digits(dt.day as int, 2));
    assert(s.subrange(8, 10) =~= digits(dt.hour as int, 2));
    assert(s.subrange(10, 12) =~= digits(dt.minute as int, 2));
    assert(s.subrange(12, 14) =~= digits(dt.second as int, 2));
    assert(s[14] == '.');
    assert(s.subrange(15, 21) =~= digits(dt.micro as int, 6));
    assert(all_digits(s.subrange(0, 14))) by {
        assert forall|i: int| 0 <= i < 14 implies is_digit(#[trigger] s.subrange(0, 14)[i]) by {
            assert(s.subrange(0, 14)[i] == s[i]);
            if i < 4 {
                assert(s[i] == s.subrange(0, 4)[i]);
            } else if i < 6 {
                assert(s[i] == s.subrange(4, 6)[i - 4]);
            } else if i < 8 {
                assert(s[i] == s.subrange(6, 8)[i - 6]);
            } else if i < 10 {
                assert(s[i] == s.subrange(8, 10)[i - 8]);
            } else if i < 12 {
                assert(s[i] == s.subrange(10, 12)[i - 10]);
            } else {
                assert(s[i] == s.subrange(12, 14)[i - 12]);
            }
        }
    }
    assert forall|i: int| 0 <= i < 21 implies 46 <= (#[trigger] s[i] as int) <= 57 by {
        if i < 14 {
            assert(is_digit(s.subrange(0, 14)[i]));
        } else if i == 14 {
            assert(s[i] == '.');
        } else {
            assert(is_digit(s.subrange(15, 21)[i - 15]));
        }
    }
    assert(ascii_chars(s)) by {
        assert forall|i: int| 0 <= i < s.len() implies '\0' <= #[trigger] s[i] <= '\u{7f}' by {
            assert(46 <= (s[i] as int) <= 57);
        }
    }
    assert forall|i: int|
        0 <= i < 21 implies (#[trigger] s[i]) != ' ' && s[i] != '\r' && s[i] != '\n' by {
        assert(46 <= (s[i] as int) <= 57);
        assert((' ' as int) == 32 && ('\r' as int) == 13 && ('\n' as int) == 10);
    }
    assert(digits_val(s.subrange(0, 4)) == dt.year as int);
    assert(digits_val(s.subrange(4, 6)) == dt.month as int);
    assert(digits_val(s.subrange(6, 8)) == dt.day as int);
    assert(digits_val(s.subrange(8, 10)) == dt.hour as int);
    assert(digits_val(s.subrange(10, 12)) == dt.minute as int);
    assert(digits_val(s.subrange(12, 14)) == dt.second as int);
    assert(s.subrange(15, s.len() as int) =~= s.subrange(15, 21));
    assert(digits_val(s.subrange(15, s.len() as int)) == dt.micro as int);
    assert(all_digits(s.subrange(15, s.len() as int)));
    assert(pow10((6 - (s.len() - 15)) as nat) == 1);
    assert((dt.micro as int) * 1 == dt.micro as int);
    assert(spec_parse_date_time(s) == Some(dt));
}

/// Encoding a well-formed timestamp and decoding it again yields the
/// same provenance and the same calendar fields.
pub proof fn lemma_date_time_round_trip(t: BidAskDateTime)
    requires
        t.wf(),
    ensures
        BidAskDateTime::spec_parse(t.chars()) == Some(t),
        t.chars().len() == 22,
        ascii_chars(t.chars()),
        forall|i: int|
            0 <= i < 22 ==> (#[trigger] t.chars()[i]) != ' ' && t.chars()[i] != '\r' && t.chars()[i]
                != '\n',
{
    let s = t.chars();
    lemma_date_time_chars_props(t.date());
    assert(s.skip(1) =~= date_time_chars(t.date()));
    assert(s[0] == t.marker());
    assert(('S' as int) == 83 && ('O' as int) == 79);
    assert(ascii_chars(s)) by {
        assert forall|i: int| 0 <= i < s.len() implies '\0' <= #[trigger] s[i] <= '\u{7f}' by {
            if i == 0 {
            } else {
                assert(s[i] == s.skip(1)[i - 1]);
                assert('\0' <= s.skip(1)[i - 1] <= '\u{7f}');
            }
        }
    }
    assert forall|i: int|
        0 <= i < 22 implies (#[trigger] s[i]) != ' ' && s[i] != '\r' && s[i] != '\n' by {
        if i == 0 {
        } else {
            assert(s[i] == s.skip(1)[i - 1]);
        }
    }
}

/// Padding the fractional part with trailing zeros, up to the six-digit
/// microsecond layout, does not change what a timestamp field decodes
/// to: a one-digit fraction stands for tenths of a second, and so on.
pub proof fn lemma_fraction_padding(s: Seq<char>, k: nat)
    requires
        16 <= s.len(),
        s.len() + k <= 21,
    ensures
        spec_parse_date_time(s + digits(0, k)) == spec_parse_date_time(s),
{
    let z = digits(0, k);
    let t = s + z;
    reveal_with_fuel(pow10, 7);
    lemma_digits_props(0, k);
    assert(t.len() == s.len() + k);
    assert(t.subrange(0, 14) =~= s.subrange(0, 14));
    assert(t[14] == s[14]);
    assert(ascii_chars(t) == ascii_chars(s)) by {
        if ascii_chars(s) {
            assert forall|i: int| 0 <= i < t.len() implies '\0' <= #[trigger] t[i] <= '\u{7f}' by {
                if i < s.len() {
                    assert(t[i] == s[i]);
                } else {
                    assert(t[i] == z[i - s.len()]);
                    assert(is_digit(z[i - s.len()]));
                }
            }
        }
        if ascii_chars(t) {
            assert forall|i: int| 0 <= i < s.len() implies '\0' <= #[trigger] s[i] <= '\u{7f}' by {
                assert(s[i] == t[i]);
            }
        }
    }
    let fs = s.subrange(15, s.len() as int);
    let ft = t.subrange(15, t.len() as int);
    assert(ft =~= fs + z);
    assert(all_digits(ft) == all_digits(fs)) by {
        if all_digits(fs) {
            assert forall|i: int| 0 <= i < ft.len() implies is_digit(#[trigger] ft[i]) by {
                if i < fs.len() {
                    assert(ft[i] == fs[i]);
                } else {
                    assert(ft[i] == z[i - fs.len()]);
                }
            }
        }
        if all_digits(ft) {
            assert forall|i: int| 0 <= i < fs.len() implies is_digit(#[trigger] fs[i]) by {
                assert(fs[i] == ft[i]);
            }
        }
    }
    assert(t.subrange(0, 4) =~= s.subrange(0, 4));
    assert(t.subrange(4, 6) =~= s.subrange(4, 6));
    assert(t.subrange(6, 8) =~= s.subrange(6, 8));
    assert(t.subrange(8, 10) =~= s.subrange(8, 10));
    assert(t.subrange(10, 12) =~= s.subrange(10, 12));
    assert(t.subrange(12, 14) =~= s.subrange(12, 14));
    if ascii_chars(s) && 16 <= s.len() <= 21 && all_digits(s.subrange(0, 14)) && s[14] == '.'
        && all_digits(fs) {
        lemma_digits_val_zeros(fs, k);
        let fl_s = s.len() - 15;
        let fl_t = t.len() - 15;
        lemma_pow10_mul(k, (6 - fl_t) as nat);
        assert(fl_t == fl_s + k);
        assert((k + 6 - fl_t) as nat == (6 - fl_s) as nat);
        assert(digits_val(ft) * pow10((6 - fl_t) as nat) == digits_val(fs) * pow10(
            (6 - fl_s) as nat,
        )) by (nonlinear_arith)
            requires
                digits_val(ft) == digits_val(fs) * pow10(k),
                pow10(k) * pow10((6 - fl_t) as nat) == pow10((k + 6 - fl_t) as nat),
                (k + 6 - fl_t) as nat == (6 - fl_s) as nat,
        ;
        assert(spec_parse_date_time(t) == spec_parse_date_time(s));
    } else {
        assert(spec_parse_date_time(t) == None::<DateTimeMicros>);
        assert(spec_parse_date_time(s) == None::<DateTimeMicros>);
    }
}

/// Appending `k` zero digits multiplies the value by the `k`th power of ten.
proof fn lemma_digits_val_zeros(f: Seq<char>, k: nat)
    ensures
        digits_val(f + digits(0, k)) == digits_val(f) * pow10(k),
    decreases k,
{
    if k == 0 {
        assert(f + digits(0, 0) =~= f);
        assert(digits_val(f) * 1 == digits_val(f));
    } else {
        lemma_digits_val_zeros(f, (k - 1) as nat);
        let prev = f + digits(0, (k - 1) as nat);
        let cur = f + digits(0, k);
        assert(digits(0, k) =~= digits(0, (k - 1) as nat) + seq![digit_char(0)]) by {
            assert(0int / 10 == 0);
            assert(0int % 10 == 0);
        }
        assert(cur.drop_last() =~= prev);
        assert(cur.last() == digit_char(0));
        assert(digit_char(0) as int == 48);
        assert(digits_val(cur) == digits_val(prev) * 10);
        assert(digits_val(f) * pow10((k - 1) as nat) * 10 == digits_val(f) * pow10(k))
            by (nonlinear_arith)
            requires
                pow10(k) == 10 * pow10((k - 1) as nat),
        ;
    }
}

} // verus!
