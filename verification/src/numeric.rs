//! Decimal numbers written as text, read the way `str::parse` reads them
//! for `u32` and `i32`: an optional sign followed by at least one ASCII
//! digit, and a value that fits the type.

use vstd::prelude::*;
use vstd::string::*;

verus! {

/// An ASCII decimal digit.
pub open spec fn is_digit(c: char) -> bool {
    '0' <= c && c <= '9'
}

/// The value of an ASCII decimal digit.
pub open spec fn digit_value(c: char) -> int {
    (c as int) - ('0' as int)
}

/// Every character of `s` is an ASCII decimal digit.
pub open spec fn all_digits(s: Seq<char>) -> bool {
    forall|i: int| 0 <= i < s.len() ==> is_digit(#[trigger] s[i])
}

/// The number that the digits of `s` spell in base ten.
pub open spec fn digits_value(s: Seq<char>) -> int
    decreases s.len(),
{
    if s.len() == 0 {
        0
    } else {
        digits_value(s.drop_last()) * 10 + digit_value(s.last())
    }
}

/// `s` without the leading `+`, when it has one.
pub open spec fn unsigned_body(s: Seq<char>) -> Seq<char> {
    if s.len() > 0 && s[0] == '+' {
        s.drop_first()
    } else {
        s
    }
}

/// A nonempty run of digits.
pub open spec fn is_numeral(d: Seq<char>) -> bool {
    d.len() > 0 && all_digits(d)
}

/// What `s.parse::<u32>()` gives back, as an `Option`.
pub open spec fn spec_parse_u32(s: Seq<char>) -> Option<u32> {
    let d = unsigned_body(s);
    if is_numeral(d) && digits_value(d) <= u32::MAX {
        Some(digits_value(d) as u32)
    } else {
        None
    }
}

/// What `s.parse::<i32>()` gives back, as an `Option`.
pub open spec fn spec_parse_i32(s: Seq<char>) -> Option<i32> {
    if s.len() > 0 && s[0] == '-' {
        let d = s.drop_first();
        if is_numeral(d) && digits_value(d) <= 0x8000_0000 {
            Some((-digits_value(d)) as i32)
        } else {
            None
        }
    } else {
        let d = unsigned_body(s);
        if is_numeral(d) && digits_value(d) <= i32::MAX {
            Some(digits_value(d) as i32)
        } else {
            None
        }
    }
}

proof fn lemma_digits_value_nonneg(s: Seq<char>)
    requires
        all_digits(s),
    ensures
        digits_value(s) >= 0,
    decreases s.len(),
{
    if s.len() > 0 {
        lemma_digits_value_nonneg(s.drop_last());
    }
}

/// Reads `s` from position `start` to its end as a numeral; the value is
/// given back capped at `cap`.
fn capped_numeral(s: &str, start: usize, cap: u64) -> (res: Option<u64>)
    requires
        start <= s@.len(),
        cap <= 0x1_0000_0000,
    ensures
        res is Some <==> is_numeral(s@.subrange(start as int, s@.len() as int)),
        res matches Some(v) ==> v == if digits_value(s@.subrange(start as int, s@.len() as int))
            >= cap {
            cap as int
        } else {
            digits_value(s@.subrange(start as int, s@.len() as int))
        },
{
    let n = s.unicode_len();
    if start >= n {
        return None;
    }
    let mut acc: u64 = 0;
    let mut i: usize = start;
    while i < n
        invariant
            start <= i <= n,
            n == s@.len(),
            cap <= 0x1_0000_0000,
            all_digits(s@.subrange(start as int, i as int)),
            acc == if digits_value(s@.subrange(start as int, i as int)) >= cap {
                cap as int
            } else {
                digits_value(s@.subrange(start as int, i as int))
            },
        decreases n - i,
    {
        let c = s.get_char(i);
        let ghost prev = s@.subrange(start as int, i as int);
        let ghost next = s@.subrange(start as int, i + 1);
        if !('0' <= c && c <= '9') {
            assert(s@.subrange(start as int, s@.len() as int)[i - start] == c);
            return None;
        }
        assert(next.drop_last() =~= prev);
        assert(next.last() == c);
        assert(all_digits(next));
        proof {
            lemma_digits_value_nonneg(prev);
        }
        let d: u64 = (c as u64) - ('0' as u64);
        if acc < cap {
            let t: u64 = acc * 10 + d;
            if t > cap {
                acc = cap;
            } else {
                acc = t;
            }
        }
        i = i + 1;
    }
    assert(s@.subrange(start as int, s@.len() as int) =~= s@.subrange(start as int, i as int));
    Some(acc)
}

/// Parses a `u32` as `str::parse::<u32>` does: an optional `+`, then one or
/// more ASCII digits whose value fits in a `u32`; anything else is `None`.
pub fn parse_u32(s: &str) -> (res: Option<u32>)
    ensures
        res == spec_parse_u32(s@),
{
    let n = s.unicode_len();
    let start: usize = if n > 0 && s.get_char(0) == '+' {
        1
    } else {
        0
    };
    assert(unsigned_body(s@) =~= s@.subrange(start as int, s@.len() as int));
    match capped_numeral(s, start, 0x1_0000_0000) {
        Some(v) => {
            if v <= 0xffff_ffff {
                Some(v as u32)
            } else {
                None
            }
        },
        None => None,
    }
}

/// Parses an `i32` as `str::parse::<i32>` does: an optional `+` or `-`,
/// then one or more ASCII digits whose signed value fits in an `i32`;
/// anything else is `None`.
pub fn parse_i32(s: &str) -> (res: Option<i32>)
    ensures
        res == spec_parse_i32(s@),
{
    let n = s.unicode_len();
    if n > 0 && s.get_char(0) == '-' {
        assert(s@.drop_first() =~= s@.subrange(1, s@.len() as int));
        match capped_numeral(s, 1, 0x8000_0001) {
            Some(v) => {
                if v <= 0x8000_0000 {
                    let w: i64 = v as i64;
                    Some((-w) as i32)
                } else {
                    None
                }
            },
            None => None,
        }
    } else {
        let start: usize = if n > 0 && s.get_char(0) == '+' {
            1
        } else {
            0
        };
        assert(unsigned_body(s@) =~= s@.subrange(start as int, s@.len() as int));
        match capped_numeral(s, start, 0x8000_0000) {
            Some(v) => {
                if v <= 0x7fff_ffff {
                    Some(v as i32)
                } else {
                    None
                }
            },
            None => None,
        }
    }
}

/// A single ASCII digit reads as its value, as a `u32` and as an `i32`.
pub proof fn lemma_parse_single_digit(c: char)
    requires
        '0' <= c <= '9',
    ensures
        spec_parse_u32(seq![c]) == Some(((c as int) - 48) as u32),
        spec_parse_i32(seq![c]) == Some(((c as int) - 48) as i32),
{
    assert(seq![c].drop_last() =~= Seq::<char>::empty());
    assert(seq![c].last() == c);
    assert(all_digits(seq![c]));
    assert(digits_value(Seq::<char>::empty()) == 0);
    assert(('0' as int) == 48);
    assert(unsigned_body(seq![c]) == seq![c]);
}

/// Writing one more digit after a numeral multiplies its value by ten and
/// adds the digit, while the value fits.
pub proof fn lemma_parse_u32_append_digit(s: Seq<char>, c: char, v: u32)
    requires
        spec_parse_u32(s) == Some(v),
        s[0] != '+',
        '0' <= c <= '9',
        10 * v + ((c as int) - 48) <= u32::MAX,
    ensures
        spec_parse_u32(s.push(c)) == Some((10 * v + ((c as int) - 48)) as u32),
{
    assert(s.len() > 0);
    assert(unsigned_body(s) == s);
    lemma_digits_value_nonneg(s);
    assert(digits_value(s) == v);
    assert(s.push(c).drop_last() =~= s);
    assert(s.push(c)[0] == s[0]);
    assert(unsigned_body(s.push(c)) == s.push(c));
    assert(('0' as int) == 48);
    assert(digits_value(s.push(c)) == digits_value(s) * 10 + digit_value(c));
    assert(all_digits(s.push(c))) by {
        assert forall|i: int| 0 <= i < s.push(c).len() implies is_digit(#[trigger] s.push(c)[i]) by {
            if i < s.len() {
                assert(s.push(c)[i] == s[i]);
            }
        }
    }
}

/// A numeral without a value past `u32::MAX` becomes too large with one
/// more digit only where the digit takes it past: a value past `u32::MAX`
/// is no `u32`.
pub proof fn lemma_parse_u32_too_large(s: Seq<char>, c: char, v: u32)
    requires
        spec_parse_u32(s) == Some(v),
        s[0] != '+',
        '0' <= c <= '9',
        10 * v + ((c as int) - 48) > u32::MAX,
    ensures
        spec_parse_u32(s.push(c)) is None,
{
    assert(s.len() > 0);
    assert(unsigned_body(s) == s);
    lemma_digits_value_nonneg(s);
    assert(digits_value(s) == v);
    assert(s.push(c).drop_last() =~= s);
    assert(s.push(c)[0] == s[0]);
    assert(unsigned_body(s.push(c)) == s.push(c));
    assert(('0' as int) == 48);
    assert(digits_value(s.push(c)) == digits_value(s) * 10 + digit_value(c));
}

/// A leading `+` changes nothing, and anything with a character that is
/// not a digit (after the sign) is no `u32`.
pub proof fn lemma_parse_u32_sign_and_junk(s: Seq<char>, i: int)
    ensures
        s.len() > 0 && s[0] != '+' ==> spec_parse_u32(seq!['+'] + s) == spec_parse_u32(s),
        (1 <= i < s.len() || (0 <= i < s.len() && s[0] != '+')) && !('0' <= s[i] <= '9')
            ==> spec_parse_u32(s) is None,
        spec_parse_u32(Seq::empty()) is None,
        spec_parse_u32(seq!['+']) is None,
{
    assert((seq!['+'] + s).drop_first() =~= s);
    if 1 <= i < s.len() && s[0] == '+' {
        assert(s.drop_first()[i - 1] == s[i]);
    }
    assert(seq!['+'].drop_first() =~= Seq::<char>::empty());
}

/// Signed numbers: without a sign, or with `+`, an `i32` reads as the
/// `u32` of the same text where that fits; with `-`, as its negation, down
/// to `-2147483648`.
pub proof fn lemma_parse_i32_from_u32(s: Seq<char>, v: u32)
    requires
        spec_parse_u32(s) == Some(v),
    ensures
        v <= i32::MAX ==> spec_parse_i32(s) == Some(v as i32),
        v > i32::MAX ==> spec_parse_i32(s) is None,
        s[0] != '+' && v <= 0x8000_0000 ==> spec_parse_i32(seq!['-'] + s) == Some((-(v as int)) as i32),
        s[0] != '+' && v > 0x8000_0000 ==> spec_parse_i32(seq!['-'] + s) is None,
{
    assert((seq!['-'] + s).drop_first() =~= s);
    assert((seq!['-'] + s)[0] == '-');
    assert(s.len() > 0);
    lemma_digits_value_nonneg(unsigned_body(s));
    assert(digits_value(unsigned_body(s)) == v);
    if s[0] != '+' {
        assert(unsigned_body(s) == s);
        assert(is_digit(unsigned_body(s)[0]));
    }
    assert(s[0] != '-');
}

} // verus!
