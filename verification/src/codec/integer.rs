//! Decimal integers with a sign.

use vstd::prelude::*;

use crate::segment;
use crate::text;

verus! {

/// The value of a run of decimal digits.
pub open spec fn digits_value(s: Seq<char>) -> nat
    decreases s.len(),
{
    if s.len() == 0 {
        0
    } else {
        digits_value(s.drop_last()) * 10 + (s.last() as u32 - '0' as u32) as nat
    }
}

pub open spec fn all_digits(s: Seq<char>) -> bool {
    s.len() > 0 && forall|i: int| 0 <= i < s.len() ==> text::digit(#[trigger] s[i])
}

/// The integer that a text denotes: digits after an optional sign.
pub open spec fn integer_value(s: Seq<char>) -> Option<int> {
    if all_digits(s) {
        Some(digits_value(s) as int)
    } else if s.len() > 0 && s[0] == '+' && all_digits(s.skip(1)) {
        Some(digits_value(s.skip(1)) as int)
    } else if s.len() > 0 && s[0] == '-' && all_digits(s.skip(1)) {
        Some(-(digits_value(s.skip(1)) as int))
    } else {
        None
    }
}

/// The text of an integer.
pub open spec fn integer_text(n: int) -> Seq<char> {
    if n < 0 {
        seq!['-'] + segment::decimal((-n) as nat)
    } else {
        segment::decimal(n as nat)
    }
}

/// The digits of a natural number denote it.
pub proof fn lemma_decimal(n: nat)
    ensures
        all_digits(segment::decimal(n)),
        digits_value(segment::decimal(n)) == n,
        integer_value(segment::decimal(n)) == Some(n as int),
        forall|max: int| n <= max ==> #[trigger] unsigned_value(segment::decimal(n), max) == Some(n as int),
    decreases n,
{
    let s = segment::decimal(n);
    let c = (('0' as u32) + n % 10) as char;
    assert(text::digit(c) && (c as u32 - '0' as u32) == n % 10);
    if n < 10 {
        assert(s.drop_last() =~= Seq::<char>::empty());
        reveal_with_fuel(digits_value, 2);
    } else {
        lemma_decimal(n / 10);
        assert(s.drop_last() =~= segment::decimal(n / 10));
    }
    assert(text::digit(s[0]));
}

/// Why a text denotes no 64-bit integer.
pub uninterp spec fn integer_reason(s: Seq<char>) -> Seq<char>;

pub open spec fn signed_64(s: Seq<char>) -> Option<int> {
    match integer_value(s) {
        Some(n) => if i64::MIN <= n <= i64::MAX {
            Some(n)
        } else {
            None
        },
        None => None,
    }
}

/// `str::parse::<i64>`: an optional sign and at least one decimal digit, with a
/// value in range.
#[verifier::external_body]
pub(crate) fn parse_i64(s: &str) -> (r: Result<i64, String>)
    ensures
        match r {
            Ok(n) => signed_64(s@) == Some(n as int),
            Err(reason) => signed_64(s@) is None && reason@ == integer_reason(s@),
        },
{
    s.parse::<i64>().map_err(|error| error.to_string())
}

/// The natural number that a text denotes, where it fits into 64 bits. A negative
/// zero counts as zero.
fn parse_u64(s: &str) -> (r: Option<u64>)
    ensures
        match r {
            Some(n) => integer_value(s@) == Some(n as int),
            None => match integer_value(s@) {
                Some(n) => n < 0 || n > u64::MAX,
                None => true,
            },
        },
{
    let chars = text::chars_of(s);
    let signed: bool = chars.len() > 0 && (chars[0] == '+' || chars[0] == '-');
    let from: usize = if signed {
        1
    } else {
        0
    };
    let ghost digits = chars@.skip(from as int);
    assert(chars@.skip(0) =~= chars@);
    proof {
        if signed {
            assert(!text::digit(chars@[0]));
        }
    }
    if from >= chars.len() {
        return None;
    }
    let mut value: u64 = 0;
    let mut over: bool = false;
    let mut i: usize = from;
    assert(digits.take(0) =~= Seq::<char>::empty());
    while i < chars.len()
        invariant
            from <= i <= chars@.len(),
            digits == chars@.skip(from as int),
            forall|j: int| 0 <= j < i - from ==> text::digit(#[trigger] digits[j]),
            over ==> digits_value(digits.take(i - from)) > u64::MAX,
            !over ==> value == digits_value(digits.take(i - from)),
            signed == (chars@.len() > 0 && (chars@[0] == '+' || chars@[0] == '-')),
            from == if signed { 1int } else { 0int },
            chars@ == s@,
            signed ==> !text::digit(chars@[0]),
        decreases chars@.len() - i,
    {
        let c = chars[i];
        assert(digits[i - from] == c);
        if !text::is_digit(c) {
            assert(!all_digits(digits));
            assert(!signed ==> digits =~= s@);
            return None;
        }
        let d: u64 = (c as u32 - 48) as u64;
        assert(digits.take(i + 1 - from).drop_last() =~= digits.take(i - from));
        assert(digits.take(i + 1 - from).last() == c);
        if !over {
            if value > (u64::MAX - d) / 10 {
                over = true;
            } else {
                value = value * 10 + d;
            }
        }
        i = i + 1;
    }
    assert(digits.take(i - from) =~= digits);
    assert(all_digits(digits));
    assert(!signed ==> digits =~= s@);
    if over {
        return None;
    }
    if chars[0] == '-' && value > 0 {
        return None;
    }
    Some(value)
}

/// The natural number up to a bound that a text denotes: digits after an optional
/// plus sign.
pub open spec fn unsigned_value(s: Seq<char>, max: int) -> Option<int> {
    if s.len() > 0 && s[0] == '-' {
        None
    } else {
        match integer_value(s) {
            Some(n) => if n <= max {
                Some(n)
            } else {
                None
            },
            None => None,
        }
    }
}

pub fn parse_unsigned(s: &str, max: u64) -> (r: Option<u64>)
    ensures
        match r {
            Some(n) => unsigned_value(s@, max as int) == Some(n as int) && n <= max,
            None => unsigned_value(s@, max as int) is None,
        },
{
    let chars = text::chars_of(s);
    if chars.len() > 0 && chars[0] == '-' {
        return None;
    }
    proof {
        if s@.len() > 0 && s@[0] == '+' {
            assert(!text::digit(s@[0]));
        }
    }
    match parse_u64(s) {
        Some(n) => if n <= max {
            Some(n)
        } else {
            None
        },
        None => None,
    }
}

} // verus!
