//! Decimal integer literals, read the way Rust's `FromStr` for the integer
//! types reads them: an optional `+` or `-`, then one or more ASCII digits,
//! and a value that fits the target type.
use vstd::prelude::*;

verus! {

pub open spec fn is_digit(c: char) -> bool {
    '0' <= c && c <= '9'
}

pub open spec fn all_digits(s: Seq<char>) -> bool {
    s.len() > 0 && forall|i: int| 0 <= i < s.len() ==> is_digit(#[trigger] s[i])
}

/// The number that a string of decimal digits denotes.
pub open spec fn digits_value(s: Seq<char>) -> int
    decreases s.len(),
{
    if s.len() == 0 {
        0
    } else {
        digits_value(s.drop_last()) * 10 + (s.last() as int - '0' as int)
    }
}

/// The value of a literal: a sign of `+` or `-` is optional, at least one
/// digit is not.
pub open spec fn literal_value(s: Seq<char>) -> Option<int> {
    if s.len() > 0 && (s[0] == '-' || s[0] == '+') {
        if all_digits(s.drop_first()) {
            if s[0] == '-' {
                Some(-digits_value(s.drop_first()))
            } else {
                Some(digits_value(s.drop_first()))
            }
        } else {
            None
        }
    } else if all_digits(s) {
        Some(digits_value(s))
    } else {
        None
    }
}

/// The value of a literal if it lies within `min..=max`.
pub open spec fn literal_within(s: Seq<char>, min: int, max: int) -> Option<int> {
    match literal_value(s) {
        Some(v) => if min <= v <= max {
            Some(v)
        } else {
            None
        },
        None => None,
    }
}

/// The value of a literal of type `i32`.
pub open spec fn i32_literal(s: Seq<char>) -> Option<int> {
    literal_within(s, i32::MIN as int, i32::MAX as int)
}

/// The value of a literal of type `i64`.
pub open spec fn i64_literal(s: Seq<char>) -> Option<int> {
    literal_within(s, i64::MIN as int, i64::MAX as int)
}

proof fn lemma_digits_grow(s: Seq<char>)
    requires
        forall|i: int| 0 <= i < s.len() ==> is_digit(#[trigger] s[i]),
    ensures
        digits_value(s) >= 0,
        s.len() > 0 ==> digits_value(s) >= digits_value(s.drop_last()),
    decreases s.len(),
{
    if s.len() > 0 {
        let t = s.drop_last();
        assert forall|i: int| 0 <= i < t.len() implies is_digit(#[trigger] t[i]) by {
            assert(t[i] == s[i]);
        }
        lemma_digits_grow(t);
    }
}

/// Reads `s[lo..hi]` as a literal within `min..=max`.
pub fn parse_literal(s: &Vec<char>, lo: usize, hi: usize, min: i64, max: i64) -> (r: Option<i64>)
    requires
        lo <= hi <= s@.len(),
    ensures
        r matches Some(v) ==> literal_within(s@.subrange(lo as int, hi as int), min as int, max as int)
            == Some(v as int),
        r is None ==> literal_within(s@.subrange(lo as int, hi as int), min as int, max as int)
            is None,
{
    let ghost t = s@.subrange(lo as int, hi as int);
    if lo == hi {
        return None;
    }
    let negative = s[lo] == '-';
    let start: usize = if s[lo] == '-' || s[lo] == '+' {
        lo + 1
    } else {
        lo
    };
    if start == hi {
        return None;
    }
    let ghost body = s@.subrange(start as int, hi as int);
    assert(start > lo ==> body =~= t.drop_first());
    assert(start == lo ==> body =~= t);
    let mut acc: u64 = 0;
    let mut big = false;
    let mut i: usize = start;
    assert(s@.subrange(start as int, start as int) =~= seq![]);
    while i < hi
        invariant
            lo <= start <= i <= hi <= s@.len(),
            t == s@.subrange(lo as int, hi as int),
            body == s@.subrange(start as int, hi as int),
            start > lo ==> body == t.drop_first() && (t[0] == '-' || t[0] == '+'),
            start == lo ==> body == t && !(t[0] == '-' || t[0] == '+'),
            negative == (t[0] == '-'),
            t.len() > 0,
            forall|j: int| start <= j < i ==> is_digit(#[trigger] s@[j]),
            !big ==> acc == digits_value(s@.subrange(start as int, i as int)),
            !big ==> acc <= 0x8000_0000_0000_0000u64,
            big ==> digits_value(s@.subrange(start as int, i as int)) > 0x8000_0000_0000_0000,
        decreases hi - i,
    {
        let c = s[i];
        if !('0' <= c && c <= '9') {
            assert(body[i - start] == s@[i as int]);
            assert(!is_digit(body[i - start]));
            return None;
        }
        let d = (c as u32 - '0' as u32) as u64;
        let ghost prev = s@.subrange(start as int, i as int);
        let ghost next = s@.subrange(start as int, i + 1);
        assert(next.drop_last() =~= prev);
        assert(next.last() == c);
        assert forall|j: int| 0 <= j < next.len() implies is_digit(#[trigger] next[j]) by {
            assert(next[j] == s@[start + j]);
        }
        proof {
            lemma_digits_grow(next);
        }
        if !big {
            if acc < 922_337_203_685_477_580u64 || (acc == 922_337_203_685_477_580u64 && d <= 8) {
                acc = acc * 10 + d;
            } else {
                big = true;
            }
        }
        i = i + 1;
    }
    assert(s@.subrange(start as int, hi as int) == body);
    assert(all_digits(body)) by {
        assert forall|j: int| 0 <= j < body.len() implies is_digit(#[trigger] body[j]) by {
            assert(body[j] == s@[start + j]);
        }
    }
    if big {
        return None;
    }
    if negative {
        if acc == 0x8000_0000_0000_0000u64 {
            if min == i64::MIN {
                Some(i64::MIN)
            } else {
                None
            }
        } else {
            let v = -(acc as i64);
            if min <= v && v <= max {
                Some(v)
            } else {
                None
            }
        }
    } else {
        if acc == 0x8000_0000_0000_0000u64 {
            None
        } else {
            let v = acc as i64;
            if min <= v && v <= max {
                Some(v)
            } else {
                None
            }
        }
    }
}

} // verus!
