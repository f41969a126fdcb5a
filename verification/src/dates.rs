use vstd::prelude::*;
use vstd::utf8::encode_utf8;

use chrono::TimeZone;

verus! {

/// A decimal digit byte.
pub open spec fn is_digit_byte(b: u8) -> bool {
    0x30 <= b <= 0x39
}

/// The number a sequence of digit bytes denotes, most significant first.
pub open spec fn digits_val(s: Seq<u8>) -> nat
    decreases s.len(),
{
    if s.len() == 0 {
        0
    } else {
        digits_val(s.drop_last()) * 10 + (s.last() - 0x30) as nat
    }
}

/// A nonempty run of digit bytes and nothing else.
pub open spec fn all_digits(s: Seq<u8>) -> bool {
    forall|k: int| 0 <= k < s.len() ==> is_digit_byte(#[trigger] s[k])
}

/// The value of one date component: an optional leading `+`, then at least
/// one digit and nothing else; anything else has no value.
pub open spec fn field_val(part: Seq<u8>) -> Option<nat> {
    let digits = if part.len() > 0 && part[0] == 0x2bu8 {
        part.drop_first()
    } else {
        part
    };
    if digits.len() > 0 && all_digits(digits) {
        Some(digits_val(digits))
    } else {
        None
    }
}

/// Whether `i` and `j` are the positions of the exactly two `-` separators
/// that cut `s` into three components.
pub open spec fn splits_at(s: Seq<u8>, i: int, j: int) -> bool {
    &&& 0 <= i < j < s.len()
    &&& forall|k: int| 0 <= k < s.len() ==> ((#[trigger] s[k]) == 0x2du8 <==> (k == i || k == j))
}

/// One trailing line feed is tolerated and stripped.
pub open spec fn strip_nl(s: Seq<u8>) -> Seq<u8> {
    if s.len() > 0 && s.last() == 0x0au8 {
        s.drop_last()
    } else {
        s
    }
}

/// The year, month and day components of a date string: present exactly when
/// the string has three `-`-separated components, each a number that fits its
/// machine type. Calendar validity is not judged here.
pub open spec fn date_fields(s: Seq<u8>) -> Option<(int, int, int)> {
    if exists|i: int, j: int| splits_at(s, i, j) {
        let (i, j) = choose|i: int, j: int| splits_at(s, i, j);
        let y = field_val(s.subrange(0, i));
        let m = field_val(s.subrange(i + 1, j));
        let d = field_val(s.subrange(j + 1, s.len() as int));
        match (y, m, d) {
            (Some(yv), Some(mv), Some(dv)) => if yv <= i32::MAX && mv <= u32::MAX && dv
                <= u32::MAX {
                Some((yv as int, mv as int, dv as int))
            } else {
                None
            },
            _ => None,
        }
    } else {
        None
    }
}

/// A year of the proleptic Gregorian calendar with a 29-day February.
pub open spec fn is_leap_year(y: int) -> bool {
    (y % 4 == 0 && y % 100 != 0) || y % 400 == 0
}

/// Days in the given month of the given year.
pub open spec fn days_in_month(y: int, m: int) -> int {
    if m == 2 {
        if is_leap_year(y) {
            29
        } else {
            28
        }
    } else if m == 4 || m == 6 || m == 9 || m == 11 {
        30
    } else {
        31
    }
}

/// A real calendar date of the proleptic Gregorian calendar.
pub open spec fn valid_date(y: int, m: int, d: int) -> bool {
    1 <= m <= 12 && 1 <= d <= days_in_month(y, m)
}

/// Relies on chrono's `TimeZone::with_ymd_and_hms` on `Local`, with
/// `LocalResult::single`: a unique local midnight exists only for a real
/// calendar date (within chrono's year range and outside local-time gaps),
/// and a month or day that is no real calendar date always yields `None`.
/// The returned value is the naive local date-time in seconds.
#[verifier::external_body]
fn local_midnight(y: i32, m: u32, d: u32) -> (r: Option<i64>)
    ensures
        r is Some ==> valid_date(y as int, m as int, d as int),
        !valid_date(y as int, m as int, d as int) ==> r is None,
{
    match chrono::Local.with_ymd_and_hms(y, m, d, 0, 0, 0).single() {
        Some(t) => Some(t.naive_local().and_utc().timestamp()),
        None => None,
    }
}

/// Every prefix of a digit string denotes at most the whole string's value.
pub proof fn lemma_digits_prefix_le(s: Seq<u8>, k: int)
    requires
        0 <= k <= s.len(),
    ensures
        digits_val(s.take(k)) <= digits_val(s),
    decreases s.len(),
{
    if k < s.len() {
        assert(s.take(k) =~= s.drop_last().take(k));
        lemma_digits_prefix_le(s.drop_last(), k);
    } else {
        assert(s.take(k) =~= s);
    }
}

/// The two separator positions of a split are unique.
proof fn lemma_splits_unique(s: Seq<u8>, i1: int, j1: int, i2: int, j2: int)
    requires
        splits_at(s, i1, j1),
        splits_at(s, i2, j2),
    ensures
        i1 == i2 && j1 == j2,
{
    assert(s[i1] == 0x2du8);
    assert(s[j1] == 0x2du8);
    assert(s[i2] == 0x2du8);
    assert(s[j2] == 0x2du8);
}

/// Parse one date component as a number of at most `max`.
#[verifier::loop_isolation(false)]
fn parse_field(bytes: &[u8], from: usize, to: usize, max: u64) -> (r: Option<u64>)
    requires
        from <= to <= bytes@.len(),
        max <= u32::MAX as u64,
    ensures
        ({
            let part = bytes@.subrange(from as int, to as int);
            &&& (r is Some <==> field_val(part) is Some && field_val(part)->0 <= max as nat)
            &&& (r matches Some(v) ==> field_val(part) == Some(v as nat))
        }),
{
    let ghost part = bytes@.subrange(from as int, to as int);
    let mut i: usize = from;
    if i < to && bytes[i] == 0x2b {
        i = i + 1;
    }
    let ghost start = i as int;
    let ghost digits = bytes@.subrange(start, to as int);
    proof {
        if part.len() > 0 && part[0] == 0x2bu8 {
            assert(digits =~= part.drop_first());
        } else {
            assert(digits =~= part);
        }
    }
    if i >= to {
        return None;
    }
    let mut acc: u64 = 0;
    while i < to
        invariant
            start <= i <= to,
            acc == digits_val(bytes@.subrange(start, i as int)),
            acc <= max,
            forall|k: int| start <= k < i ==> is_digit_byte(#[trigger] bytes@[k]),
        decreases to - i,
    {
        let b = bytes[i];
        if !(0x30 <= b && b <= 0x39) {
            proof {
                assert(!is_digit_byte(digits[i - start]));
                assert(!all_digits(digits));
            }
            return None;
        }
        let acc2 = acc * 10 + ((b - 0x30) as u64);
        proof {
            assert(bytes@.subrange(start, i + 1).drop_last() =~= bytes@.subrange(start, i as int));
            assert(bytes@.subrange(start, i + 1).last() == bytes@[i as int]);
        }
        if acc2 > max {
            proof {
                if all_digits(digits) {
                    assert(digits.take(i + 1 - start) =~= bytes@.subrange(start, i + 1));
                    lemma_digits_prefix_le(digits, i + 1 - start);
                }
            }
            return None;
        }
        acc = acc2;
        i = i + 1;
    }
    proof {
        assert forall|k: int| 0 <= k < digits.len() implies is_digit_byte(#[trigger] digits[k]) by {
            assert(digits[k] == bytes@[start + k]);
        }
        assert(all_digits(digits));
    }
    Some(acc)
}

/// Split the first `n` bytes into the three date components and their values.
#[verifier::loop_isolation(false)]
fn parse_date_fields(bytes: &[u8], n: usize) -> (r: Option<(i32, u32, u32)>)
    requires
        n <= bytes@.len(),
    ensures
        ({
            let s = bytes@.subrange(0, n as int);
            &&& (r is Some <==> date_fields(s) is Some)
            &&& (r matches Some((y, m, d)) ==> date_fields(s) == Some(
                (y as int, m as int, d as int),
            ))
        }),
{
    let ghost s = bytes@.subrange(0, n as int);
    let mut i: usize = 0;
    let mut d1: usize = 0;
    let mut found1 = false;
    let mut d2: usize = 0;
    let mut found2 = false;
    while i < n
        invariant
            i <= n,
            !found1 ==> !found2 && (forall|k: int| 0 <= k < i ==> s[k] != 0x2du8),
            found1 ==> d1 < i && s[d1 as int] == 0x2du8 && (forall|k: int|
                0 <= k < d1 ==> s[k] != 0x2du8),
            found1 && !found2 ==> forall|k: int| d1 < k < i ==> s[k] != 0x2du8,
            found2 ==> found1 && d1 < d2 < i && s[d2 as int] == 0x2du8 && (forall|k: int|
                d1 < k < d2 ==> s[k] != 0x2du8) && (forall|k: int| d2 < k < i ==> s[k] != 0x2du8),
        decreases n - i,
    {
        if bytes[i] == 0x2d {
            if !found1 {
                d1 = i;
                found1 = true;
            } else if !found2 {
                d2 = i;
                found2 = true;
            } else {
                proof {
                    assert forall|a: int, b: int| !splits_at(s, a, b) by {
                        if splits_at(s, a, b) {
                            assert(s[d1 as int] == 0x2du8);
                            assert(s[d2 as int] == 0x2du8);
                            assert(s[i as int] == 0x2du8);
                        }
                    }
                }
                return None;
            }
        }
        i = i + 1;
    }
    if !found2 {
        proof {
            assert forall|a: int, b: int| !splits_at(s, a, b) by {
                if splits_at(s, a, b) {
                    assert(s[a] == 0x2du8);
                    assert(s[b] == 0x2du8);
                }
            }
        }
        return None;
    }
    proof {
        assert(splits_at(s, d1 as int, d2 as int));
    }
    let ghost ij = choose|a: int, b: int| splits_at(s, a, b);
    proof {
        lemma_splits_unique(s, ij.0, ij.1, d1 as int, d2 as int);
        assert(bytes@.subrange(0, d1 as int) =~= s.subrange(0, d1 as int));
        assert(bytes@.subrange(d1 + 1, d2 as int) =~= s.subrange(d1 + 1, d2 as int));
        assert(bytes@.subrange(d2 + 1, n as int) =~= s.subrange(d2 + 1, s.len() as int));
    }
    let y = match parse_field(bytes, 0, d1, 2147483647u64) {
        Some(v) => v,
        None => {
            return None;
        },
    };
    let m = match parse_field(bytes, d1 + 1, d2, 4294967295u64) {
        Some(v) => v,
        None => {
            return None;
        },
    };
    let d = match parse_field(bytes, d2 + 1, n, 4294967295u64) {
        Some(v) => v,
        None => {
            return None;
        },
    };
    Some((y as i32, m as u32, d as u32))
}

/// Parse a `YYYY-MM-DD` deadline into the local midnight of that date, in
/// seconds. A trailing line feed is tolerated. Absent — never an error —
/// when the component count or a component is malformed, or when the
/// components name no real calendar date.
pub fn parse_deadline(deadline_raw: String) -> (r: Option<i64>)
    ensures
        ({
            let s = strip_nl(encode_utf8(deadline_raw@));
            &&& date_fields(s) is None ==> r is None
            &&& (date_fields(s) matches Some((y, m, d)) ==> {
                &&& (r is Some ==> valid_date(y, m, d))
                &&& (!valid_date(y, m, d) ==> r is None)
            })
        }),
{
    let bytes = deadline_raw.as_str().as_bytes();
    let len = bytes.len();
    let n = if len > 0 && bytes[len - 1] == 0x0a {
        len - 1
    } else {
        len
    };
    proof {
        assert(bytes@.subrange(0, n as int) =~= strip_nl(encode_utf8(deadline_raw@)));
    }
    match parse_date_fields(bytes, n) {
        Some((y, m, d)) => local_midnight(y, m, d),
        None => None,
    }
}

} // verus!
