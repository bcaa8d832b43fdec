//! Duration parsing: turning text such as `"1h 30m 15s"` into a number
//! of seconds.
//!
//! The accepted form, stated over the text's bytes: parts separated by
//! ASCII whitespace, each part an optional `+`, then one or more decimal
//! digits, then a unit — `h` for hours, `m` for minutes, `s` for seconds.
//! The parts' values are summed; an empty text is zero seconds. Text of
//! any other shape is rejected, as is a total that overflows 64 bits.

use vstd::prelude::*;
use vstd::string::StringSliceAdditionalSpecFns;
use crate::error::RemError;

verus! {

/// ASCII whitespace: space, tab, line feed, vertical tab, form feed,
/// carriage return.
pub open spec fn is_space(b: u8) -> bool {
    b == 32 || (9 <= b && b <= 13)
}

/// An ASCII decimal digit.
pub open spec fn is_digit(b: u8) -> bool {
    48 <= b && b <= 57
}

/// The seconds one unit letter stands for.
pub open spec fn unit_factor(b: u8) -> Option<u64> {
    if b == 104 {  // 'h'
        Some(3600)
    } else if b == 109 {  // 'm'
        Some(60)
    } else if b == 115 {  // 's'
        Some(1)
    } else {
        None
    }
}

/// The number a string of decimal digits denotes.
pub open spec fn digits_val(ds: Seq<u8>) -> int
    decreases ds.len(),
{
    if ds.len() == 0 {
        0
    } else {
        digits_val(ds.drop_last()) * 10 + (ds.last() - 48)
    }
}

pub open spec fn all_digits(ds: Seq<u8>) -> bool {
    forall|i: int| 0 <= i < ds.len() ==> is_digit(#[trigger] ds[i])
}

/// The digits of a part's number: everything before the unit letter,
/// minus at most one leading `+` sign.
pub open spec fn digits_part(s: Seq<u8>) -> Seq<u8> {
    if s.len() > 0 && s[0] == 43 {  // '+'
        s.drop_first()
    } else {
        s
    }
}

/// The seconds one whitespace-free part denotes, or nothing if the part
/// is malformed or its value does not fit in 64 bits.
pub open spec fn token_secs(t: Seq<u8>) -> Option<u64> {
    if t.len() == 0 {
        None
    } else {
        let ds = digits_part(t.drop_last());
        match unit_factor(t.last()) {
            None => None,
            Some(f) => if ds.len() == 0 || !all_digits(ds) {
                None
            } else if digits_val(ds) > u64::MAX {
                None
            } else if digits_val(ds) * f > u64::MAX {
                None
            } else {
                Some((digits_val(ds) * f) as u64)
            },
        }
    }
}

/// The position of the first whitespace byte at or after `i`, or the end
/// of the text: where the part starting at `i` stops.
pub open spec fn token_end(s: Seq<u8>, i: int) -> int
    decreases s.len() - i,
{
    if i < 0 || i >= s.len() {
        i
    } else if is_space(s[i]) {
        i
    } else {
        token_end(s, i + 1)
    }
}

proof fn lemma_token_end(s: Seq<u8>, i: int)
    requires
        0 <= i <= s.len(),
    ensures
        i <= token_end(s, i) <= s.len(),
        forall|j: int| i <= j < token_end(s, i) ==> !is_space(#[trigger] s[j]),
        token_end(s, i) == s.len() || is_space(s[token_end(s, i)]),
        i < s.len() && !is_space(s[i]) ==> token_end(s, i) > i,
    decreases s.len() - i,
{
    if i < s.len() && !is_space(s[i]) {
        lemma_token_end(s, i + 1);
    }
}

/// The total seconds of the text from position `i` on, starting from the
/// subtotal `acc`, or nothing on a malformed part or 64-bit overflow.
pub open spec fn seconds_from(s: Seq<u8>, i: int, acc: u64) -> Option<u64>
    decreases s.len() - i,
        when 0 <= i <= s.len()
        via seconds_from_dec
{
    if i >= s.len() {
        Some(acc)
    } else if is_space(s[i]) {
        seconds_from(s, i + 1, acc)
    } else {
        let j = token_end(s, i);
        match token_secs(s.subrange(i, j)) {
            None => None,
            Some(v) => if acc + v > u64::MAX {
                None
            } else {
                seconds_from(s, j, (acc + v) as u64)
            },
        }
    }
}

#[via_fn]
proof fn seconds_from_dec(s: Seq<u8>, i: int, acc: u64) {
    if 0 <= i && i < s.len() && !is_space(s[i]) {
        lemma_token_end(s, i);
    }
}

/// The total seconds a whole text denotes, or nothing if it is rejected.
pub open spec fn parse_seconds(s: Seq<u8>) -> Option<u64> {
    seconds_from(s, 0, 0)
}

fn is_space_exec(b: u8) -> (r: bool)
    ensures
        r == is_space(b),
{
    b == 32 || (9 <= b && b <= 13)
}

#[verifier::loop_isolation(false)]
fn token_secs_exec(b: &[u8], start: usize, end: usize) -> (r: Option<u64>)
    requires
        start < end <= b@.len(),
    ensures
        r == token_secs(b@.subrange(start as int, end as int)),
{
    let ghost t = b@.subrange(start as int, end as int);
    let factor: u64 = if b[end - 1] == 104 {
        3600
    } else if b[end - 1] == 109 {
        60
    } else if b[end - 1] == 115 {
        1
    } else {
        proof {
            assert(t.last() == b@[end - 1]);
        }
        return None;
    };
    proof {
        assert(t.last() == b@[end - 1]);
        assert(unit_factor(t.last()) == Some(factor));
    }
    let mut k = start;
    if b[k] == 43 && end - start >= 2 {
        k = k + 1;
    }
    let ghost ds = digits_part(t.drop_last());
    proof {
        assert(t.drop_last() =~= b@.subrange(start as int, end as int - 1));
        if b@[start as int] == 43 && end - start >= 2 {
            assert(ds =~= b@.subrange(start as int + 1, end as int - 1));
        } else {
            assert(ds =~= b@.subrange(start as int, end as int - 1));
        }
    }
    if k == end - 1 {
        proof {
            assert(ds.len() == 0);
        }
        return None;
    }
    let mut val: u64 = 0;
    let mut p = k;
    while p < end - 1
        invariant
            start <= k <= p <= end - 1 < b@.len(),
            ds =~= b@.subrange(k as int, end as int - 1),
            all_digits(b@.subrange(k as int, p as int)),
            val == digits_val(b@.subrange(k as int, p as int)),
        decreases end - p,
    {
        let d = b[p];
        let ghost sofar = b@.subrange(k as int, p as int);
        let ghost sofar1 = b@.subrange(k as int, p as int + 1);
        proof {
            assert(sofar1.drop_last() =~= sofar);
            assert(sofar1.last() == b@[p as int]);
        }
        if !(48 <= d && d <= 57) {
            proof {
                assert(ds[p - k as int] == b@[p as int]);
                assert(!all_digits(ds));
            }
            return None;
        }
        let next = match val.checked_mul(10) {
            None => None,
            Some(m) => m.checked_add((d - 48) as u64),
        };
        match next {
            None => {
                proof {
                    assert(all_digits(sofar1));
                    assert(digits_val(sofar1) > u64::MAX);
                    lemma_digits_prefix_overflow(b@, k as int, p as int + 1, end as int - 1);
                }
                return None;
            },
            Some(v2) => {
                val = v2;
            },
        }
        p = p + 1;
    }
    proof {
        assert(b@.subrange(k as int, p as int) =~= ds);
    }
    match val.checked_mul(factor) {
        None => {
            proof {
                assert(digits_val(ds) * factor > u64::MAX);
            }
            None
        },
        Some(secs) => Some(secs),
    }
}

/// If an all-digit prefix already denotes more than fits in 64 bits, the
/// whole digit string does too.
proof fn lemma_digits_prefix_overflow(b: Seq<u8>, k: int, m: int, e: int)
    requires
        0 <= k <= m <= e <= b.len(),
        all_digits(b.subrange(k, m)),
        digits_val(b.subrange(k, m)) > u64::MAX,
    ensures
        !all_digits(b.subrange(k, e)) || digits_val(b.subrange(k, e)) > u64::MAX,
    decreases e - m,
{
    if m < e {
        if all_digits(b.subrange(k, e)) {
            let cur = b.subrange(k, m);
            let cur1 = b.subrange(k, m + 1);
            assert(cur1.drop_last() =~= cur);
            assert(all_digits(cur1)) by {
                assert(forall|i: int|
                    0 <= i < cur1.len() ==> cur1[i] == #[trigger] b.subrange(k, e)[i]);
            }
            assert(digits_val(cur1) == digits_val(cur) * 10 + (cur1.last() - 48));
            assert(digits_val(cur1) > u64::MAX);
            lemma_digits_prefix_overflow(b, k, m + 1, e);
        }
    }
}

/// Parses a duration text into whole seconds: whitespace-separated parts,
/// each digits then `h`, `m` or `s`, summed; an empty text is zero.
/// Returns exactly what [`parse_seconds`] says of the text's bytes, with
/// a parsing error for every rejected text.
pub fn seconds_of_bytes(b: &[u8]) -> (r: Result<u64, RemError>)
    ensures
        match r {
            Ok(total) => parse_seconds(b@) == Some(total),
            Err(e) => parse_seconds(b@) is None && e == RemError::ParsingError,
        },
{
    let n = b.len();
    let mut i: usize = 0;
    let mut acc: u64 = 0;
    while i < n
        invariant
            0 <= i <= n,
            n == b@.len(),
            parse_seconds(b@) == seconds_from(b@, i as int, acc),
        decreases n - i,
    {
        if is_space_exec(b[i]) {
            i = i + 1;
        } else {
            let start = i;
            let mut j = i;
            while j < n && !is_space_exec(b[j])
                invariant
                    start <= j <= n,
                    n == b@.len(),
                    forall|m: int| start <= m < j ==> !is_space(#[trigger] b@[m]),
                decreases n - j,
            {
                j = j + 1;
            }
            proof {
                lemma_token_end_pinned(b@, start as int, j as int);
            }
            match token_secs_exec(b, start, j) {
                None => {
                    return Err(RemError::ParsingError);
                },
                Some(v) => {
                    match acc.checked_add(v) {
                        None => {
                            return Err(RemError::ParsingError);
                        },
                        Some(a2) => {
                            acc = a2;
                            i = j;
                        },
                    }
                },
            }
        }
    }
    Ok(acc)
}

/// A scan that stopped at the end or at whitespace, having crossed none,
/// found exactly `token_end`.
proof fn lemma_token_end_pinned(s: Seq<u8>, i: int, j: int)
    requires
        0 <= i <= j <= s.len(),
        forall|m: int| i <= m < j ==> !is_space(#[trigger] s[m]),
        j == s.len() || is_space(s[j]),
    ensures
        token_end(s, i) == j,
    decreases j - i,
{
    if i < j {
        lemma_token_end_pinned(s, i + 1, j);
    }
}

/// Parses a duration text into whole seconds; see [`seconds_of_bytes`]
/// for the accepted form, stated over the text's UTF-8 bytes.
pub fn get_seconds(time_str: &str) -> (r: Result<u64, RemError>)
    ensures
        match r {
            Ok(total) => parse_seconds(time_str.spec_bytes()) == Some(total),
            Err(e) => parse_seconds(time_str.spec_bytes()) is None && e == RemError::ParsingError,
        },
{
    seconds_of_bytes(time_str.as_bytes())
}

} // verus!
