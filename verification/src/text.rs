//! Plain-text rendering of numbers, durations and ranks, verified down to
//! the exact character sequences.

use vstd::prelude::*;
use vstd::string::StringExecFns;

verus! {

/// The digit character for one decimal digit.
pub open spec fn digit_char(d: int) -> char {
    if d == 0 {
        '0'
    } else if d == 1 {
        '1'
    } else if d == 2 {
        '2'
    } else if d == 3 {
        '3'
    } else if d == 4 {
        '4'
    } else if d == 5 {
        '5'
    } else if d == 6 {
        '6'
    } else if d == 7 {
        '7'
    } else if d == 8 {
        '8'
    } else {
        '9'
    }
}

/// Decimal rendering of a non-negative number.
pub open spec fn dec_str(n: int) -> Seq<char>
    decreases n,
{
    if n <= 9 {
        seq![digit_char(n)]
    } else {
        dec_str(n / 10).push(digit_char(n % 10))
    }
}

/// Decimal rendering padded to at least two digits with a leading zero.
pub open spec fn pad2(n: int) -> Seq<char> {
    if 0 <= n <= 9 {
        seq!['0', digit_char(n)]
    } else {
        dec_str(n)
    }
}

/// `HH:MM:SS` rendering of a duration in seconds; a negative duration is
/// rendered as its magnitude behind a minus sign.
pub open spec fn duration_str(secs: int) -> Seq<char>
    decreases (if secs < 0 { 1int } else { 0int }),
{
    if secs < 0 {
        seq!['-'] + duration_str(-secs)
    } else {
        pad2(secs / 3600) + seq![':'] + pad2(secs / 60 % 60) + seq![':'] + pad2(secs % 60)
    }
}

/// `DD days HH:MM:SS` rendering of a duration in seconds.
pub open spec fn duration_days_str(secs: int) -> Seq<char>
    decreases (if secs < 0 { 1int } else { 0int }),
{
    if secs < 0 {
        seq!['-'] + duration_days_str(-secs)
    } else {
        pad2(secs / 86400) + " days "@ + pad2(secs / 3600 % 24) + seq![':'] + pad2(
            secs / 60 % 60,
        ) + seq![':'] + pad2(secs % 60)
    }
}

/// The English ordinal suffix of a number: `st`, `nd`, `rd` or `th`, with
/// the teens always taking `th`.
pub open spec fn ordinal_suffix_spec(n: int) -> Seq<char> {
    if n % 10 == 1 && n % 100 != 11 {
        "st"@
    } else if n % 10 == 2 && n % 100 != 12 {
        "nd"@
    } else if n % 10 == 3 && n % 100 != 13 {
        "rd"@
    } else {
        "th"@
    }
}

/// `7th`, `21st`: a rank with its ordinal suffix.
pub open spec fn rank_str(n: int) -> Seq<char> {
    dec_str(n) + ordinal_suffix_spec(n)
}

/// The one-character string for a decimal digit.
fn digit_str(d: u64) -> (r: &'static str)
    requires
        d <= 9,
    ensures
        r@ == seq![digit_char(d as int)],
{
    let r: &'static str = if d == 0 {
        "0"
    } else if d == 1 {
        "1"
    } else if d == 2 {
        "2"
    } else if d == 3 {
        "3"
    } else if d == 4 {
        "4"
    } else if d == 5 {
        "5"
    } else if d == 6 {
        "6"
    } else if d == 7 {
        "7"
    } else if d == 8 {
        "8"
    } else {
        "9"
    };
    proof {
        reveal_strlit("0");
        reveal_strlit("1");
        reveal_strlit("2");
        reveal_strlit("3");
        reveal_strlit("4");
        reveal_strlit("5");
        reveal_strlit("6");
        reveal_strlit("7");
        reveal_strlit("8");
        reveal_strlit("9");
        assert(r@ =~= seq![digit_char(d as int)]);
    }
    r
}

/// Decimal rendering of a number.
pub fn u64_dec_string(n: u64) -> (r: String)
    ensures
        r@ == dec_str(n as int),
    decreases n,
{
    if n <= 9 {
        String::from_str(digit_str(n))
    } else {
        let mut s = u64_dec_string(n / 10);
        s.append(digit_str(n % 10));
        proof {
            assert(s@ =~= dec_str(n as int));
        }
        s
    }
}

/// Decimal rendering padded to at least two digits.
fn u64_pad2_string(n: u64) -> (r: String)
    ensures
        r@ == pad2(n as int),
{
    if n <= 9 {
        let mut s = String::from_str("0");
        s.append(digit_str(n));
        proof {
            reveal_strlit("0");
            assert(s@ =~= pad2(n as int));
        }
        s
    } else {
        u64_dec_string(n)
    }
}

/// The magnitude of a duration, and whether it was negative.
fn duration_magnitude(secs: i64) -> (r: (u64, bool))
    ensures
        r.1 == (secs < 0),
        secs >= 0 ==> r.0 == secs,
        secs < 0 ==> r.0 == -(secs as int),
{
    if secs < 0 {
        (((-(secs as i128)) as u64), true)
    } else {
        (secs as u64, false)
    }
}

/// A duration in seconds as `HH:MM:SS` (behind a minus sign if negative).
pub fn format_duration(secs: i64) -> (r: String)
    ensures
        r@ == duration_str(secs as int),
{
    let (mag, neg) = duration_magnitude(secs);
    let mut s = if neg {
        String::from_str("-")
    } else {
        String::new()
    };
    s.append(u64_pad2_string(mag / 3600).as_str());
    s.append(":");
    s.append(u64_pad2_string(mag / 60 % 60).as_str());
    s.append(":");
    s.append(u64_pad2_string(mag % 60).as_str());
    proof {
        reveal_strlit("-");
        reveal_strlit(":");
        if secs < 0 {
            assert(s@ =~= seq!['-'] + duration_str(-(secs as int)));
        } else {
            assert(s@ =~= duration_str(secs as int));
        }
    }
    s
}

/// A duration in seconds as `DD days HH:MM:SS` (behind a minus sign if
/// negative).
pub fn format_duration_with_days(secs: i64) -> (r: String)
    ensures
        r@ == duration_days_str(secs as int),
{
    let (mag, neg) = duration_magnitude(secs);
    let mut s = if neg {
        String::from_str("-")
    } else {
        String::new()
    };
    s.append(u64_pad2_string(mag / 86400).as_str());
    s.append(" days ");
    s.append(u64_pad2_string(mag / 3600 % 24).as_str());
    s.append(":");
    s.append(u64_pad2_string(mag / 60 % 60).as_str());
    s.append(":");
    s.append(u64_pad2_string(mag % 60).as_str());
    proof {
        reveal_strlit("-");
        reveal_strlit(":");
        reveal_strlit(" days ");
        if secs < 0 {
            assert(s@ =~= seq!['-'] + duration_days_str(-(secs as int)));
        } else {
            assert(s@ =~= duration_days_str(secs as int));
        }
    }
    s
}

/// The ordinal suffix of a number.
pub fn ordinal_number_suffix(num: u8) -> (r: &'static str)
    ensures
        r@ == ordinal_suffix_spec(num as int),
{
    let r: &'static str = if num % 10 == 1 && num % 100 != 11 {
        "st"
    } else if num % 10 == 2 && num % 100 != 12 {
        "nd"
    } else if num % 10 == 3 && num % 100 != 13 {
        "rd"
    } else {
        "th"
    };
    r
}

/// A rank with its ordinal suffix, as in `1st` or `12th`.
pub fn format_rank(rank: u8) -> (r: String)
    ensures
        r@ == rank_str(rank as int),
{
    let mut s = u64_dec_string(rank as u64);
    s.append(ordinal_number_suffix(rank));
    s
}

} // verus!
