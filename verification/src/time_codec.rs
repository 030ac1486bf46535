//! Checkpoint timestamp codec.
//!
//! Timestamps are written `H:MM:SS.sss`-like: one field means seconds,
//! two mean minutes and seconds, three mean hours, minutes and seconds.
//! Values are held as whole milliseconds, so a parsed and re-formatted
//! timestamp keeps its numeric value to millisecond precision.

use vstd::prelude::*;
use vstd::string::*;
use vstd::arithmetic::div_mod::{lemma_fundamental_div_mod, lemma_mod_division_less_than_divisor};

verus! {

/// Failure of the timestamp codec: the text is not a valid timestamp.
#[derive(Debug, Clone, Copy, PartialEq, Eq, Structural)]
pub enum TimeError {
    InvalidFormat,
}

/// A decimal digit character.
pub open spec fn is_digit(c: char) -> bool {
    48 <= (c as u32) && (c as u32) <= 57
}

/// Numeric value of a digit character (0 for non-digits).
pub open spec fn digit_val(c: char) -> nat {
    if is_digit(c) {
        (c as u32 - 48) as nat
    } else {
        0
    }
}

/// Every character of `s` is a decimal digit (an empty `s` passes).
pub open spec fn all_digits(s: Seq<char>) -> bool {
    forall|i: int| 0 <= i < s.len() ==> is_digit(#[trigger] s[i])
}

/// A non-empty run of decimal digits.
pub open spec fn is_digits(s: Seq<char>) -> bool {
    s.len() > 0 && all_digits(s)
}

/// The number denoted by a digit run, most significant digit first.
pub open spec fn digits_val(s: Seq<char>) -> nat
    decreases s.len(),
{
    if s.len() == 0 {
        0
    } else {
        10 * digits_val(s.drop_last()) + digit_val(s.last())
    }
}

/// Index of the first occurrence of `c` in `s`, or `s.len()` if absent.
pub open spec fn first_index_of(s: Seq<char>, c: char) -> int
    decreases s.len(),
{
    if s.len() == 0 {
        0
    } else if s[0] == c {
        0
    } else {
        1 + first_index_of(s.drop_first(), c)
    }
}

/// The colon-separated fields of `s`, in order.
pub open spec fn split_fields(s: Seq<char>) -> Seq<Seq<char>>
    decreases s.len(),
{
    let k = first_index_of(s, ':');
    if 0 <= k < s.len() {
        seq![s.take(k)] + split_fields(s.skip(k + 1))
    } else {
        seq![s]
    }
}

/// Milliseconds denoted by a run of fractional-second digits,
/// truncated to millisecond precision.
pub open spec fn frac_ms(fp: Seq<char>) -> nat {
    if fp.len() >= 3 {
        digits_val(fp.take(3))
    } else if fp.len() == 2 {
        10 * digits_val(fp)
    } else if fp.len() == 1 {
        100 * digits_val(fp)
    } else {
        0
    }
}

/// A well-formed seconds field: either a digit run, or an integer part
/// and a fractional part around a single dot, at least one of them
/// non-empty, both all digits.
pub open spec fn sec_field_valid(s: Seq<char>) -> bool {
    let d = first_index_of(s, '.');
    if d == s.len() {
        is_digits(s)
    } else {
        s.len() >= 2 && all_digits(s.take(d)) && all_digits(s.skip(d + 1))
    }
}

/// Milliseconds denoted by a seconds field, truncated to millisecond
/// precision.
pub open spec fn sec_field_ms(s: Seq<char>) -> nat {
    let d = first_index_of(s, '.');
    if d == s.len() {
        1000 * digits_val(s)
    } else {
        1000 * digits_val(s.take(d)) + frac_ms(s.skip(d + 1))
    }
}

/// The exact decimal value of a seconds field exceeds 60 seconds.
pub open spec fn sec_field_over_60(s: Seq<char>) -> bool {
    let d = first_index_of(s, '.');
    if d == s.len() {
        digits_val(s) > 60
    } else {
        digits_val(s.take(d)) > 60 || (digits_val(s.take(d)) == 60 && exists|j: int|
            0 <= j < s.skip(d + 1).len() && #[trigger] s.skip(d + 1)[j] != '0')
    }
}

/// Total milliseconds denoted by a timestamp, before validity checks.
pub open spec fn parse_total_ms(s: Seq<char>) -> nat {
    let fs = split_fields(s);
    let h = if fs.len() == 3 {
        digits_val(fs[0])
    } else {
        0
    };
    let m = if fs.len() >= 2 {
        digits_val(fs[fs.len() - 2])
    } else {
        0
    };
    h * 3600000 + m * 60000 + sec_field_ms(fs.last())
}

/// A parsable timestamp: one to three fields; hours and minutes are
/// digit runs; minutes do not exceed 60; the seconds field denotes a
/// value in [0, 60]; and the total fits a `u64` of milliseconds.
pub open spec fn parse_valid(s: Seq<char>) -> bool {
    let fs = split_fields(s);
    &&& fs.len() <= 3
    &&& (fs.len() >= 2 ==> is_digits(fs[fs.len() - 2]) && digits_val(fs[fs.len() - 2]) <= 60)
    &&& (fs.len() == 3 ==> is_digits(fs[0]))
    &&& sec_field_valid(fs.last())
    &&& !sec_field_over_60(fs.last())
    &&& parse_total_ms(s) <= u64::MAX
}

/// What `parse_split_time` returns on the text `s`.
pub open spec fn parse_spec(s: Seq<char>) -> Option<u64> {
    if parse_valid(s) {
        Some(parse_total_ms(s) as u64)
    } else {
        None
    }
}

/// A prefix of a digit run never denotes more than the whole run.
proof fn lemma_digits_val_prefix_le(s: Seq<char>, i: int)
    requires
        0 <= i <= s.len(),
    ensures
        digits_val(s.take(i)) <= digits_val(s),
    decreases s.len() - i,
{
    if i < s.len() {
        assert(s.take(i + 1).drop_last() =~= s.take(i));
        assert(s.take(i + 1).last() == s[i]);
        assert(digits_val(s.take(i)) <= digits_val(s.take(i + 1)));
        lemma_digits_val_prefix_le(s, i + 1);
        assert(s.take(s.len() as int) =~= s);
    } else {
        assert(s.take(i) =~= s);
    }
}

/// A digit run of at most three digits denotes at most 999.
proof fn lemma_digits_val_3(s: Seq<char>)
    requires
        all_digits(s),
    ensures
        s.len() == 0 ==> digits_val(s) == 0,
        s.len() <= 1 ==> digits_val(s) <= 9,
        s.len() <= 2 ==> digits_val(s) <= 99,
        s.len() <= 3 ==> digits_val(s) <= 999,
    decreases s.len(),
{
    if s.len() > 0 {
        assert(all_digits(s.drop_last())) by {
            assert(forall|i: int| 0 <= i < s.len() - 1 ==> s.drop_last()[i] == s[i]);
        }
        lemma_digits_val_3(s.drop_last());
        assert(digit_val(s.last()) <= 9);
    }
}

/// `first_index_of` is the index found by a left-to-right scan: no hit
/// before `k`, and a hit at `k` unless `k` is the length.
pub(crate) proof fn lemma_first_index_characterize(s: Seq<char>, c: char, k: int)
    requires
        0 <= k <= s.len(),
        forall|j: int| 0 <= j < k ==> s[j] != c,
        k == s.len() || s[k] == c,
    ensures
        first_index_of(s, c) == k,
    decreases s.len(),
{
    if s.len() == 0 {
    } else if s[0] == c {
    } else {
        let t = s.drop_first();
        assert(forall|j: int| 0 <= j < k - 1 ==> t[j] == s[j + 1] && s[j + 1] != c);
        lemma_first_index_characterize(t, c, k - 1);
    }
}

/// Where the scan hits, `first_index_of` points at `c`; before it,
/// nothing equals `c`.
pub(crate) proof fn lemma_first_index_bounds(s: Seq<char>, c: char)
    ensures
        0 <= first_index_of(s, c) <= s.len(),
        first_index_of(s, c) < s.len() ==> s[first_index_of(s, c)] == c,
        forall|j: int| 0 <= j < first_index_of(s, c) ==> s[j] != c,
    decreases s.len(),
{
    if s.len() == 0 {
    } else if s[0] == c {
    } else {
        let t = s.drop_first();
        lemma_first_index_bounds(t, c);
        assert(forall|j: int| 1 <= j < first_index_of(s, c) ==> s[j] == t[j - 1] && t[j - 1]
            != c);
    }
}

/// A split into fields always yields at least one field.
proof fn lemma_split_fields_nonempty(s: Seq<char>)
    ensures
        split_fields(s).len() >= 1,
{
    lemma_first_index_bounds(s, ':');
    let k = first_index_of(s, ':');
    if k == s.len() {
        assert(split_fields(s).len() == 1);
    } else {
        assert(split_fields(s).len() == 1 + split_fields(s.skip(k + 1)).len());
    }
}

/// Finds the first occurrence of `c` in `s` at or after `from`.
pub(crate) fn find_from(s: &str, from: usize, c: char) -> (r: usize)
    requires
        from <= s@.len(),
    ensures
        from <= r <= s@.len(),
        forall|j: int| from <= j < r ==> s@[j] != c,
        r < s@.len() ==> s@[r as int] == c,
{
    let n = s.unicode_len();
    let mut i: usize = from;
    while i < n
        invariant
            from <= i <= n,
            n == s@.len(),
            forall|j: int| from <= j < i ==> s@[j] != c,
        decreases n - i,
    {
        if s.get_char(i) == c {
            return i;
        }
        i += 1;
    }
    n
}

/// Parses a non-empty digit run into its value; `None` when a
/// character is not a digit or the value does not fit a `u64`.
fn parse_uint_field(s: &str) -> (r: Option<u64>)
    ensures
        r matches Some(v) ==> is_digits(s@) && digits_val(s@) <= u64::MAX && v == digits_val(s@),
        r is None ==> !(is_digits(s@) && digits_val(s@) <= u64::MAX),
{
    let n = s.unicode_len();
    if n == 0 {
        return None;
    }
    let mut acc: u64 = 0;
    let mut i: usize = 0;
    while i < n
        invariant
            0 <= i <= n,
            n == s@.len(),
            all_digits(s@.take(i as int)),
            acc == digits_val(s@.take(i as int)),
        decreases n - i,
    {
        let c = s.get_char(i);
        let d = c as u32;
        if d < 48 || d > 57 {
            assert(!is_digit(s@[i as int]));
            return None;
        }
        proof {
            assert(s@.take(i + 1).drop_last() =~= s@.take(i as int));
            assert(s@.take(i + 1).last() == s@[i as int]);
        }
        let shifted = match acc.checked_mul(10) {
            Some(x) => x,
            None => {
                proof {
                    assert(digits_val(s@.take(i + 1)) > u64::MAX);
                    lemma_digits_val_prefix_le(s@, i + 1);
                }
                return None;
            },
        };
        acc = match shifted.checked_add((d - 48) as u64) {
            Some(x) => x,
            None => {
                proof {
                    assert(digits_val(s@.take(i + 1)) > u64::MAX);
                    lemma_digits_val_prefix_le(s@, i + 1);
                }
                return None;
            },
        };
        i += 1;
    }
    proof {
        assert(s@.take(n as int) =~= s@);
    }
    Some(acc)
}

/// Parses a seconds field into milliseconds; `None` when the field is
/// malformed or denotes a value over 60 seconds.
fn parse_sec_field(s: &str) -> (r: Option<u64>)
    ensures
        r matches Some(v) ==> sec_field_valid(s@) && !sec_field_over_60(s@) && v == sec_field_ms(
            s@,
        ) && v <= 60999,
        r is None ==> !(sec_field_valid(s@) && !sec_field_over_60(s@)),
{
    let n = s.unicode_len();
    let d = find_from(s, 0, '.');
    proof {
        lemma_first_index_characterize(s@, '.', d as int);
    }
    if d == n {
        // pure digit run
        match parse_uint_field(s) {
            Some(v) => {
                if v > 60 {
                    None
                } else {
                    assert(1000 * v <= 60000);
                    Some(1000 * v)
                }
            },
            None => {
                proof {
                    if is_digits(s@) {
                        // the run overflowed a u64, so it is far over 60
                        assert(digits_val(s@) > u64::MAX);
                    }
                }
                None
            },
        }
    } else {
        // integer part and fractional part around the dot
        if n < 2 {
            return None;
        }
        let ip = s.substring_char(0, d);
        proof {
            assert(ip@ =~= s@.take(d as int));
        }
        let iv: u64 = if d == 0 {
            proof {
                assert(s@.take(0) =~= Seq::<char>::empty());
            }
            0
        } else {
            match parse_uint_field(ip) {
                Some(v) => v,
                None => {
                    proof {
                        if all_digits(s@.take(d as int)) {
                            assert(is_digits(ip@));
                            assert(digits_val(s@.take(d as int)) > u64::MAX);
                        }
                    }
                    return None;
                },
            }
        };
        if iv > 60 {
            return None;
        }
        // scan the fractional digits: the first three give the
        // millisecond value, any non-zero digit matters for the bound
        let ghost fp = s@.skip(d + 1);
        let mut frac: u64 = 0;
        let mut nonzero = false;
        let mut j: usize = d + 1;
        while j < n
            invariant
                d + 1 <= j <= n,
                2 <= n == s@.len(),
                d < s@.len(),
                first_index_of(s@, '.') == d as int,
                all_digits(s@.take(d as int)),
                iv == digits_val(s@.take(d as int)),
                iv <= 60,
                fp == s@.skip(d + 1),
                all_digits(fp.take(j - d - 1)),
                frac == digits_val(fp.take(if j - d - 1 <= 3 { j - d - 1 } else { 3 })),
                frac <= 999,
                nonzero == exists|q: int| 0 <= q < j - d - 1 && #[trigger] fp[q] != '0',
            decreases n - j,
        {
            let c = s.get_char(j);
            let dv = c as u32;
            if dv < 48 || dv > 57 {
                assert(fp[j - d - 1] == s@[j as int]);
                assert(!is_digit(fp[j - d - 1]));
                return None;
            }
            proof {
                assert(fp[j - d - 1] == s@[j as int]);
                assert(fp.take(j - d) =~= fp.take(j - d - 1).push(s@[j as int]));
                assert(fp.take(j - d).drop_last() =~= fp.take(j - d - 1));
            }
            if c != '0' {
                nonzero = true;
            }
            if j - d - 1 < 3 {
                proof {
                    lemma_digits_val_3(fp.take(j - d - 1));
                }
                frac = 10 * frac + (dv - 48) as u64;
            } else {
                proof {
                    assert(fp.take(3) =~= fp.take(if j - d <= 3 { j - d } else { 3 }));
                }
            }
            j += 1;
        }
        proof {
            assert(fp.take(n - d - 1) =~= fp);
            assert(fp.len() == n - d - 1);
        }
        if iv == 60 && nonzero {
            return None;
        }
        // widen a short fractional run to milliseconds
        let flen = n - d - 1;
        let fms: u64 = if flen == 0 {
            0
        } else if flen == 1 {
            proof {
                assert(fp.take(1) =~= fp);
                lemma_digits_val_3(fp);
            }
            100 * frac
        } else if flen == 2 {
            proof {
                assert(fp.take(2) =~= fp);
                lemma_digits_val_3(fp);
            }
            10 * frac
        } else {
            frac
        };
        proof {
            assert(fms == frac_ms(fp)) by {
                if flen == 1 || flen == 2 {
                    lemma_digits_val_3(fp);
                }
            }
            assert(fms <= 999);
            assert(sec_field_valid(s@));
            assert(!sec_field_over_60(s@));
            assert(1000 * iv + fms <= 60999);
        }
        Some(1000 * iv + fms)
    }
}

/// Parses a timestamp into whole milliseconds.
///
/// One field denotes seconds, two denote minutes and seconds, three
/// denote hours, minutes and seconds. Fails on any other field count,
/// on non-numeric components, on minutes over 60, on a seconds value
/// outside [0, 60], and on a total that does not fit a `u64`.
pub fn parse_split_time(time_str: &str) -> (r: Result<u64, TimeError>)
    ensures
        r matches Ok(ms) ==> parse_spec(time_str@) == Some(ms),
        r is Err ==> parse_spec(time_str@) is None,
{
    let n = time_str.unicode_len();
    let c1 = find_from(time_str, 0, ':');
    proof {
        lemma_first_index_characterize(time_str@, ':', c1 as int);
    }
    if c1 == n {
        // a single field: seconds only
        proof {
            assert(split_fields(time_str@) =~= seq![time_str@]);
        }
        match parse_sec_field(time_str) {
            Some(v) => Ok(v),
            None => Err(TimeError::InvalidFormat),
        }
    } else {
        let ghost rest1 = time_str@.skip(c1 + 1);
        let c2 = find_from(time_str, c1 + 1, ':');
        proof {
            assert(forall|j: int| 0 <= j < c2 - c1 - 1 ==> rest1[j] == time_str@[j + c1 + 1]
                && time_str@[j + c1 + 1] != ':');
            if c2 < n {
                assert(rest1[c2 - c1 - 1] == time_str@[c2 as int]);
            }
            lemma_first_index_characterize(rest1, ':', c2 - c1 - 1);
        }
        if c2 == n {
            // two fields: minutes and seconds
            proof {
                assert(split_fields(rest1) =~= seq![rest1]);
                assert(split_fields(time_str@) =~= seq![time_str@.take(c1 as int), rest1]);
            }
            let m_str = time_str.substring_char(0, c1);
            let s_str = time_str.substring_char(c1 + 1, n);
            proof {
                assert(m_str@ =~= time_str@.take(c1 as int));
                assert(s_str@ =~= rest1);
            }
            let m = match parse_uint_field(m_str) {
                Some(v) => v,
                None => {
                    proof {
                        if is_digits(m_str@) {
                            assert(digits_val(m_str@) > u64::MAX);
                        }
                    }
                    return Err(TimeError::InvalidFormat);
                },
            };
            if m > 60 {
                return Err(TimeError::InvalidFormat);
            }
            let sec = match parse_sec_field(s_str) {
                Some(v) => v,
                None => {
                    return Err(TimeError::InvalidFormat);
                },
            };
            // m <= 60 and sec <= 60999, so the total fits easily
            Ok(m * 60000 + sec)
        } else {
            let ghost rest2 = time_str@.skip(c2 + 1);
            let c3 = find_from(time_str, c2 + 1, ':');
            proof {
                assert(forall|j: int| 0 <= j < c3 - c2 - 1 ==> rest2[j] == time_str@[j + c2 + 1]
                    && time_str@[j + c2 + 1] != ':');
                if c3 < n {
                    assert(rest2[c3 - c2 - 1] == time_str@[c3 as int]);
                }
                lemma_first_index_characterize(rest2, ':', c3 - c2 - 1);
                assert(rest1.skip(c2 - c1) =~= rest2);
                if c3 == n {
                    assert(split_fields(rest2) =~= seq![rest2]);
                    assert(split_fields(rest1) =~= seq![rest1.take(c2 - c1 - 1), rest2]);
                    assert(rest1.take(c2 - c1 - 1) =~= time_str@.skip(c1 + 1).take(c2 - c1 - 1));
                    assert(split_fields(time_str@) =~= seq![
                        time_str@.take(c1 as int),
                        rest1.take(c2 - c1 - 1),
                        rest2,
                    ]);
                }
            }
            if c3 != n {
                // four or more fields
                proof {
                    lemma_split_fields_nonempty(rest2.skip(c3 - c2));
                    assert(split_fields(rest2) == seq![rest2.take(c3 - c2 - 1)] + split_fields(
                        rest2.skip(c3 - c2),
                    ));
                    assert(split_fields(rest2).len() >= 2);
                    assert(split_fields(rest1) == seq![rest1.take(c2 - c1 - 1)] + split_fields(
                        rest2,
                    ));
                    assert(split_fields(rest1).len() >= 3);
                    assert(split_fields(time_str@) == seq![time_str@.take(c1 as int)]
                        + split_fields(rest1));
                    assert(split_fields(time_str@).len() >= 4);
                }
                return Err(TimeError::InvalidFormat);
            }
            let h_str = time_str.substring_char(0, c1);
            let m_str = time_str.substring_char(c1 + 1, c2);
            let s_str = time_str.substring_char(c2 + 1, n);
            proof {
                assert(h_str@ =~= time_str@.take(c1 as int));
                assert(m_str@ =~= rest1.take(c2 - c1 - 1));
                assert(s_str@ =~= rest2);
            }
            let h = match parse_uint_field(h_str) {
                Some(v) => v,
                None => {
                    proof {
                        if is_digits(h_str@) {
                            assert(digits_val(h_str@) > u64::MAX);
                            assert(parse_total_ms(time_str@) >= digits_val(h_str@));
                        }
                    }
                    return Err(TimeError::InvalidFormat);
                },
            };
            let m = match parse_uint_field(m_str) {
                Some(v) => v,
                None => {
                    proof {
                        if is_digits(m_str@) {
                            assert(digits_val(m_str@) > u64::MAX);
                        }
                    }
                    return Err(TimeError::InvalidFormat);
                },
            };
            if m > 60 {
                return Err(TimeError::InvalidFormat);
            }
            let sec = match parse_sec_field(s_str) {
                Some(v) => v,
                None => {
                    return Err(TimeError::InvalidFormat);
                },
            };
            let hm = match h.checked_mul(3600000) {
                Some(x) => x,
                None => {
                    return Err(TimeError::InvalidFormat);
                },
            };
            let total = match hm.checked_add(m * 60000 + sec) {
                Some(x) => x,
                None => {
                    return Err(TimeError::InvalidFormat);
                },
            };
            Ok(total)
        }
    }
}

/// The digit character for a value 0 through 9.
pub open spec fn digit_char(d: int) -> char {
    ((48 + d) as u32) as char
}

/// Decimal digits of `n`, most significant first.
pub open spec fn digits_seq(n: nat) -> Seq<char>
    decreases n,
{
    if n < 10 {
        seq![digit_char(n as int)]
    } else {
        digits_seq(n / 10).push(digit_char((n % 10) as int))
    }
}

/// `n` padded with leading zeros to at least two digits.
pub open spec fn pad2(n: nat) -> Seq<char> {
    if n < 10 {
        seq!['0'] + digits_seq(n)
    } else {
        digits_seq(n)
    }
}

/// `n` padded with leading zeros to at least three digits.
pub open spec fn pad3(n: nat) -> Seq<char> {
    if n < 10 {
        seq!['0', '0'] + digits_seq(n)
    } else if n < 100 {
        seq!['0'] + digits_seq(n)
    } else {
        digits_seq(n)
    }
}

/// The text `format_time` produces for a non-negative millisecond
/// count: seconds and milliseconds, with the minute field added once
/// the value reaches a minute and the hour field once it reaches an
/// hour, all but the hour field padded to two digits.
pub open spec fn format_nonneg_spec(ms: nat) -> Seq<char> {
    let msec = ms % 1000;
    let s_total = ms / 1000;
    if s_total < 60 {
        pad2(s_total) + seq!['.'] + pad3(msec)
    } else {
        let sec = s_total % 60;
        let m_total = s_total / 60;
        if m_total < 60 {
            pad2(m_total) + seq![':'] + pad2(sec) + seq!['.'] + pad3(msec)
        } else {
            pad2(m_total / 60) + seq![':'] + pad2(m_total % 60) + seq![':'] + pad2(sec)
                + seq!['.'] + pad3(msec)
        }
    }
}

/// The text `format_time` produces: a negative value is the formatted
/// absolute value behind a leading minus sign.
pub open spec fn format_spec(ms: int) -> Seq<char> {
    if ms < 0 {
        seq!['-'] + format_nonneg_spec((-ms) as nat)
    } else {
        format_nonneg_spec(ms as nat)
    }
}

/// The digits of a number are digits, and denote it.
proof fn lemma_digits_seq_props(n: nat)
    ensures
        all_digits(digits_seq(n)),
        digits_seq(n).len() >= 1,
        digits_val(digits_seq(n)) == n,
        n < 10 ==> digits_seq(n).len() == 1,
        n < 100 ==> digits_seq(n).len() <= 2,
        n < 1000 ==> digits_seq(n).len() <= 3,
    decreases n,
{
    if n < 10 {
        let s = digits_seq(n);
        assert(s =~= seq![digit_char(n as int)]);
        assert(is_digit(digit_char(n as int)));
        assert(s.drop_last() =~= Seq::<char>::empty());
        assert(digits_val(s) == 10 * digits_val(s.drop_last()) + digit_val(s.last()));
        assert(digits_val(s) == digit_val(digit_char(n as int)));
    } else {
        lemma_digits_seq_props(n / 10);
        let s = digits_seq(n);
        assert(s =~= digits_seq(n / 10).push(digit_char((n % 10) as int)));
        assert(s.drop_last() =~= digits_seq(n / 10));
        assert(is_digit(digit_char((n % 10) as int)));
        assert(digit_val(s.last()) == n % 10);
        assert(forall|i: int| 0 <= i < s.len() - 1 ==> s[i] == digits_seq(n / 10)[i]);
    }
}

/// A leading zero leaves a digit run's value alone.
proof fn lemma_prepend_zero(s: Seq<char>)
    requires
        all_digits(s),
    ensures
        all_digits(seq!['0'] + s),
        digits_val(seq!['0'] + s) == digits_val(s),
    decreases s.len(),
{
    let z = seq!['0'] + s;
    assert(is_digit('0') && digit_val('0') == 0);
    if s.len() == 0 {
        assert(z =~= seq!['0']);
        assert(z.drop_last() =~= Seq::<char>::empty());
        assert(digits_val(z) == 10 * digits_val(z.drop_last()) + digit_val(z.last()));
        assert(digits_val(z) == 0);
    } else {
        assert(all_digits(s.drop_last())) by {
            assert(forall|i: int| 0 <= i < s.len() - 1 ==> s.drop_last()[i] == s[i]);
        }
        lemma_prepend_zero(s.drop_last());
        assert(z.drop_last() =~= seq!['0'] + s.drop_last());
        assert(z.last() == s.last());
        assert(digits_val(z) == 10 * digits_val(z.drop_last()) + digit_val(z.last()));
        assert(digits_val(s) == 10 * digits_val(s.drop_last()) + digit_val(s.last()));
    }
}

/// A two-or-more-digit padding of a number denotes it.
proof fn lemma_pad2(n: nat)
    ensures
        all_digits(pad2(n)),
        digits_val(pad2(n)) == n,
        pad2(n).len() >= 2,
        n < 100 ==> pad2(n).len() == 2,
    decreases n,
{
    lemma_digits_seq_props(n);
    if n < 10 {
        lemma_prepend_zero(digits_seq(n));
        assert(all_digits(pad2(n))) by {
            assert(pad2(n) == seq!['0'] + digits_seq(n));
        }
    } else {
        if n < 100 {
            assert(digits_seq(n).len() == 2) by {
                lemma_digits_seq_props(n / 10);
                assert(digits_seq(n) =~= digits_seq(n / 10).push(digit_char((n % 10) as int)));
            }
        }
    }
}

/// A three-or-more-digit padding of a number denotes it.
proof fn lemma_pad3(n: nat)
    ensures
        all_digits(pad3(n)),
        digits_val(pad3(n)) == n,
        n < 1000 ==> pad3(n).len() == 3,
    decreases n,
{
    lemma_digits_seq_props(n);
    if n < 10 {
        lemma_prepend_zero(digits_seq(n));
        lemma_prepend_zero(seq!['0'] + digits_seq(n));
        assert(pad3(n) =~= seq!['0'] + (seq!['0'] + digits_seq(n)));
    } else if n < 100 {
        lemma_prepend_zero(digits_seq(n));
        assert(pad3(n) == seq!['0'] + digits_seq(n));
        assert(digits_seq(n).len() == 2) by {
            lemma_digits_seq_props(n / 10);
            assert(digits_seq(n) =~= digits_seq(n / 10).push(digit_char((n % 10) as int)));
        }
    } else if n < 1000 {
        assert(digits_seq(n).len() == 3) by {
            lemma_digits_seq_props(n / 10);
            lemma_digits_seq_props(n / 10 / 10);
            assert(digits_seq(n) =~= digits_seq(n / 10).push(digit_char((n % 10) as int)));
            assert(digits_seq(n / 10) =~= digits_seq(n / 10 / 10).push(
                digit_char((n / 10 % 10) as int),
            ));
        }
    }
}

/// A formatted `SS.mmm` seconds field is valid, within bounds, free
/// of colons, and parses back to its milliseconds.
proof fn lemma_sec_field(sec: nat, msec: nat)
    requires
        sec < 60,
        msec < 1000,
    ensures
        ({
            let f = pad2(sec) + seq!['.'] + pad3(msec);
            &&& f.len() == 6
            &&& sec_field_valid(f)
            &&& !sec_field_over_60(f)
            &&& sec_field_ms(f) == 1000 * sec + msec
            &&& first_index_of(f, ':') == f.len()
        }),
{
    lemma_pad2(sec);
    lemma_pad3(msec);
    let f = pad2(sec) + seq!['.'] + pad3(msec);
    assert(f.len() == 6);
    assert(forall|j: int| 0 <= j < 2 ==> f[j] == pad2(sec)[j]);
    assert(forall|j: int| 3 <= j < 6 ==> f[j] == pad3(msec)[j - 3]);
    assert(f[2] == '.');
    assert(forall|j: int| 0 <= j < 2 ==> is_digit(#[trigger] f[j]) && f[j] != '.' && f[j] != ':');
    assert(forall|j: int| 3 <= j < 6 ==> is_digit(#[trigger] f[j]) && f[j] != '.' && f[j] != ':');
    lemma_first_index_characterize(f, '.', 2);
    lemma_first_index_characterize(f, ':', 6);
    assert(f.take(2) =~= pad2(sec));
    assert(f.skip(3) =~= pad3(msec));
    assert(f.skip(3).take(3) =~= pad3(msec));
    assert(sec_field_ms(f) == 1000 * digits_val(pad2(sec)) + frac_ms(pad3(msec)));
}

/// Formatting a millisecond count and parsing the text back yields
/// the count: the codec loses nothing to the millisecond.
pub proof fn lemma_format_parse_round_trip(ms: u64)
    ensures
        parse_spec(format_spec(ms as int)) == Some(ms),
{
    let msec = (ms as nat) % 1000;
    let s_total = (ms as nat) / 1000;
    let f = format_spec(ms as int);
    lemma_fundamental_div_mod(ms as int, 1000);
    lemma_mod_division_less_than_divisor(ms as int, 1000);
    if s_total < 60 {
        lemma_sec_field(s_total, msec);
        assert(f =~= pad2(s_total) + seq!['.'] + pad3(msec));
        assert(split_fields(f) =~= seq![f]);
        assert(sec_field_ms(f) == 1000 * s_total + msec);
        assert(parse_total_ms(f) == sec_field_ms(f));
        assert(parse_valid(f));
    } else {
        lemma_fundamental_div_mod(s_total as int, 60);
        lemma_mod_division_less_than_divisor(s_total as int, 60);
        let sec = s_total % 60;
        let m_total = s_total / 60;
        let g = pad2(sec) + seq!['.'] + pad3(msec);
        lemma_sec_field(sec, msec);
        if m_total < 60 {
            lemma_pad2(m_total);
            let a = pad2(m_total);
            assert(f =~= a + seq![':'] + g);
            assert(a.len() == 2);
            assert(forall|j: int| 0 <= j < 2 ==> f[j] == a[j]);
            assert(forall|j: int| 0 <= j < 2 ==> is_digit(#[trigger] f[j]) && f[j] != ':');
            assert(f[2] == ':');
            lemma_first_index_characterize(f, ':', 2);
            let rest = f.skip(3);
            assert(rest =~= g);
            assert(split_fields(f) =~= seq![f.take(2)] + split_fields(rest));
            assert(split_fields(g) =~= seq![g]);
            assert(f.take(2) =~= a);
            assert(split_fields(f) =~= seq![a, g]);
            assert(parse_total_ms(f) == digits_val(a) * 60000 + sec_field_ms(g));
            assert(parse_total_ms(f) == m_total * 60000 + 1000 * sec + msec);
            assert(parse_total_ms(f) == ms);
            assert(parse_valid(f));
        } else {
            lemma_fundamental_div_mod(m_total as int, 60);
            lemma_mod_division_less_than_divisor(m_total as int, 60);
            let h = m_total / 60;
            let m = m_total % 60;
            lemma_pad2(h);
            lemma_pad2(m);
            let a = pad2(h);
            let b = pad2(m);
            let la = a.len() as int;
            assert(f =~= a + seq![':'] + b + seq![':'] + g);
            assert(forall|j: int| 0 <= j < la ==> f[j] == a[j]);
            assert(forall|j: int| 0 <= j < la ==> is_digit(#[trigger] f[j]) && f[j] != ':');
            assert(f[la] == ':');
            lemma_first_index_characterize(f, ':', la);
            let rest1 = f.skip(la + 1);
            assert(rest1 =~= b + seq![':'] + g);
            assert(forall|j: int| 0 <= j < 2 ==> rest1[j] == b[j]);
            assert(forall|j: int| 0 <= j < 2 ==> is_digit(#[trigger] rest1[j]) && rest1[j]
                != ':');
            assert(rest1[2] == ':');
            lemma_first_index_characterize(rest1, ':', 2);
            let rest2 = rest1.skip(3);
            assert(rest2 =~= g);
            assert(split_fields(f) =~= seq![f.take(la)] + split_fields(rest1));
            assert(split_fields(rest1) =~= seq![rest1.take(2)] + split_fields(rest2));
            assert(split_fields(g) =~= seq![g]);
            assert(f.take(la) =~= a);
            assert(rest1.take(2) =~= b);
            assert(split_fields(f) =~= seq![a, b, g]);
            assert(parse_total_ms(f) == digits_val(a) * 3600000 + digits_val(b) * 60000
                + sec_field_ms(g));
            assert(parse_total_ms(f) == h * 3600000 + m * 60000 + 1000 * sec + msec);
            assert(parse_total_ms(f) == ms);
            assert(parse_valid(f));
        }
    }
}

/// The one-character text of a single digit.
fn digit_str(d: u64) -> (r: &'static str)
    requires
        d <= 9,
    ensures
        r@ == seq![digit_char(d as int)],
{
    proof {
        reveal_strlit("0");
        reveal_strlit("1");
        reveal_strlit("2");
        reveal_strlit("3");
        reveal_strlit("4");
        reveal_strlit("5");
        reveal_strlit("6");
        reveal_strlit("7");
        reveal_strlit("8");
        reveal_strlit("9");
    }
    match d {
        0 => "0",
        1 => "1",
        2 => "2",
        3 => "3",
        4 => "4",
        5 => "5",
        6 => "6",
        7 => "7",
        8 => "8",
        _ => "9",
    }
}

/// The decimal digits of `n` as text.
fn fmt_digits(n: u64) -> (r: String)
    ensures
        r@ == digits_seq(n as nat),
    decreases n,
{
    if n < 10 {
        String::from_str(digit_str(n))
    } else {
        let mut s = fmt_digits(n / 10);
        s.append(digit_str(n % 10));
        proof {
            assert(s@ =~= digits_seq(n as nat));
        }
        s
    }
}

/// `n` as text, padded with a leading zero to at least two digits.
fn fmt_pad2(n: u64) -> (r: String)
    ensures
        r@ == pad2(n as nat),
{
    if n < 10 {
        proof {
            reveal_strlit("0");
        }
        let mut s = String::from_str("0");
        s.append(digit_str(n));
        s
    } else {
        fmt_digits(n)
    }
}

/// `n` as text, padded with leading zeros to at least three digits.
fn fmt_pad3(n: u64) -> (r: String)
    ensures
        r@ == pad3(n as nat),
{
    if n < 10 {
        proof {
            reveal_strlit("00");
        }
        let mut s = String::from_str("00");
        s.append(digit_str(n));
        proof {
            assert(s@ =~= pad3(n as nat));
        }
        s
    } else if n < 100 {
        proof {
            reveal_strlit("0");
        }
        let mut s = String::from_str("0");
        let rest = fmt_digits(n);
        s.append(rest.as_str());
        s
    } else {
        fmt_digits(n)
    }
}

/// A non-negative millisecond count as timestamp text.
fn format_ms(ms: u64) -> (r: String)
    ensures
        r@ == format_nonneg_spec(ms as nat),
{
    proof {
        reveal_strlit(".");
        reveal_strlit(":");
    }
    let msec = ms % 1000;
    let s_total = ms / 1000;
    if s_total < 60 {
        let mut s = fmt_pad2(s_total);
        let frac = fmt_pad3(msec);
        s.append(".");
        s.append(frac.as_str());
        proof {
            assert(s@ =~= format_nonneg_spec(ms as nat));
        }
        s
    } else {
        let sec = s_total % 60;
        let m_total = s_total / 60;
        if m_total < 60 {
            let mut s = fmt_pad2(m_total);
            let secs = fmt_pad2(sec);
            let frac = fmt_pad3(msec);
            s.append(":");
            s.append(secs.as_str());
            s.append(".");
            s.append(frac.as_str());
            proof {
                assert(s@ =~= format_nonneg_spec(ms as nat));
            }
            s
        } else {
            let mut s = fmt_pad2(m_total / 60);
            let mins = fmt_pad2(m_total % 60);
            let secs = fmt_pad2(sec);
            let frac = fmt_pad3(msec);
            s.append(":");
            s.append(mins.as_str());
            s.append(":");
            s.append(secs.as_str());
            s.append(".");
            s.append(frac.as_str());
            proof {
                assert(s@ =~= format_nonneg_spec(ms as nat));
            }
            s
        }
    }
}

/// Formats a millisecond count as timestamp text.
///
/// Milliseconds always render as a three-digit fraction; the hour
/// field is omitted when zero, and the minute field when both the hour
/// and the minute are zero. A negative count renders as the formatted
/// absolute value behind a minus sign.
pub fn format_time(ms: i64) -> (r: String)
    requires
        ms != i64::MIN,
    ensures
        r@ == format_spec(ms as int),
{
    if ms < 0 {
        proof {
            reveal_strlit("-");
        }
        let mut s = String::from_str("-");
        let rest = format_ms((-ms) as u64);
        s.append(rest.as_str());
        proof {
            assert(s@ =~= format_spec(ms as int));
        }
        s
    } else {
        format_ms(ms as u64)
    }
}

} // verus!
