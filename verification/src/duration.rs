//! The duration expression parser.
//!
//! A duration expression is one or more segments separated by `+`. A segment
//! is a run of `(number, unit)` pairs with nothing between them, as in
//! `1h30m`; a number may carry one decimal point (`1.5h`), and the units are
//! `s`, `m`, `h` and `d`. ASCII whitespace inside a segment is skipped.
//!
//! The meaning of an expression is fixed by the spec-level scanner below: a
//! left-to-right pass that buffers number characters and, at each unit
//! letter, adds `number * unit` seconds to the running total, truncating any
//! fractional remainder of a pair to whole seconds. `splits` counts the
//! segments, that is one more than the number of `+` delimiters.
//!
//! Machine limits, stated explicitly in the contracts: a numeric literal may
//! hold at most 19 digits (a longer one is reported as a malformed number),
//! and an expression whose total or segment count does not fit the result
//! type is rejected as `InvalidDurationFormat`.

use vstd::prelude::*;

use crate::decimal::all_digits;
use crate::decimal::digits_val;
use crate::decimal::is_digit;
use crate::decimal::lemma_digits_val_bound;
use crate::decimal::lemma_pow10_19;
use crate::decimal::lemma_pow10_mono;
use crate::decimal::lemma_pow10_pos;
use crate::decimal::pow10;
use crate::decimal::pow10_u64;
use crate::errors::TrimsecError;

verus! {

/// The ASCII whitespace characters that a duration expression may contain.
pub open spec fn is_space(c: char) -> bool {
    c == ' ' || c == '\t' || c == '\n' || c == '\r' || c == '\u{c}'
}

/// True of the four unit letters.
pub open spec fn is_unit(c: char) -> bool {
    c == 's' || c == 'm' || c == 'h' || c == 'd'
}

/// Seconds denoted by one unit letter.
pub open spec fn unit_secs(c: char) -> int {
    if c == 's' {
        1
    } else if c == 'm' {
        60
    } else if c == 'h' {
        3600
    } else if c == 'd' {
        86400
    } else {
        0
    }
}

/// Number of `.` characters in a buffered numeric literal.
pub open spec fn dot_count(b: Seq<char>) -> int
    decreases b.len(),
{
    if b.len() == 0 {
        0
    } else {
        (if b[0] == '.' {
            1int
        } else {
            0int
        }) + dot_count(b.drop_first())
    }
}

/// Number of digit characters in a buffered numeric literal.
pub open spec fn digit_count(b: Seq<char>) -> int
    decreases b.len(),
{
    if b.len() == 0 {
        0
    } else {
        (if is_digit(b[0]) {
            1int
        } else {
            0int
        }) + digit_count(b.drop_first())
    }
}

/// The literal with its decimal points removed.
pub open spec fn strip_dots(b: Seq<char>) -> Seq<char>
    decreases b.len(),
{
    if b.len() == 0 {
        Seq::empty()
    } else if b[0] == '.' {
        strip_dots(b.drop_first())
    } else {
        seq![b[0]] + strip_dots(b.drop_first())
    }
}

/// How many characters follow the first decimal point (0 if there is none).
pub open spec fn frac_len(b: Seq<char>) -> int
    decreases b.len(),
{
    if b.len() == 0 {
        0
    } else if b[0] == '.' {
        b.len() - 1
    } else {
        frac_len(b.drop_first())
    }
}

/// A well-formed numeric literal: digits and at most one decimal point, at
/// least one digit, and at most 19 digits so that its value fits a `u64`.
pub open spec fn num_ok(b: Seq<char>) -> bool {
    &&& digit_count(b) + dot_count(b) == b.len()
    &&& dot_count(b) <= 1
    &&& 1 <= digit_count(b)
    &&& digit_count(b) <= 19
}

/// Whole seconds denoted by the literal `b` followed by the unit letter `u`:
/// the literal's digits over ten to its fractional length, times the unit,
/// truncated toward zero.
pub open spec fn contribution(b: Seq<char>, u: char) -> int {
    digits_val(strip_dots(b)) * unit_secs(u) / pow10(frac_len(b))
}

/// Scanner state: the buffered literal, the seconds so far, and the number
/// of `+` delimiters seen so far.
pub open spec fn scan_init() -> (Seq<char>, int, int) {
    (Seq::empty(), 0, 0)
}

/// One step of the scanner on character `c`.
///
/// Digits and points are buffered; whitespace is skipped; `+` closes a
/// segment, which must not end in a dangling number; any other character is
/// a unit position, where the buffer must be a well-formed literal and the
/// character one of the four unit letters.
pub open spec fn scan_step(st: (Seq<char>, int, int), c: char) -> Result<
    (Seq<char>, int, int),
    TrimsecError,
> {
    if is_digit(c) || c == '.' {
        Ok((st.0.push(c), st.1, st.2))
    } else if is_space(c) {
        Ok(st)
    } else if c == '+' {
        if st.0.len() > 0 {
            Err(TrimsecError::InvalidDurationFormat)
        } else {
            Ok((Seq::empty(), st.1, st.2 + 1))
        }
    } else {
        if !num_ok(st.0) {
            Err(TrimsecError::NegativeDuration)
        } else if !is_unit(c) {
            Err(TrimsecError::InvalidTimeUnit)
        } else {
            Ok((Seq::empty(), st.1 + contribution(st.0, c), st.2))
        }
    }
}

/// The scanner run over a whole character sequence.
pub open spec fn scan_run(st: (Seq<char>, int, int), s: Seq<char>) -> Result<
    (Seq<char>, int, int),
    TrimsecError,
>
    decreases s.len(),
{
    if s.len() == 0 {
        Ok(st)
    } else {
        match scan_step(st, s[0]) {
            Ok(st2) => scan_run(st2, s.drop_first()),
            Err(e) => Err(e),
        }
    }
}

/// The meaning of a duration expression: its total in whole seconds and its
/// segment count, or the error raised at the first offending character. A
/// segment may be empty (in particular, the empty expression denotes zero
/// seconds in one segment), but may not end in a number without a unit.
pub open spec fn spec_parse_duration(s: Seq<char>) -> Result<(int, int), TrimsecError> {
    match scan_run(scan_init(), s) {
        Ok(st) => if st.0.len() > 0 {
            Err(TrimsecError::InvalidDurationFormat)
        } else {
            Ok((st.1, st.2 + 1))
        },
        Err(e) => Err(e),
    }
}

/// Running the scanner over `a + b` is running it over `a`, then over `b`.
pub proof fn lemma_scan_run_append(st: (Seq<char>, int, int), a: Seq<char>, b: Seq<char>)
    ensures
        scan_run(st, a + b) == match scan_run(st, a) {
            Ok(m) => scan_run(m, b),
            Err(e) => Err(e),
        },
    decreases a.len(),
{
    if a.len() == 0 {
        assert(a + b =~= b);
    } else {
        assert((a + b)[0] == a[0]);
        assert((a + b).len() > 0);
        match scan_step(st, a[0]) {
            Ok(st2) => {
                assert((a + b).drop_first() =~= a.drop_first() + b);
                lemma_scan_run_append(st2, a.drop_first(), b);
            },
            Err(e) => {},
        }
    }
}

/// How each buffer measure changes when one character is appended.
pub proof fn lemma_buf_push(b: Seq<char>, c: char)
    ensures
        dot_count(b.push(c)) == dot_count(b) + (if c == '.' {
            1int
        } else {
            0int
        }),
        digit_count(b.push(c)) == digit_count(b) + (if is_digit(c) {
            1int
        } else {
            0int
        }),
        c == '.' ==> strip_dots(b.push(c)) == strip_dots(b),
        c != '.' ==> strip_dots(b.push(c)) == strip_dots(b).push(c),
        frac_len(b.push(c)) == (if dot_count(b) >= 1 {
            frac_len(b) + 1
        } else {
            0int
        }),
    decreases b.len(),
{
    let p = b.push(c);
    lemma_counts_nonneg(b);
    if b.len() == 0 {
        assert(p.len() == 1);
        assert(p[0] == c);
        assert(p.drop_first() =~= Seq::<char>::empty());
        assert(dot_count(p) == (if c == '.' {
            1int
        } else {
            0int
        }) + dot_count(Seq::<char>::empty()));
        assert(frac_len(Seq::<char>::empty()) == 0);
        assert(frac_len(p) == (if c == '.' {
            p.len() - 1
        } else {
            frac_len(p.drop_first())
        }));
        assert(digit_count(p) == (if is_digit(c) {
            1int
        } else {
            0int
        }) + digit_count(Seq::<char>::empty()));
        if c != '.' {
            assert(strip_dots(p) =~= seq![p[0]] + strip_dots(p.drop_first()));
            assert(seq![p[0]] + strip_dots(p.drop_first()) =~= Seq::<char>::empty().push(c));
        } else {
            assert(strip_dots(p) =~= strip_dots(p.drop_first()));
        }
    } else {
        let r = b.drop_first();
        assert(p[0] == b[0]);
        assert(p.drop_first() =~= r.push(c));
        lemma_buf_push(r, c);
        lemma_counts_nonneg(r);
        assert(dot_count(p) == (if b[0] == '.' {
            1int
        } else {
            0int
        }) + dot_count(r.push(c)));
        assert(dot_count(b) == (if b[0] == '.' {
            1int
        } else {
            0int
        }) + dot_count(r));
        assert(digit_count(p) == (if is_digit(b[0]) {
            1int
        } else {
            0int
        }) + digit_count(r.push(c)));
        assert(digit_count(b) == (if is_digit(b[0]) {
            1int
        } else {
            0int
        }) + digit_count(r));
        if b[0] == '.' {
            assert(strip_dots(p) == strip_dots(r.push(c)));
            assert(strip_dots(b) == strip_dots(r));
            assert(dot_count(b) >= 1);
            assert(frac_len(p) == p.len() - 1);
            assert(frac_len(b) == b.len() - 1);
        } else {
            assert(strip_dots(p) =~= seq![b[0]] + strip_dots(r.push(c)));
            assert(strip_dots(b) =~= seq![b[0]] + strip_dots(r));
            if c != '.' {
                assert(seq![b[0]] + strip_dots(r).push(c) =~= (seq![b[0]] + strip_dots(r)).push(
                    c,
                ));
            }
            assert(frac_len(p) == frac_len(r.push(c)));
            assert(frac_len(b) == frac_len(r));
            assert(dot_count(b) >= 1 <==> dot_count(r) >= 1);
        }
    }
}

/// Facts about a buffer made of digits and dots: stripping the dots leaves
/// exactly the digits, and a buffer with no dot has no fractional part.
pub proof fn lemma_buf_shape(b: Seq<char>)
    requires
        digit_count(b) + dot_count(b) == b.len(),
    ensures
        all_digits(strip_dots(b)),
        strip_dots(b).len() == digit_count(b),
        dot_count(b) == 0 ==> frac_len(b) == 0,
        dot_count(b) <= 1 ==> frac_len(b) <= digit_count(b),
    decreases b.len(),
{
    if b.len() > 0 {
        assert(dot_count(b) == (if b[0] == '.' {
            1int
        } else {
            0int
        }) + dot_count(b.drop_first()));
        assert(digit_count(b) == (if is_digit(b[0]) {
            1int
        } else {
            0int
        }) + digit_count(b.drop_first()));
        lemma_counts_nonneg(b.drop_first());
        assert(is_digit(b[0]) || b[0] == '.') by {
            if !is_digit(b[0]) && b[0] != '.' {
                assert(digit_count(b) + dot_count(b) <= b.len() - 1);
            }
        }
        lemma_buf_shape(b.drop_first());
        if b[0] == '.' {
            assert(frac_len(b) == b.len() - 1);
            if dot_count(b) <= 1 {
                assert(dot_count(b.drop_first()) == 0);
                assert(digit_count(b.drop_first()) == b.len() - 1);
                assert(digit_count(b) == b.len() - 1);
            }
        } else {
            let s = strip_dots(b);
            assert(s =~= seq![b[0]] + strip_dots(b.drop_first()));
            assert(forall|i: int|
                0 <= i < s.len() ==> #[trigger] s[i] == (if i == 0 {
                    b[0]
                } else {
                    strip_dots(b.drop_first())[i - 1]
                }));
        }
    }
}

/// The measures of the empty buffer.
proof fn lemma_empty_buf()
    ensures
        dot_count(Seq::<char>::empty()) == 0,
        digit_count(Seq::<char>::empty()) == 0,
        frac_len(Seq::<char>::empty()) == 0,
{
}

/// The counting measures lie between zero and the buffer's length; a
/// character is never both a digit and a dot, so the two counts together
/// never exceed the length.
pub proof fn lemma_counts_nonneg(b: Seq<char>)
    ensures
        0 <= dot_count(b) <= b.len(),
        0 <= digit_count(b) <= b.len(),
        digit_count(b) + dot_count(b) <= b.len(),
        0 <= frac_len(b) < b.len() || frac_len(b) == 0,
    decreases b.len(),
{
    if b.len() > 0 {
        lemma_counts_nonneg(b.drop_first());
    }
}

/// Parses a duration expression, returning its total in whole seconds and
/// its number of `+`-separated segments, exactly as the spec-level scanner
/// defines them; a total or a segment count that does not fit the result
/// type is reported as `InvalidDurationFormat`.
pub fn parse_duration(duration: &str) -> (r: Result<(u64, i64), TrimsecError>)
    ensures
        match spec_parse_duration(duration@) {
            Ok(p) => if p.0 <= u64::MAX && p.1 <= i64::MAX {
                r == Ok::<(u64, i64), TrimsecError>((p.0 as u64, p.1 as i64))
            } else {
                r == Err::<(u64, i64), TrimsecError>(TrimsecError::InvalidDurationFormat)
            },
            Err(e) => r == Err::<(u64, i64), TrimsecError>(e),
        },
{
    let ghost s = duration@;
    let len: usize = duration.unicode_len();
    let mut i: usize = 0;
    // Exact value of the buffered literal's digits, while it has at most 19.
    let mut d: u64 = 0;
    // Digit count of the buffer, saturating at 20.
    let mut n_digits: u64 = 0;
    // Dot count of the buffer, saturating at 2.
    let mut n_dots: u64 = 0;
    // Digits seen after the first dot, saturating at 20.
    let mut frac: u64 = 0;
    let mut nonempty: bool = false;
    // Exact total in seconds, while it fits; once it does not, `too_big`.
    let mut total: u64 = 0;
    let mut too_big: bool = false;
    let mut plus_count: usize = 0;
    let ghost mut buf: Seq<char> = Seq::empty();
    let ghost mut total_g: int = 0;
    proof {
        assert(s.subrange(0, 0) =~= Seq::<char>::empty());
        lemma_empty_buf();
    }

    while i < len
        invariant
            s == duration@,
            len == s.len(),
            0 <= i <= len,
            scan_run(scan_init(), s.subrange(0, i as int)) == Ok::<_, TrimsecError>(
                (buf, total_g, plus_count as int),
            ),
            digit_count(buf) + dot_count(buf) == buf.len(),
            nonempty == (buf.len() > 0),
            n_dots == (if dot_count(buf) >= 2 {
                2int
            } else {
                dot_count(buf)
            }),
            n_digits == (if digit_count(buf) >= 20 {
                20int
            } else {
                digit_count(buf)
            }),
            digit_count(buf) <= 19 ==> d == digits_val(strip_dots(buf)),
            digit_count(buf) <= 19 && dot_count(buf) <= 1 ==> frac == frac_len(buf),
            frac <= n_digits,
            total_g >= 0,
            !too_big ==> total_g == total,
            too_big ==> total_g > u64::MAX,
            plus_count <= i,
        decreases len - i,
    {
        let c = duration.get_char(i);
        let ghost st: (Seq<char>, int, int) = (buf, total_g, plus_count as int);
        proof {
            assert(s.subrange(0, i as int + 1) =~= s.subrange(0, i as int) + seq![s[i as int]]);
            lemma_scan_run_append(scan_init(), s.subrange(0, i as int), seq![s[i as int]]);
            assert(seq![s[i as int]].drop_first() =~= Seq::<char>::empty());
            assert(seq![s[i as int]] =~= Seq::<char>::empty().push(s[i as int]));
            assert(Seq::<char>::empty().push(s[i as int])[0] == s[i as int]);
            assert(seq![s[i as int]][0] == c);
            lemma_counts_nonneg(buf);
            match scan_step(st, c) {
                Ok(st2) => {
                    assert(scan_run(st2, seq![s[i as int]].drop_first()) == Ok::<_, TrimsecError>(
                        st2,
                    ));
                },
                Err(e) => {},
            }
            assert(scan_run(scan_init(), s.subrange(0, i as int + 1)) == match scan_step(st, c) {
                Ok(st2) => Ok::<_, TrimsecError>(st2),
                Err(e) => Err(e),
            });
        }
        let u = c as u32;
        if (48 <= u && u <= 57) || c == '.' {
            proof {
                lemma_buf_push(buf, c);
                lemma_buf_shape(buf);
            }
            if c == '.' {
                if n_dots < 2 {
                    n_dots = n_dots + 1;
                }
            } else {
                if n_digits < 19 {
                    proof {
                        lemma_digits_val_bound(strip_dots(buf));
                        lemma_pow10_mono(strip_dots(buf).len() as int, 18);
                        lemma_pow10_19();
                        assert(pow10(19) == 10 * pow10(18));
                        assert(strip_dots(buf).push(c).drop_last() =~= strip_dots(buf));
                        assert(strip_dots(buf).push(c).last() == c);
                    }
                    d = d * 10 + ((u - 48) as u64);
                }
                if n_digits < 20 {
                    n_digits = n_digits + 1;
                }
                if n_dots >= 1 && frac < 20 {
                    frac = frac + 1;
                }
            }
            nonempty = true;
            proof {
                assert(scan_step(st, c) == Ok::<_, TrimsecError>((st.0.push(c), st.1, st.2)));
                buf = buf.push(c);
            }
        } else if c == ' ' || c == '\t' || c == '\n' || c == '\r' || c == '\u{c}' {
            proof {
                assert(scan_step(st, c) == Ok::<_, TrimsecError>(st));
            }
        } else if c == '+' {
            if nonempty {
                proof {
                    lemma_run_error_prefix(s, i as int + 1, TrimsecError::InvalidDurationFormat);
                }
                return Err(TrimsecError::InvalidDurationFormat);
            }
            plus_count = plus_count + 1;
            proof {
                assert(scan_step(st, c) == Ok::<_, TrimsecError>(
                    (Seq::<char>::empty(), st.1, st.2 + 1),
                ));
                buf = Seq::empty();
                lemma_empty_buf();
            }
            d = 0;
            n_digits = 0;
            n_dots = 0;
            frac = 0;
        } else {
            let valid = nonempty && n_dots <= 1 && 1 <= n_digits && n_digits <= 19;
            if !valid {
                proof {
                    lemma_run_error_prefix(s, i as int + 1, TrimsecError::NegativeDuration);
                }
                return Err(TrimsecError::NegativeDuration);
            }
            let unit: u64 = match c {
                's' => 1,
                'm' => 60,
                'h' => 3600,
                'd' => 86400,
                _ => {
                    proof {
                        lemma_run_error_prefix(s, i as int + 1, TrimsecError::InvalidTimeUnit);
                    }
                    return Err(TrimsecError::InvalidTimeUnit);
                },
            };
            proof {
                lemma_buf_shape(buf);
                lemma_digits_val_bound(strip_dots(buf));
                lemma_pow10_mono(strip_dots(buf).len() as int, 19);
                lemma_pow10_19();
                lemma_pow10_pos(frac_len(buf));
            }
            let p = pow10_u64(frac);
            let pair_secs: u128 = (d as u128) * (unit as u128) / (p as u128);
            proof {
                vstd::arithmetic::div_mod::lemma_div_basics_5((d * unit) as int, p as int);
                assert(pair_secs == contribution(buf, c));
            }
            let new_total: u128 = (total as u128) + pair_secs;
            if too_big || new_total > u64::MAX as u128 {
                too_big = true;
            } else {
                total = new_total as u64;
            }
            proof {
                assert(num_ok(st.0));
                assert(scan_step(st, c) == Ok::<_, TrimsecError>(
                    (Seq::<char>::empty(), st.1 + contribution(st.0, c), st.2),
                ));
                total_g = total_g + contribution(buf, c);
                buf = Seq::empty();
                lemma_empty_buf();
            }
            d = 0;
            n_digits = 0;
            n_dots = 0;
            frac = 0;
            nonempty = false;
        }
        i = i + 1;
    }
    proof {
        assert(s.subrange(0, len as int) =~= s);
    }
    if nonempty {
        return Err(TrimsecError::InvalidDurationFormat);
    }
    let splits: u128 = plus_count as u128 + 1;
    if too_big || splits > i64::MAX as u128 {
        return Err(TrimsecError::InvalidDurationFormat);
    }
    Ok((total, plus_count as i64 + 1))
}

/// A successful scan never decreases the total or the delimiter count, so
/// a parsed duration is non-negative and has at least one segment.
pub proof fn lemma_parse_duration_nonneg(s: Seq<char>)
    ensures
        spec_parse_duration(s) matches Ok(p) ==> p.0 >= 0 && p.1 >= 1,
{
    lemma_scan_run_bounds(scan_init(), s);
}

/// The running total and delimiter count only grow along a scan.
proof fn lemma_scan_run_bounds(st: (Seq<char>, int, int), s: Seq<char>)
    ensures
        scan_run(st, s) matches Ok(m) ==> m.1 >= st.1 && m.2 >= st.2,
    decreases s.len(),
{
    if s.len() > 0 {
        let c = s[0];
        match scan_step(st, c) {
            Ok(st2) => {
                if !(is_digit(c) || c == '.') && !is_space(c) && c != '+' {
                    assert(num_ok(st.0));
                    lemma_buf_shape(st.0);
                    lemma_digits_val_bound(strip_dots(st.0));
                    lemma_pow10_pos(frac_len(st.0));
                    vstd::arithmetic::div_mod::lemma_div_basics_4(
                        digits_val(strip_dots(st.0)) * unit_secs(c),
                        pow10(frac_len(st.0)),
                    );
                    assert(contribution(st.0, c) >= 0);
                }
                lemma_scan_run_bounds(st2, s.drop_first());
            },
            Err(e) => {},
        }
    }
}

/// If the scanner fails on a prefix of `s`, the whole expression fails with
/// that error.
proof fn lemma_run_error_prefix(s: Seq<char>, i: int, e: TrimsecError)
    requires
        0 <= i <= s.len(),
        scan_run(scan_init(), s.subrange(0, i)) == Err::<(Seq<char>, int, int), _>(e),
    ensures
        spec_parse_duration(s) == Err::<(int, int), TrimsecError>(e),
{
    assert(s =~= s.subrange(0, i) + s.subrange(i, s.len() as int));
    lemma_scan_run_append(scan_init(), s.subrange(0, i), s.subrange(i, s.len() as int));
}

} // verus!
