//! The playback-speed multiplier: a decimal number with an optional `x`
//! suffix, held exactly as a fraction `num / den` whose denominator is the
//! power of ten given by the literal's fractional digits.
//!
//! The accepted range is `1 <= num/den < 100`: a multiplier of exactly 1 is
//! accepted (and saves no time), 100 and above are not. The literal itself
//! must be digits with at most one decimal point and at most 19 digits;
//! anything else — including signs and exponents — is rejected as
//! `InvalidMultiplierFormat`.

use vstd::prelude::*;

use crate::decimal::digits_val;
use crate::decimal::is_digit;
use crate::decimal::lemma_digits_val_bound;
use crate::decimal::lemma_pow10_19;
use crate::decimal::lemma_pow10_mono;
use crate::decimal::lemma_pow10_pos;
use crate::decimal::pow10;
use crate::decimal::pow10_u64;
use crate::duration::digit_count;
use crate::duration::dot_count;
use crate::duration::frac_len;
use crate::duration::lemma_buf_push;
use crate::duration::lemma_buf_shape;
use crate::duration::lemma_counts_nonneg;
use crate::duration::num_ok;
use crate::duration::strip_dots;
use crate::errors::TrimsecError;

verus! {

/// A validated multiplier, exactly the fraction `num / den`.
pub struct Multiplier {
    pub num: u64,
    pub den: u64,
}

impl Multiplier {
    /// Validity: the denominator is a positive power of ten no larger than
    /// `pow10(19)`, and the fraction lies in `[1, 100)`.
    pub open spec fn wf(self) -> bool {
        &&& 1 <= self.den
        &&& self.den <= pow10(19)
        &&& self.den <= self.num
        &&& (self.num as int) < 100 * (self.den as int)
    }
}

/// The multiplier literal with an optional trailing `x` removed.
pub open spec fn strip_x(s: Seq<char>) -> Seq<char> {
    if s.len() > 0 && s.last() == 'x' {
        s.drop_last()
    } else {
        s
    }
}

/// The meaning of a multiplier string: the fraction `(numerator,
/// denominator)` it denotes, `InvalidMultiplierFormat` if what remains after
/// stripping the `x` is not a plain decimal literal, and
/// `MultiplierOutOfRange` if the value lies outside `[1, 100)`.
pub open spec fn spec_parse_multiplier(s: Seq<char>) -> Result<(int, int), TrimsecError> {
    let b = strip_x(s);
    if !num_ok(b) {
        Err(TrimsecError::InvalidMultiplierFormat)
    } else {
        let n = digits_val(strip_dots(b));
        let d = pow10(frac_len(b));
        if d <= n && n < 100 * d {
            Ok((n, d))
        } else {
            Err(TrimsecError::MultiplierOutOfRange)
        }
    }
}

/// A successfully parsed multiplier is a well-formed fraction: denominator
/// a positive power of ten at most `pow10(19)`, value in `[1, 100)`, and a
/// numerator below `pow10(19)`.
pub proof fn lemma_parse_multiplier_wf(s: Seq<char>)
    ensures
        spec_parse_multiplier(s) matches Ok(m) ==> 1 <= m.1 && m.1 <= pow10(19) && m.1 <= m.0
            && m.0 < 100 * m.1 && m.0 < pow10(19),
{
    let b = strip_x(s);
    if num_ok(b) {
        lemma_buf_shape(b);
        lemma_digits_val_bound(strip_dots(b));
        lemma_pow10_mono(strip_dots(b).len() as int, 19);
        lemma_pow10_pos(frac_len(b));
        lemma_pow10_mono(frac_len(b), 19);
    }
}

/// A character that is neither a digit nor a dot anywhere in the literal
/// keeps the whole literal from being well formed.
proof fn lemma_bad_char(b: Seq<char>, j: int)
    requires
        0 <= j < b.len(),
        !is_digit(b[j]),
        b[j] != '.',
    ensures
        digit_count(b) + dot_count(b) < b.len(),
    decreases b.len(),
{
    lemma_counts_nonneg(b.drop_first());
    if j == 0 {
        assert(digit_count(b) == digit_count(b.drop_first()));
        assert(dot_count(b) == dot_count(b.drop_first()));
    } else {
        assert(b.drop_first()[j - 1] == b[j]);
        lemma_bad_char(b.drop_first(), j - 1);
    }
}

/// Parses and range-checks a multiplier string, exactly as
/// `spec_parse_multiplier` describes.
pub fn parse_multiplier(multiplier_user: &str) -> (r: Result<Multiplier, TrimsecError>)
    ensures
        match spec_parse_multiplier(multiplier_user@) {
            Ok(p) => r == Ok::<Multiplier, TrimsecError>(
                (Multiplier { num: p.0 as u64, den: p.1 as u64 }),
            ) && (Multiplier { num: p.0 as u64, den: p.1 as u64 }).wf(),
            Err(e) => r == Err::<Multiplier, TrimsecError>(e),
        },
{
    let ghost s = multiplier_user@;
    let len: usize = multiplier_user.unicode_len();
    let mut blen: usize = len;
    if len > 0 {
        let last = multiplier_user.get_char(len - 1);
        if last == 'x' {
            blen = len - 1;
        }
    }
    let ghost b = strip_x(s);
    proof {
        if len > 0 && s.last() == 'x' {
            assert(b =~= s.subrange(0, len - 1));
        } else {
            assert(b =~= s);
        }
    }
    let mut i: usize = 0;
    let mut d: u64 = 0;
    let mut n_digits: u64 = 0;
    let mut n_dots: u64 = 0;
    let mut frac: u64 = 0;
    let ghost mut buf: Seq<char> = Seq::empty();
    proof {
        assert(b.subrange(0, 0) =~= Seq::<char>::empty());
    }
    while i < blen
        invariant
            s == multiplier_user@,
            len == s.len(),
            b == strip_x(s),
            blen == b.len(),
            blen <= len,
            0 <= i <= blen,
            buf == b.subrange(0, i as int),
            forall|j: int| 0 <= j < i ==> is_digit(#[trigger] b[j]) || b[j] == '.',
            digit_count(buf) + dot_count(buf) == buf.len(),
            n_dots == (if dot_count(buf) >= 2 {
                2int
            } else {
                dot_count(buf)
            }),
            n_digits == (if digit_count(buf) >= 20 {
                20int
            } else {
                digit_count(buf)
            }),
            digit_count(buf) <= 19 ==> d == digits_val(strip_dots(buf)),
            digit_count(buf) <= 19 && dot_count(buf) <= 1 ==> frac == frac_len(buf),
            frac <= n_digits,
        decreases blen - i,
    {
        let c = multiplier_user.get_char(i);
        proof {
            assert(b[i as int] == s[i as int]);
            assert(b.subrange(0, i as int + 1) =~= buf.push(b[i as int]));
            lemma_counts_nonneg(buf);
        }
        let u = c as u32;
        if (48 <= u && u <= 57) || c == '.' {
            proof {
                lemma_buf_push(buf, c);
                lemma_buf_shape(buf);
            }
            if c == '.' {
                if n_dots < 2 {
                    n_dots = n_dots + 1;
                }
            } else {
                if n_digits < 19 {
                    proof {
                        lemma_digits_val_bound(strip_dots(buf));
                        lemma_pow10_mono(strip_dots(buf).len() as int, 18);
                        lemma_pow10_19();
                        assert(pow10(19) == 10 * pow10(18));
                        assert(strip_dots(buf).push(c).drop_last() =~= strip_dots(buf));
                        assert(strip_dots(buf).push(c).last() == c);
                    }
                    d = d * 10 + ((u - 48) as u64);
                }
                if n_digits < 20 {
                    n_digits = n_digits + 1;
                }
                if n_dots >= 1 && frac < 20 {
                    frac = frac + 1;
                }
            }
            proof {
                buf = buf.push(c);
            }
        } else {
            proof {
                lemma_bad_char(b, i as int);
            }
            return Err(TrimsecError::InvalidMultiplierFormat);
        }
        i = i + 1;
    }
    proof {
        assert(b.subrange(0, blen as int) =~= b);
    }
    let valid = n_dots <= 1 && 1 <= n_digits && n_digits <= 19;
    if !valid {
        return Err(TrimsecError::InvalidMultiplierFormat);
    }
    proof {
        lemma_buf_shape(b);
        lemma_digits_val_bound(strip_dots(b));
        lemma_pow10_mono(strip_dots(b).len() as int, 19);
        lemma_pow10_19();
        lemma_pow10_pos(frac_len(b));
    }
    let den = pow10_u64(frac);
    if !(den <= d && (d as u128) < 100u128 * (den as u128)) {
        return Err(TrimsecError::MultiplierOutOfRange);
    }
    Ok(Multiplier { num: d, den })
}

} // verus!
