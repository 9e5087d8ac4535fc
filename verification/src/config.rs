//! The parsed configuration of one invocation — duration, multiplier and
//! split count — and the trim calculation itself.

use vstd::prelude::*;

use crate::decimal::pow10;
use crate::duration::parse_duration;
use crate::duration::spec_parse_duration;
use crate::errors::TrimsecError;
use crate::multiplier::parse_multiplier;
use crate::multiplier::spec_parse_multiplier;
use crate::multiplier::Multiplier;

verus! {

/// A validated invocation: total duration in whole seconds, the multiplier,
/// and the number of `+`-separated segments the duration was written as.
pub struct Config {
    pub duration: u64,
    pub multiplier: Multiplier,
    pub splits: i64,
}

impl Config {
    /// Validity: the multiplier is a well-formed fraction in `[1, 100)`.
    pub open spec fn wf(self) -> bool {
        self.multiplier.wf()
    }

    /// Parses a duration and a multiplier into a configuration. The
    /// duration is parsed first, so its error wins when both are bad.
    pub fn new(duration: &str, multiplier_user: &str) -> (r: Result<Config, TrimsecError>)
        ensures
            match spec_parse_duration(duration@) {
                Ok(p) => if p.0 <= u64::MAX && p.1 <= i64::MAX {
                    match spec_parse_multiplier(multiplier_user@) {
                        Ok(m) => r matches Ok(c) && c.duration == p.0 && c.splits == p.1
                            && c.multiplier.num == m.0 && c.multiplier.den == m.1 && c.wf(),
                        Err(e) => r == Err::<Config, TrimsecError>(e),
                    }
                } else {
                    r == Err::<Config, TrimsecError>(TrimsecError::InvalidDurationFormat)
                },
                Err(e) => r == Err::<Config, TrimsecError>(e),
            },
    {
        proof {
            crate::duration::lemma_parse_duration_nonneg(duration@);
            crate::multiplier::lemma_parse_multiplier_wf(multiplier_user@);
            crate::decimal::lemma_pow10_19();
        }
        let duration_tuple = match parse_duration(duration) {
            Ok(t) => t,
            Err(e) => {
                return Err(e);
            },
        };
        let multiplier_value = match parse_multiplier(multiplier_user) {
            Ok(m) => m,
            Err(e) => {
                return Err(e);
            },
        };
        Ok(Config { duration: duration_tuple.0, multiplier: multiplier_value, splits: duration_tuple.1 })
    }
}

/// The trimmed duration: `total / (num / den)`, that is `total * den / num`,
/// truncated to whole seconds.
pub open spec fn spec_trimmed(total: int, num: int, den: int) -> int {
    total * den / num
}

/// Applies the multiplier: returns the new (trimmed) duration, the time
/// saved, and the split count, unchanged. The new duration never exceeds
/// the old one, and the two results add back up to it exactly.
pub fn trim(config: Config) -> (r: Result<(u64, u64, i64), TrimsecError>)
    requires
        config.wf(),
    ensures
        r matches Ok(t) && t.0 == spec_trimmed(
            config.duration as int,
            config.multiplier.num as int,
            config.multiplier.den as int,
        ) && t.0 <= config.duration && t.1 == config.duration - t.0 && t.2 == config.splits,
{
    let total = config.duration;
    let num = config.multiplier.num;
    let den = config.multiplier.den;
    proof {
        crate::decimal::lemma_pow10_19();
        vstd::arithmetic::mul::lemma_mul_upper_bound(
            total as int,
            u64::MAX as int,
            den as int,
            pow10(19),
        );
        vstd::arithmetic::div_mod::lemma_div_is_ordered_by_denominator(
            (total as int) * (den as int),
            den as int,
            num as int,
        );
        vstd::arithmetic::div_mod::lemma_div_multiples_vanish(total as int, den as int);
        vstd::arithmetic::mul::lemma_mul_is_commutative(total as int, den as int);
    }
    let prod: u128 = (total as u128) * (den as u128);
    let new_duration: u64 = (prod / (num as u128)) as u64;
    let saved_time: u64 = total - new_duration;
    Ok((new_duration, saved_time, config.splits))
}

} // verus!
