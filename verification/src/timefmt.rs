//! The time formatter: seconds to a compound unit string such as `1d1h1m1s`.
//!
//! Only non-zero components appear, largest unit first, so zero seconds
//! formats as the empty string. The round-trip law at the bottom shows that
//! re-parsing a formatted string with the duration parser gives the exact
//! second count back, in a single segment — the empty string included, which
//! the parser reads as zero seconds.

use vstd::prelude::*;

use crate::decimal::all_digits;
use crate::decimal::is_digit;
use crate::decimal::lemma_dec_len;
use crate::decimal::lemma_dec_val;
use crate::decimal::lemma_pow10_19;
use crate::decimal::pow10;
use crate::decimal::spec_dec;
use crate::decimal::u64_to_dec;
use crate::duration::contribution;
use crate::duration::digit_count;
use crate::duration::dot_count;
use crate::duration::frac_len;
use crate::duration::is_unit;
use crate::duration::lemma_scan_run_append;
use crate::duration::num_ok;
use crate::duration::scan_init;
use crate::duration::scan_run;
use crate::duration::scan_step;
use crate::duration::spec_parse_duration;
use crate::duration::strip_dots;
use crate::duration::unit_secs;
use crate::errors::TrimsecError;

verus! {

/// One formatted component: the decimal value followed by its unit letter,
/// or nothing when the value is zero.
pub open spec fn spec_part(v: int, u: char) -> Seq<char> {
    if v == 0 {
        Seq::empty()
    } else {
        spec_dec(v).push(u)
    }
}

/// The formatted rendering of `t` seconds: days, hours, minutes and seconds
/// components, each omitted when zero.
pub open spec fn spec_format(t: int) -> Seq<char> {
    spec_part(t / 86400, 'd') + spec_part(t % 86400 / 3600, 'h') + spec_part(t % 3600 / 60, 'm')
        + spec_part(t % 60, 's')
}

/// Formats a second count as a compound unit string, exactly as
/// `spec_format` describes; zero formats as the empty string.
pub fn parse_time(time: u64) -> (r: String)
    ensures
        r@ == spec_format(time as int),
{
    let days: u64 = time / 86400;
    let hours: u64 = (time % 86400) / 3600;
    let minutes: u64 = (time % 3600) / 60;
    let seconds: u64 = time % 60;
    let mut out = String::new();
    proof {
        reveal_strlit("d");
        reveal_strlit("h");
        reveal_strlit("m");
        reveal_strlit("s");
    }
    if days != 0 {
        let ds = u64_to_dec(days);
        out.append(ds.as_str());
        out.append("d");
        proof {
            assert(out@ =~= spec_part(days as int, 'd'));
        }
    }
    proof {
        assert(out@ =~= spec_part(time as int / 86400, 'd'));
    }
    if hours != 0 {
        let hs = u64_to_dec(hours);
        out.append(hs.as_str());
        out.append("h");
    }
    proof {
        assert(out@ =~= spec_part(time as int / 86400, 'd') + spec_part(
            time as int % 86400 / 3600,
            'h',
        ));
    }
    if minutes != 0 {
        let ms = u64_to_dec(minutes);
        out.append(ms.as_str());
        out.append("m");
    }
    proof {
        assert(out@ =~= spec_part(time as int / 86400, 'd') + spec_part(
            time as int % 86400 / 3600,
            'h',
        ) + spec_part(time as int % 3600 / 60, 'm'));
    }
    if seconds != 0 {
        let ss = u64_to_dec(seconds);
        out.append(ss.as_str());
        out.append("s");
    }
    proof {
        assert(out@ =~= spec_format(time as int));
    }
    out
}

/// A run of digit characters has no dots: it is its own digit content, with
/// no fractional part.
proof fn lemma_digit_run(ds: Seq<char>)
    requires
        all_digits(ds),
    ensures
        digit_count(ds) == ds.len(),
        dot_count(ds) == 0,
        strip_dots(ds) =~= ds,
        frac_len(ds) == 0,
    decreases ds.len(),
{
    if ds.len() > 0 {
        assert(is_digit(ds[0]));
        assert(ds[0] != '.');
        assert(all_digits(ds.drop_first()));
        lemma_digit_run(ds.drop_first());
        assert(strip_dots(ds) =~= seq![ds[0]] + ds.drop_first());
        assert(seq![ds[0]] + ds.drop_first() =~= ds);
    }
}

/// Scanning a run of digits from an empty buffer just fills the buffer.
proof fn lemma_scan_digits(t: int, k: int, b: Seq<char>, ds: Seq<char>)
    requires
        all_digits(ds),
    ensures
        scan_run((b, t, k), ds) == Ok::<_, TrimsecError>((b + ds, t, k)),
    decreases ds.len(),
{
    if ds.len() == 0 {
        assert(b + ds =~= b);
    } else {
        assert(is_digit(ds[0]));
        assert(!crate::duration::is_space(ds[0]));
        assert(ds[0] != '+');
        assert(scan_step((b, t, k), ds[0]) == Ok::<_, TrimsecError>((b.push(ds[0]), t, k)));
        assert(all_digits(ds.drop_first()));
        lemma_scan_digits(t, k, b.push(ds[0]), ds.drop_first());
        assert(b.push(ds[0]) + ds.drop_first() =~= b + ds);
    }
}

/// Scanning one formatted component adds exactly its value times its unit
/// to the running total and leaves the buffer empty.
proof fn lemma_scan_part(t: int, k: int, v: int, u: char)
    requires
        0 <= v < pow10(19),
        is_unit(u),
    ensures
        scan_run((Seq::<char>::empty(), t, k), spec_part(v, u)) == Ok::<_, TrimsecError>(
            (Seq::<char>::empty(), t + v * unit_secs(u), k),
        ),
{
    if v == 0 {
        assert(scan_run((Seq::<char>::empty(), t, k), Seq::<char>::empty()) == Ok::<
            _,
            TrimsecError,
        >((Seq::<char>::empty(), t, k)));
    } else {
        let ds = spec_dec(v);
        lemma_dec_val(v);
        lemma_dec_len(v, 19);
        lemma_digit_run(ds);
        assert(spec_part(v, u) =~= ds + seq![u]);
        lemma_scan_digits(t, k, Seq::<char>::empty(), ds);
        assert(Seq::<char>::empty() + ds =~= ds);
        lemma_scan_run_append((Seq::<char>::empty(), t, k), ds, seq![u]);
        // the unit step: the buffer is a well-formed literal, `u` a unit
        assert(!is_digit(u) && u != '.' && !crate::duration::is_space(u) && u != '+');
        assert(num_ok(ds));
        assert(contribution(ds, u) == v * unit_secs(u) / pow10(0)) by {
            assert(strip_dots(ds) =~= ds);
            assert(frac_len(ds) == 0);
        }
        assert(pow10(0) == 1);
        assert(v * unit_secs(u) / 1 == v * unit_secs(u));
        assert(scan_step((ds, t, k), u) == Ok::<_, TrimsecError>(
            (Seq::<char>::empty(), t + v * unit_secs(u), k),
        ));
        assert(seq![u].drop_first() =~= Seq::<char>::empty());
        assert(seq![u] =~= Seq::<char>::empty().push(u));
        assert(Seq::<char>::empty().push(u)[0] == u);
        assert(seq![u][0] == u);
        assert(scan_run((Seq::<char>::empty(), t + v * unit_secs(u), k), seq![u].drop_first())
            == Ok::<_, TrimsecError>((Seq::<char>::empty(), t + v * unit_secs(u), k)));
        assert(scan_run((ds, t, k), seq![u]) == Ok::<_, TrimsecError>(
            (Seq::<char>::empty(), t + v * unit_secs(u), k),
        ));
    }
}

/// Round trip: re-parsing a formatted second count with the duration parser
/// reconstructs the count exactly, as a single segment. This holds for every
/// `u64`, including zero, whose rendering is the empty string.
pub proof fn lemma_format_then_parse(t: u64)
    ensures
        spec_parse_duration(spec_format(t as int)) == Ok::<(int, int), TrimsecError>(
            (t as int, 1int),
        ),
{
    let ti = t as int;
    let d = ti / 86400;
    let r1 = ti % 86400;
    let h = r1 / 3600;
    let r1b = r1 % 3600;
    let m = r1b / 60;
    let r2 = r1b % 60;
    vstd::arithmetic::div_mod::lemma_fundamental_div_mod(ti, 86400);
    vstd::arithmetic::div_mod::lemma_mod_bound(ti, 86400);
    vstd::arithmetic::div_mod::lemma_fundamental_div_mod(r1, 3600);
    vstd::arithmetic::div_mod::lemma_mod_bound(r1, 3600);
    vstd::arithmetic::div_mod::lemma_fundamental_div_mod(r1b, 60);
    vstd::arithmetic::div_mod::lemma_mod_bound(r1b, 60);
    // the mixed decomposition used by the formatter agrees with the chained one
    vstd::arithmetic::div_mod::lemma_fundamental_div_mod_converse_mod(
        ti,
        3600,
        24 * d + h,
        r1b,
    );
    vstd::arithmetic::div_mod::lemma_fundamental_div_mod_converse_mod(
        ti,
        60,
        1440 * d + 60 * h + m,
        r2,
    );
    assert(ti % 3600 == r1b);
    assert(ti % 60 == r2);
    assert(ti == 86400 * d + 3600 * h + 60 * m + r2);
    // bounds: every component fits in 19 digits
    lemma_pow10_19();
    vstd::arithmetic::div_mod::lemma_div_is_ordered(ti, u64::MAX as int, 86400);
    assert(d < pow10(19));
    assert(h < 24 && m < 60 && r2 < 60);
    let pd = spec_part(d, 'd');
    let ph = spec_part(h, 'h');
    let pm = spec_part(m, 'm');
    let ps = spec_part(r2, 's');
    lemma_scan_part(0, 0, d, 'd');
    lemma_scan_part(86400 * d, 0, h, 'h');
    lemma_scan_part(86400 * d + 3600 * h, 0, m, 'm');
    lemma_scan_part(86400 * d + 3600 * h + 60 * m, 0, r2, 's');
    lemma_scan_run_append(scan_init(), pd, ph + (pm + ps));
    lemma_scan_run_append((Seq::<char>::empty(), 86400 * d, 0), ph, pm + ps);
    lemma_scan_run_append((Seq::<char>::empty(), 86400 * d + 3600 * h, 0), pm, ps);
    assert(spec_format(ti) =~= pd + (ph + (pm + ps)));
    assert(scan_run(scan_init(), spec_format(ti)) == Ok::<_, TrimsecError>(
        (Seq::<char>::empty(), ti, 0int),
    ));
}

} // verus!
