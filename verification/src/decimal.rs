//! Decimal digit strings: the mathematical meaning of a run of ASCII digits,
//! the canonical decimal rendering of a number, and the proof that rendering
//! followed by re-reading gives the number back. Shared by the duration
//! parser, the time formatter and the bank document codec.

use vstd::prelude::*;

verus! {

/// True of the ten ASCII digit characters `'0'` through `'9'`.
pub open spec fn is_digit(c: char) -> bool {
    48 <= c as u32 && c as u32 <= 57
}

/// Numeric value of an ASCII digit character.
pub open spec fn digit_val(c: char) -> int {
    c as u32 - 48
}

/// The digit character whose value is `d`, for `0 <= d <= 9`.
pub open spec fn digit_to_char(d: int) -> char {
    if d == 0 {
        '0'
    } else if d == 1 {
        '1'
    } else if d == 2 {
        '2'
    } else if d == 3 {
        '3'
    } else if d == 4 {
        '4'
    } else if d == 5 {
        '5'
    } else if d == 6 {
        '6'
    } else if d == 7 {
        '7'
    } else if d == 8 {
        '8'
    } else {
        '9'
    }
}

/// True if every character of `s` is an ASCII digit.
pub open spec fn all_digits(s: Seq<char>) -> bool {
    forall|i: int| 0 <= i < s.len() ==> is_digit(#[trigger] s[i])
}

/// The number written by a run of digits, most significant first; the empty
/// run denotes zero.
pub open spec fn digits_val(s: Seq<char>) -> int
    decreases s.len(),
{
    if s.len() == 0 {
        0
    } else {
        digits_val(s.drop_last()) * 10 + digit_val(s.last())
    }
}

/// Ten to the power `n` (and 1 for non-positive `n`).
pub open spec fn pow10(n: int) -> int
    decreases n,
{
    if n <= 0 {
        1
    } else {
        10 * pow10(n - 1)
    }
}

/// The canonical decimal rendering of a non-negative number: no sign, no
/// leading zeros except for the single digit `0` itself.
pub open spec fn spec_dec(n: int) -> Seq<char>
    decreases n,
{
    if n < 10 {
        seq![digit_to_char(n)]
    } else {
        spec_dec(n / 10).push(digit_to_char(n % 10))
    }
}

pub proof fn lemma_digit_char_val(d: int)
    requires
        0 <= d <= 9,
    ensures
        is_digit(digit_to_char(d)),
        digit_val(digit_to_char(d)) == d,
{
}

/// `pow10` is positive and weakly monotone.
pub proof fn lemma_pow10_pos(n: int)
    ensures
        pow10(n) >= 1,
    decreases n,
{
    if n > 0 {
        lemma_pow10_pos(n - 1);
    }
}

pub proof fn lemma_pow10_mono(a: int, b: int)
    requires
        a <= b,
    ensures
        pow10(a) <= pow10(b),
    decreases b,
{
    if a < b && b > 0 {
        lemma_pow10_mono(a, b - 1);
        lemma_pow10_pos(b - 1);
    }
}

/// A run of digits writes a number below `pow10` of its length.
pub proof fn lemma_digits_val_bound(s: Seq<char>)
    requires
        all_digits(s),
    ensures
        0 <= digits_val(s) < pow10(s.len() as int),
    decreases s.len(),
{
    if s.len() > 0 {
        assert(all_digits(s.drop_last()));
        lemma_digits_val_bound(s.drop_last());
        assert(is_digit(s.last()));
    }
}

/// The canonical rendering consists of digits and writes the number back:
/// reading `spec_dec(n)` as a digit run yields `n` again.
pub proof fn lemma_dec_val(n: int)
    requires
        n >= 0,
    ensures
        spec_dec(n).len() >= 1,
        all_digits(spec_dec(n)),
        digits_val(spec_dec(n)) == n,
    decreases n,
{
    if n < 10 {
        lemma_digit_char_val(n);
        let s = spec_dec(n);
        assert(s.drop_last() =~= Seq::<char>::empty());
        assert(digits_val(Seq::<char>::empty()) == 0);
        assert(s.last() == digit_to_char(n));
    } else {
        lemma_dec_val(n / 10);
        lemma_digit_char_val(n % 10);
        let s = spec_dec(n);
        assert(s.drop_last() =~= spec_dec(n / 10));
        assert(s.last() == digit_to_char(n % 10));
    }
}

/// A number below `pow10(k)` renders in at most `k` digits (for `k >= 1`).
pub proof fn lemma_dec_len(n: int, k: int)
    requires
        0 <= n < pow10(k),
        k >= 1,
    ensures
        spec_dec(n).len() <= k,
    decreases n,
{
    if n >= 10 {
        if k == 1 {
            reveal_with_fuel(pow10, 3);
            assert(false);
        }
        assert(pow10(k) == 10 * pow10(k - 1));
        lemma_dec_len(n / 10, k - 1);
    }
}

/// The single-character string for the digit of value `d`.
pub fn digit_str(d: u64) -> (r: &'static str)
    requires
        d <= 9,
    ensures
        r@ =~= seq![digit_to_char(d as int)],
{
    proof {
        reveal_strlit("0");
        reveal_strlit("1");
        reveal_strlit("2");
        reveal_strlit("3");
        reveal_strlit("4");
        reveal_strlit("5");
        reveal_strlit("6");
        reveal_strlit("7");
        reveal_strlit("8");
        reveal_strlit("9");
    }
    match d {
        0 => "0",
        1 => "1",
        2 => "2",
        3 => "3",
        4 => "4",
        5 => "5",
        6 => "6",
        7 => "7",
        8 => "8",
        _ => "9",
    }
}

/// Renders `n` as its canonical decimal string.
pub fn u64_to_dec(n: u64) -> (r: String)
    ensures
        r@ == spec_dec(n as int),
    decreases n,
{
    if n < 10 {
        String::from_str(digit_str(n))
    } else {
        let mut s = u64_to_dec(n / 10);
        s.append(digit_str(n % 10));
        proof {
            assert(spec_dec(n as int / 10) + seq![digit_to_char(n as int % 10)] =~= spec_dec(
                n as int / 10,
            ).push(digit_to_char(n as int % 10)));
        }
        s
    }
}

/// `pow10(19)` written out; it is the largest power of ten below `u64::MAX`.
pub proof fn lemma_pow10_19()
    ensures
        pow10(19) == 10000000000000000000,
{
    reveal_with_fuel(pow10, 21);
}

/// Ten to the power `f` as a machine integer; `pow10(19)` is the largest
/// power of ten that fits in a `u64`.
pub fn pow10_u64(f: u64) -> (r: u64)
    requires
        f <= 19,
    ensures
        r == pow10(f as int),
{
    let mut r: u64 = 1;
    let mut i: u64 = 0;
    while i < f
        invariant
            0 <= i <= f <= 19,
            r == pow10(i as int),
        decreases f - i,
    {
        proof {
            lemma_pow10_mono(i as int + 1, 19);
            lemma_pow10_19();
        }
        r = r * 10;
        i = i + 1;
    }
    r
}

} // verus!
