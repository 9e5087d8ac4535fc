//! The persisted bank document: a JSON object of the fixed shape
//! `{"entries":[{"date":"YYYY-MM-DD","saved_time":N},...]}`.
//!
//! The grammar below is this crate's own definition of that document.
//! Reading accepts ASCII whitespace between tokens and an optional (ignored)
//! fractional part on `saved_time`, so documents written by earlier versions
//! of the tool are read back; date strings may hold any characters except
//! control characters, `"` and `\`. Writing emits the canonical compact
//! form. The round-trip law at the bottom shows that a written bank reads
//! back with exactly the same entries.

use vstd::prelude::*;

use crate::decimal::digits_val;
use crate::decimal::is_digit;
use crate::decimal::lemma_dec_val;
use crate::decimal::spec_dec;
use crate::decimal::u64_to_dec;
use crate::duration::is_space;
use crate::errors::TrimsecError;
use crate::time_bank::bank_model;
use crate::time_bank::entries_model;
use crate::time_bank::entry_model;
use crate::time_bank::wf_model;
use crate::time_bank::BankEntry;
use crate::time_bank::TimeBank;

verus! {

/// A character that may stand unescaped inside a JSON string: anything but
/// control characters, the quote and the backslash.
pub open spec fn plain_char(c: char) -> bool {
    c != '"' && c != '\\' && c as u32 >= 32
}

/// A bank model whose dates can stand in the document without escaping.
pub open spec fn dates_plain(m: Seq<(Seq<char>, int)>) -> bool {
    forall|i: int, k: int|
        0 <= i < m.len() && 0 <= k < (#[trigger] m[i]).0.len() ==> plain_char(#[trigger] m[i].0[k])
}

/// True if position `i` of `s` holds character `c`.
pub open spec fn at(s: Seq<char>, i: int, c: char) -> bool {
    0 <= i < s.len() && s[i] == c
}

/// The first position at or after `i` that is not ASCII whitespace.
pub open spec fn skip_ws(s: Seq<char>, i: int) -> int
    decreases s.len() - i,
{
    if 0 <= i < s.len() && is_space(s[i]) {
        skip_ws(s, i + 1)
    } else {
        i
    }
}

/// The end of the digit run starting at `i`.
pub open spec fn scan_digits(s: Seq<char>, i: int) -> int
    decreases s.len() - i,
{
    if 0 <= i < s.len() && is_digit(s[i]) {
        scan_digits(s, i + 1)
    } else {
        i
    }
}

/// The end of the run of plain string characters starting at `i`.
pub open spec fn scan_plain(s: Seq<char>, i: int) -> int
    decreases s.len() - i,
{
    if 0 <= i < s.len() && plain_char(s[i]) {
        scan_plain(s, i + 1)
    } else {
        i
    }
}

/// Consumes the exact token `tok` at position `i`.
pub open spec fn expect(s: Seq<char>, i: int, tok: Seq<char>) -> Option<int> {
    if 0 <= i && i + tok.len() <= s.len() && s.subrange(i, i + tok.len()) == tok {
        Some(i + tok.len())
    } else {
        None
    }
}

/// A JSON number at `i`: a digit run (whose value must fit in a `u64`),
/// optionally followed by a point and a non-empty digit run, which is read
/// and discarded — saved times are whole seconds.
pub open spec fn parse_number(s: Seq<char>, i: int) -> Option<(int, int)> {
    let e1 = scan_digits(s, i);
    if e1 == i {
        None
    } else if digits_val(s.subrange(i, e1)) > u64::MAX {
        None
    } else if e1 < s.len() && s[e1] == '.' {
        let e2 = scan_digits(s, e1 + 1);
        if e2 == e1 + 1 {
            None
        } else {
            Some((digits_val(s.subrange(i, e1)), e2))
        }
    } else {
        Some((digits_val(s.subrange(i, e1)), e1))
    }
}

/// A JSON string of plain characters at `i`, quotes included.
pub open spec fn parse_string(s: Seq<char>, i: int) -> Option<(Seq<char>, int)> {
    if !at(s, i, '"') {
        None
    } else {
        let e = scan_plain(s, i + 1);
        if e < s.len() && s[e] == '"' {
            Some((s.subrange(i + 1, e), e + 1))
        } else {
            None
        }
    }
}

/// One entry object at `i`: `{"date": <string>, "saved_time": <number>}`,
/// with optional whitespace between tokens.
pub open spec fn parse_entry(s: Seq<char>, i: int) -> Option<((Seq<char>, int), int)> {
    if !at(s, i, '{') {
        None
    } else {
        let i1 = skip_ws(s, i + 1);
        match expect(s, i1, "\"date\""@) {
            None => None,
            Some(i2) => {
                let i3 = skip_ws(s, i2);
                if !at(s, i3, ':') {
                    None
                } else {
                    let i4 = skip_ws(s, i3 + 1);
                    match parse_string(s, i4) {
                        None => None,
                        Some((d, i5)) => {
                            let i6 = skip_ws(s, i5);
                            if !at(s, i6, ',') {
                                None
                            } else {
                                let i7 = skip_ws(s, i6 + 1);
                                match expect(s, i7, "\"saved_time\""@) {
                                    None => None,
                                    Some(i8) => {
                                        let i9 = skip_ws(s, i8);
                                        if !at(s, i9, ':') {
                                            None
                                        } else {
                                            let i10 = skip_ws(s, i9 + 1);
                                            match parse_number(s, i10) {
                                                None => None,
                                                Some((v, i11)) => {
                                                    let i12 = skip_ws(s, i11);
                                                    if !at(s, i12, '}') {
                                                        None
                                                    } else {
                                                        Some(((d, v), i12 + 1))
                                                    }
                                                },
                                            }
                                        }
                                    },
                                }
                            }
                        },
                    }
                }
            },
        }
    }
}

/// A non-empty comma-separated entry list starting at `i`; the returned
/// position is the first non-whitespace position after the last entry.
pub open spec fn parse_list(s: Seq<char>, i: int) -> Option<(Seq<(Seq<char>, int)>, int)>
    decreases s.len() - i,
{
    match parse_entry(s, i) {
        None => None,
        Some((e, j)) => {
            let k = skip_ws(s, j);
            if at(s, k, ',') {
                let k2 = skip_ws(s, k + 1);
                if k2 <= i || k2 > s.len() {
                    None
                } else {
                    match parse_list(s, k2) {
                        None => None,
                        Some((m2, jj)) => Some((seq![e] + m2, jj)),
                    }
                }
            } else {
                Some((seq![e], k))
            }
        },
    }
}

/// The whole bank document. The result is the bank's model; `None` is a
/// malformed document.
pub open spec fn spec_parse_bank(s: Seq<char>) -> Option<Seq<(Seq<char>, int)>> {
    let i0 = skip_ws(s, 0);
    if !at(s, i0, '{') {
        None
    } else {
        let i1 = skip_ws(s, i0 + 1);
        match expect(s, i1, "\"entries\""@) {
            None => None,
            Some(i2) => {
                let i3 = skip_ws(s, i2);
                if !at(s, i3, ':') {
                    None
                } else {
                    let i4 = skip_ws(s, i3 + 1);
                    if !at(s, i4, '[') {
                        None
                    } else {
                        let i5 = skip_ws(s, i4 + 1);
                        if at(s, i5, ']') {
                            let i6 = skip_ws(s, i5 + 1);
                            if at(s, i6, '}') && skip_ws(s, i6 + 1) == s.len() {
                                Some(Seq::empty())
                            } else {
                                None
                            }
                        } else {
                            match parse_list(s, i5) {
                                None => None,
                                Some((m, j)) => {
                                    if at(s, j, ']') {
                                        let i6 = skip_ws(s, j + 1);
                                        if at(s, i6, '}') && skip_ws(s, i6 + 1) == s.len() {
                                            Some(m)
                                        } else {
                                            None
                                        }
                                    } else {
                                        None
                                    }
                                },
                            }
                        }
                    }
                }
            },
        }
    }
}

/// Positions produced by `skip_ws` stay within the text, and everything
/// skipped was whitespace.
pub proof fn lemma_skip_ws_range(s: Seq<char>, i: int)
    requires
        0 <= i <= s.len(),
    ensures
        i <= skip_ws(s, i) <= s.len(),
        skip_ws(s, i) < s.len() ==> !is_space(s[skip_ws(s, i)]),
        forall|k: int| i <= k < skip_ws(s, i) ==> is_space(#[trigger] s[k]),
    decreases s.len() - i,
{
    if i < s.len() && is_space(s[i]) {
        lemma_skip_ws_range(s, i + 1);
    }
}

/// Positions produced by `scan_digits` stay within the text; the run is all
/// digits and maximal.
pub proof fn lemma_scan_digits_range(s: Seq<char>, i: int)
    requires
        0 <= i <= s.len(),
    ensures
        i <= scan_digits(s, i) <= s.len(),
        scan_digits(s, i) < s.len() ==> !is_digit(s[scan_digits(s, i)]),
        forall|k: int| i <= k < scan_digits(s, i) ==> is_digit(#[trigger] s[k]),
    decreases s.len() - i,
{
    if i < s.len() && is_digit(s[i]) {
        lemma_scan_digits_range(s, i + 1);
    }
}

/// Positions produced by `scan_plain` stay within the text; the run is all
/// plain characters and maximal.
pub proof fn lemma_scan_plain_range(s: Seq<char>, i: int)
    requires
        0 <= i <= s.len(),
    ensures
        i <= scan_plain(s, i) <= s.len(),
        scan_plain(s, i) < s.len() ==> !plain_char(s[scan_plain(s, i)]),
        forall|k: int| i <= k < scan_plain(s, i) ==> plain_char(#[trigger] s[k]),
    decreases s.len() - i,
{
    if i < s.len() && plain_char(s[i]) {
        lemma_scan_plain_range(s, i + 1);
    }
}

/// A parsed number ends after where it starts, within the text.
pub proof fn lemma_parse_number_range(s: Seq<char>, i: int)
    requires
        0 <= i <= s.len(),
    ensures
        parse_number(s, i) matches Some(p) ==> i < p.1 <= s.len() && 0 <= p.0 <= u64::MAX,
{
    lemma_scan_digits_range(s, i);
    let e1 = scan_digits(s, i);
    if e1 != i && digits_val(s.subrange(i, e1)) <= u64::MAX && e1 < s.len() && s[e1] == '.' {
        lemma_scan_digits_range(s, e1 + 1);
    }
    if e1 != i {
        crate::decimal::lemma_digits_val_bound(s.subrange(i, e1));
    }
}

/// A parsed string ends after where it starts, within the text.
pub proof fn lemma_parse_string_range(s: Seq<char>, i: int)
    requires
        0 <= i <= s.len(),
    ensures
        parse_string(s, i) matches Some(p) ==> i < p.1 <= s.len(),
{
    if at(s, i, '"') {
        lemma_scan_plain_range(s, i + 1);
    }
}

/// A parsed entry ends after where it starts, within the text, and its
/// saved time lies in the `u64` range.
pub proof fn lemma_parse_entry_range(s: Seq<char>, i: int)
    requires
        0 <= i <= s.len(),
    ensures
        parse_entry(s, i) matches Some(p) ==> i < p.1 <= s.len() && 0 <= p.0.1 <= u64::MAX,
{
    if at(s, i, '{') {
        lemma_skip_ws_range(s, i + 1);
        let i1 = skip_ws(s, i + 1);
        match expect(s, i1, "\"date\""@) {
            None => {},
            Some(i2) => {
                lemma_skip_ws_range(s, i2);
                let i3 = skip_ws(s, i2);
                if at(s, i3, ':') {
                    lemma_skip_ws_range(s, i3 + 1);
                    let i4 = skip_ws(s, i3 + 1);
                    lemma_parse_string_range(s, i4);
                    match parse_string(s, i4) {
                        None => {},
                        Some((d, i5)) => {
                            lemma_skip_ws_range(s, i5);
                            let i6 = skip_ws(s, i5);
                            if at(s, i6, ',') {
                                lemma_skip_ws_range(s, i6 + 1);
                                let i7 = skip_ws(s, i6 + 1);
                                match expect(s, i7, "\"saved_time\""@) {
                                    None => {},
                                    Some(i8) => {
                                        lemma_skip_ws_range(s, i8);
                                        let i9 = skip_ws(s, i8);
                                        if at(s, i9, ':') {
                                            lemma_skip_ws_range(s, i9 + 1);
                                            let i10 = skip_ws(s, i9 + 1);
                                            lemma_parse_number_range(s, i10);
                                            match parse_number(s, i10) {
                                                None => {},
                                                Some((v, i11)) => {
                                                    lemma_skip_ws_range(s, i11);
                                                },
                                            }
                                        }
                                    },
                                }
                            }
                        },
                    }
                }
            },
        }
    }
}

/// Advances past ASCII whitespace.
fn skip_ws_x(s: &str, i: usize) -> (r: usize)
    requires
        i <= s@.len(),
    ensures
        r == skip_ws(s@, i as int),
        i <= r <= s@.len(),
{
    let len = s.unicode_len();
    let mut j = i;
    while j < len
        invariant
            i <= j <= len,
            len == s@.len(),
            skip_ws(s@, i as int) == skip_ws(s@, j as int),
        decreases len - j,
    {
        let c = s.get_char(j);
        if c == ' ' || c == '\t' || c == '\n' || c == '\r' || c == '\u{c}' {
            j = j + 1;
        } else {
            proof {
                assert(!is_space(s@[j as int]));
                assert(skip_ws(s@, j as int) == j as int);
            }
            return j;
        }
    }
    proof {
        assert(skip_ws(s@, j as int) == j as int);
    }
    j
}

/// Advances past a digit run.
fn scan_digits_x(s: &str, i: usize) -> (r: usize)
    requires
        i <= s@.len(),
    ensures
        r == scan_digits(s@, i as int),
        i <= r <= s@.len(),
{
    let len = s.unicode_len();
    let mut j = i;
    while j < len
        invariant
            i <= j <= len,
            len == s@.len(),
            scan_digits(s@, i as int) == scan_digits(s@, j as int),
        decreases len - j,
    {
        let c = s.get_char(j);
        let u = c as u32;
        if 48 <= u && u <= 57 {
            j = j + 1;
        } else {
            proof {
                assert(!is_digit(s@[j as int]));
                assert(scan_digits(s@, j as int) == j as int);
            }
            return j;
        }
    }
    proof {
        assert(scan_digits(s@, j as int) == j as int);
    }
    j
}

/// Advances past a run of plain string characters.
fn scan_plain_x(s: &str, i: usize) -> (r: usize)
    requires
        i <= s@.len(),
    ensures
        r == scan_plain(s@, i as int),
        i <= r <= s@.len(),
{
    let len = s.unicode_len();
    let mut j = i;
    while j < len
        invariant
            i <= j <= len,
            len == s@.len(),
            scan_plain(s@, i as int) == scan_plain(s@, j as int),
        decreases len - j,
    {
        let c = s.get_char(j);
        let u = c as u32;
        if c != '"' && c != '\\' && u >= 32 {
            j = j + 1;
        } else {
            proof {
                assert(!plain_char(s@[j as int]));
                assert(scan_plain(s@, j as int) == j as int);
            }
            return j;
        }
    }
    proof {
        assert(scan_plain(s@, j as int) == j as int);
    }
    j
}

/// Consumes the exact token `tok` at position `i`.
fn eat_x(s: &str, i: usize, tok: &str) -> (r: Option<usize>)
    requires
        i <= s@.len(),
    ensures
        match expect(s@, i as int, tok@) {
            Some(j) => r matches Some(jj) && jj == j,
            None => r is None,
        },
{
    let len = s.unicode_len();
    let tlen = tok.unicode_len();
    if len - i < tlen {
        return None;
    }
    let mut k: usize = 0;
    while k < tlen
        invariant
            0 <= k <= tlen,
            i + tlen <= len,
            len == s@.len(),
            tlen == tok@.len(),
            forall|j2: int| 0 <= j2 < k ==> s@[i + j2] == tok@[j2],
        decreases tlen - k,
    {
        let cs = s.get_char(i + k);
        let ct = tok.get_char(k);
        if cs != ct {
            proof {
                if s@.subrange(i as int, i as int + tok@.len() as int) == tok@ {
                    assert(s@.subrange(i as int, i as int + tok@.len() as int)[k as int]
                        == s@[i as int + k as int]);
                }
            }
            return None;
        }
        k = k + 1;
    }
    proof {
        assert(s@.subrange(i as int, i as int + tok@.len() as int) =~= tok@);
    }
    Some(i + tlen)
}

/// Whether character `c` stands at position `i`.
fn at_x(s: &str, i: usize, c: char) -> (r: bool)
    requires
        i <= s@.len(),
    ensures
        r == at(s@, i as int, c),
{
    if i < s.unicode_len() {
        s.get_char(i) == c
    } else {
        false
    }
}

/// Reads a JSON number, exactly as `parse_number` describes.
fn parse_number_x(s: &str, i: usize) -> (r: Option<(u64, usize)>)
    requires
        i <= s@.len(),
    ensures
        match parse_number(s@, i as int) {
            Some(p) => r matches Some(q) && q.0 == p.0 && q.1 == p.1,
            None => r is None,
        },
{
    let len = s.unicode_len();
    let e1 = scan_digits_x(s, i);
    if e1 == i {
        return None;
    }
    proof {
        lemma_scan_digits_range(s@, i as int);
    }
    // accumulate the integer part's value, detecting overflow exactly
    let mut v: u64 = 0;
    let mut big = false;
    let mut k = i;
    proof {
        assert(s@.subrange(i as int, i as int) =~= Seq::<char>::empty());
    }
    while k < e1
        invariant
            i <= k <= e1 <= len,
            len == s@.len(),
            forall|j2: int| i <= j2 < e1 ==> is_digit(#[trigger] s@[j2]),
            big == (digits_val(s@.subrange(i as int, k as int)) > u64::MAX),
            !big ==> v == digits_val(s@.subrange(i as int, k as int)),
        decreases e1 - k,
    {
        let c = s.get_char(k);
        let d = (c as u32 - 48) as u64;
        proof {
            assert(is_digit(s@[k as int]));
            assert(s@.subrange(i as int, k as int + 1) =~= s@.subrange(i as int, k as int).push(
                s@[k as int],
            ));
            assert(s@.subrange(i as int, k as int).push(s@[k as int]).drop_last() =~= s@.subrange(
                i as int,
                k as int,
            ));
            crate::decimal::lemma_digits_val_bound(s@.subrange(i as int, k as int));
        }
        if big {
            proof {
                let old_val = digits_val(s@.subrange(i as int, k as int));
                assert(old_val * 10 >= old_val) by (nonlinear_arith)
                    requires
                        old_val >= 0,
                ;
            }
        } else {
            let w: u128 = (v as u128) * 10 + (d as u128);
            if w > u64::MAX as u128 {
                big = true;
            } else {
                v = w as u64;
            }
        }
        k = k + 1;
    }
    if big {
        return None;
    }
    // optional fraction: read and discard
    if e1 < len {
        let c = s.get_char(e1);
        if c == '.' {
            let e2 = scan_digits_x(s, e1 + 1);
            if e2 == e1 + 1 {
                return None;
            }
            return Some((v, e2));
        }
    }
    Some((v, e1))
}

/// Reads a JSON string of plain characters, exactly as `parse_string`
/// describes.
fn parse_string_x(s: &str, i: usize) -> (r: Option<(String, usize)>)
    requires
        i <= s@.len(),
    ensures
        match parse_string(s@, i as int) {
            Some(p) => r matches Some(q) && q.0@ == p.0 && q.1 == p.1,
            None => r is None,
        },
{
    let len = s.unicode_len();
    if !at_x(s, i, '"') {
        return None;
    }
    let e = scan_plain_x(s, i + 1);
    if e < len {
        let c = s.get_char(e);
        if c == '"' {
            let sub = s.substring_char(i + 1, e);
            return Some((String::from_str(sub), e + 1));
        }
    }
    None
}

/// Reads one entry object, exactly as `parse_entry` describes.
fn parse_entry_x(s: &str, i: usize) -> (r: Option<(BankEntry, usize)>)
    requires
        i <= s@.len(),
    ensures
        match parse_entry(s@, i as int) {
            Some(p) => r matches Some(q) && entry_model(q.0) == p.0 && q.1 == p.1,
            None => r is None,
        },
{
    let len = s.unicode_len();
    if !at_x(s, i, '{') {
        return None;
    }
    let i1 = skip_ws_x(s, i + 1);
    let i2 = match eat_x(s, i1, "\"date\"") {
        Some(j) => j,
        None => {
            proof {
                reveal_strlit("\"date\"");
            }
            return None;
        },
    };
    proof {
        reveal_strlit("\"date\"");
        assert(expect(s@, i1 as int, "\"date\""@) == Some(i2 as int));
    }
    let i3 = skip_ws_x(s, i2);
    if !at_x(s, i3, ':') {
        return None;
    }
    let i4 = skip_ws_x(s, i3 + 1);
    let (date, i5) = match parse_string_x(s, i4) {
        Some(q) => q,
        None => {
            return None;
        },
    };
    proof {
        lemma_parse_string_range(s@, i4 as int);
    }
    let i6 = skip_ws_x(s, i5);
    if !at_x(s, i6, ',') {
        return None;
    }
    let i7 = skip_ws_x(s, i6 + 1);
    let i8 = match eat_x(s, i7, "\"saved_time\"") {
        Some(j) => j,
        None => {
            proof {
                reveal_strlit("\"saved_time\"");
            }
            return None;
        },
    };
    proof {
        reveal_strlit("\"saved_time\"");
        assert(expect(s@, i7 as int, "\"saved_time\""@) == Some(i8 as int));
    }
    let i9 = skip_ws_x(s, i8);
    if !at_x(s, i9, ':') {
        return None;
    }
    let i10 = skip_ws_x(s, i9 + 1);
    let (v, i11) = match parse_number_x(s, i10) {
        Some(q) => q,
        None => {
            return None;
        },
    };
    proof {
        lemma_parse_number_range(s@, i10 as int);
    }
    let i12 = skip_ws_x(s, i11);
    if !at_x(s, i12, '}') {
        return None;
    }
    Some((BankEntry { date, saved_time: v }, i12 + 1))
}

/// Reads a non-empty comma-separated entry list, exactly as `parse_list`
/// describes.
fn parse_list_x(s: &str, i: usize) -> (r: Option<(Vec<BankEntry>, usize)>)
    requires
        i <= s@.len(),
    ensures
        match parse_list(s@, i as int) {
            Some(p) => r matches Some(q) && entries_model(q.0@) == p.0 && q.1 == p.1,
            None => r is None,
        },
{
    let len = s.unicode_len();
    let mut acc: Vec<BankEntry> = Vec::new();
    let mut cur = i;
    proof {
        assert(entries_model(acc@) =~= Seq::<(Seq<char>, int)>::empty());
    }
    loop
        invariant
            s@.len() <= usize::MAX,
            cur <= s@.len(),
            match parse_list(s@, i as int) {
                Some(p) => parse_list(s@, cur as int) matches Some(p2) && p.0 == entries_model(
                    acc@,
                ) + p2.0 && p.1 == p2.1,
                None => parse_list(s@, cur as int) is None,
            },
        decreases s@.len() - cur,
    {
        let ghost m0 = entries_model(acc@);
        let (e, j) = match parse_entry_x(s, cur) {
            Some(q) => q,
            None => {
                return None;
            },
        };
        proof {
            lemma_parse_entry_range(s@, cur as int);
        }
        let k = skip_ws_x(s, j);
        acc.push(e);
        proof {
            assert(entries_model(acc@) =~= m0 + seq![entry_model(e)]);
        }
        if at_x(s, k, ',') {
            let k2 = skip_ws_x(s, k + 1);
            if k2 <= cur {
                return None;
            }
            proof {
                assert(forall|m2: Seq<(Seq<char>, int)>|
                    m0 + (seq![entry_model(e)] + m2) == (m0 + seq![entry_model(e)]) + m2) by {
                    assert(forall|m2: Seq<(Seq<char>, int)>|
                        m0 + (seq![entry_model(e)] + m2) =~= (m0 + seq![entry_model(e)]) + m2);
                }
            }
            cur = k2;
        } else {
            proof {
                assert(entries_model(acc@) =~= m0 + seq![entry_model(e)]);
            }
            return Some((acc, k));
        }
    }
}

impl TimeBank {
    /// Reads a bank document, exactly as `spec_parse_bank` describes; a
    /// malformed document is `TimeBankUnloaded`.
    pub fn from_json(s: &str) -> (r: Result<TimeBank, TrimsecError>)
        ensures
            match spec_parse_bank(s@) {
                Some(m) => r matches Ok(b) && bank_model(b) == m,
                None => r == Err::<TimeBank, TrimsecError>(TrimsecError::TimeBankUnloaded),
            },
    {
        let len = s.unicode_len();
        let i0 = skip_ws_x(s, 0);
        if !at_x(s, i0, '{') {
            return Err(TrimsecError::TimeBankUnloaded);
        }
        let i1 = skip_ws_x(s, i0 + 1);
        let i2 = match eat_x(s, i1, "\"entries\"") {
            Some(j) => j,
            None => {
                proof {
                    reveal_strlit("\"entries\"");
                }
                return Err(TrimsecError::TimeBankUnloaded);
            },
        };
        proof {
            reveal_strlit("\"entries\"");
            assert(expect(s@, i1 as int, "\"entries\""@) == Some(i2 as int));
            assert(i2 <= s@.len());
        }
        let i3 = skip_ws_x(s, i2);
        if !at_x(s, i3, ':') {
            return Err(TrimsecError::TimeBankUnloaded);
        }
        let i4 = skip_ws_x(s, i3 + 1);
        if !at_x(s, i4, '[') {
            return Err(TrimsecError::TimeBankUnloaded);
        }
        let i5 = skip_ws_x(s, i4 + 1);
        if at_x(s, i5, ']') {
            let i6 = skip_ws_x(s, i5 + 1);
            if at_x(s, i6, '}') && skip_ws_x(s, i6 + 1) == len {
                let b = TimeBank { entries: Vec::new() };
                proof {
                    assert(bank_model(b) =~= Seq::<(Seq<char>, int)>::empty());
                }
                return Ok(b);
            }
            return Err(TrimsecError::TimeBankUnloaded);
        }
        let (entries, j) = match parse_list_x(s, i5) {
            Some(q) => q,
            None => {
                return Err(TrimsecError::TimeBankUnloaded);
            },
        };
        proof {
            lemma_parse_list_range(s@, i5 as int);
        }
        if !at_x(s, j, ']') {
            return Err(TrimsecError::TimeBankUnloaded);
        }
        let i6 = skip_ws_x(s, j + 1);
        if at_x(s, i6, '}') && skip_ws_x(s, i6 + 1) == len {
            return Ok(TimeBank { entries });
        }
        Err(TrimsecError::TimeBankUnloaded)
    }
}

/// A parsed list ends within the text.
pub proof fn lemma_parse_list_range(s: Seq<char>, i: int)
    requires
        0 <= i <= s.len(),
    ensures
        parse_list(s, i) matches Some(p) ==> 0 <= p.1 <= s.len(),
    decreases s.len() - i,
{
    lemma_parse_entry_range(s, i);
    match parse_entry(s, i) {
        None => {},
        Some((e, j)) => {
            lemma_skip_ws_range(s, j);
            let k = skip_ws(s, j);
            if at(s, k, ',') {
                let k2 = skip_ws(s, k + 1);
                lemma_skip_ws_range(s, k + 1);
                if i < k2 <= s.len() {
                    lemma_parse_list_range(s, k2);
                }
            }
        },
    }
}

/// The canonical emission of one entry.
pub open spec fn spec_emit_entry(e: (Seq<char>, int)) -> Seq<char> {
    "{\"date\":\""@ + e.0 + "\",\"saved_time\":"@ + spec_dec(e.1) + "}"@
}

/// The canonical emission of the entry list, comma-separated.
pub open spec fn spec_emit_list(m: Seq<(Seq<char>, int)>) -> Seq<char>
    decreases m.len(),
{
    if m.len() == 0 {
        Seq::empty()
    } else if m.len() == 1 {
        spec_emit_entry(m[0])
    } else {
        spec_emit_entry(m[0]) + ","@ + spec_emit_list(m.drop_first())
    }
}

/// The canonical emission of the whole document.
pub open spec fn spec_emit_bank(m: Seq<(Seq<char>, int)>) -> Seq<char> {
    "{\"entries\":["@ + spec_emit_list(m) + "]}"@
}

/// Emits the list of entries from index `i` on.
fn emit_list_from(entries: &Vec<BankEntry>, i: usize) -> (r: String)
    requires
        i <= entries@.len(),
    ensures
        r@ == spec_emit_list(entries_model(entries@).subrange(i as int, entries@.len() as int)),
    decreases entries@.len() - i,
{
    let ghost m = entries_model(entries@).subrange(i as int, entries@.len() as int);
    if i == entries.len() {
        let r = String::new();
        proof {
            assert(m =~= Seq::<(Seq<char>, int)>::empty());
        }
        r
    } else {
        let mut out = String::from_str("{\"date\":\"");
        out.append(entries[i].date.as_str());
        out.append("\",\"saved_time\":");
        let dec = u64_to_dec(entries[i].saved_time);
        out.append(dec.as_str());
        out.append("}");
        proof {
            assert(m[0] == entry_model(entries@[i as int]));
            assert(out@ == spec_emit_entry(m[0]));
        }
        if i + 1 == entries.len() {
            proof {
                assert(m.len() == 1);
            }
            out
        } else {
            out.append(",");
            let rest = emit_list_from(entries, i + 1);
            out.append(rest.as_str());
            proof {
                assert(entries_model(entries@).subrange(i as int + 1, entries@.len() as int)
                    =~= m.drop_first());
                assert(out@ == spec_emit_entry(m[0]) + ","@ + spec_emit_list(m.drop_first()));
            }
            out
        }
    }
}

impl TimeBank {
    /// Serializes the bank to its canonical document, exactly
    /// `spec_emit_bank` of the bank's model.
    pub fn to_json(&self) -> (r: String)
        ensures
            r@ == spec_emit_bank(bank_model(*self)),
    {
        let mut out = String::from_str("{\"entries\":[");
        let body = emit_list_from(&self.entries, 0);
        out.append(body.as_str());
        out.append("]}");
        proof {
            assert(entries_model(self.entries@).subrange(0, self.entries@.len() as int)
                =~= bank_model(*self));
        }
        out
    }
}

/// `skip_ws` does not move from a non-whitespace position.
proof fn lemma_skip_ws_stop(s: Seq<char>, i: int)
    requires
        0 <= i <= s.len(),
        i == s.len() || !is_space(s[i]),
    ensures
        skip_ws(s, i) == i,
{
}

/// `scan_digits` ends exactly at the end of a maximal digit run.
proof fn lemma_scan_digits_stop(s: Seq<char>, i: int, e: int)
    requires
        0 <= i <= e <= s.len(),
        forall|k: int| i <= k < e ==> is_digit(#[trigger] s[k]),
        e == s.len() || !is_digit(s[e]),
    ensures
        scan_digits(s, i) == e,
    decreases e - i,
{
    if i < e {
        lemma_scan_digits_stop(s, i + 1, e);
    }
}

/// `scan_plain` ends exactly at the end of a maximal plain run.
proof fn lemma_scan_plain_stop(s: Seq<char>, i: int, e: int)
    requires
        0 <= i <= e <= s.len(),
        forall|k: int| i <= k < e ==> plain_char(#[trigger] s[k]),
        e == s.len() || !plain_char(s[e]),
    ensures
        scan_plain(s, i) == e,
    decreases e - i,
{
    if i < e {
        lemma_scan_plain_stop(s, i + 1, e);
    }
}

/// The character at each position of an emitted entry.
proof fn lemma_entry_index(e: (Seq<char>, int), j: int)
    requires
        e.1 >= 0,
        0 <= j < spec_emit_entry(e).len(),
    ensures
        spec_emit_entry(e).len() == 25 + e.0.len() + spec_dec(e.1).len(),
        j < 9 ==> spec_emit_entry(e)[j] == "{\"date\":\""@[j],
        9 <= j < 9 + e.0.len() ==> spec_emit_entry(e)[j] == e.0[j - 9],
        9 + e.0.len() <= j < 24 + e.0.len() ==> spec_emit_entry(e)[j] == "\",\"saved_time\":"@[j
            - 9 - e.0.len()],
        24 + e.0.len() <= j < 24 + e.0.len() + spec_dec(e.1).len() ==> spec_emit_entry(e)[j]
            == spec_dec(e.1)[j - 24 - e.0.len()],
        j == 24 + e.0.len() + spec_dec(e.1).len() ==> spec_emit_entry(e)[j] == '}',
{
    reveal_strlit("{\"date\":\"");
    reveal_strlit("\",\"saved_time\":");
    reveal_strlit("}");
    let l1 = "{\"date\":\""@;
    let l2 = "\",\"saved_time\":"@;
    let l3 = "}"@;
    let d = e.0;
    let dec = spec_dec(e.1);
    let ee = spec_emit_entry(e);
    assert(ee == ((((l1 + d) + l2) + dec) + l3));
    let dl = d.len() as int;
    let dcl = dec.len() as int;
    if j < 24 + dl + dcl {
        assert(ee[j] == (((l1 + d) + l2) + dec)[j]);
        if j < 24 + dl {
            assert((((l1 + d) + l2) + dec)[j] == ((l1 + d) + l2)[j]);
            if j < 9 + dl {
                assert(((l1 + d) + l2)[j] == (l1 + d)[j]);
            }
        }
    } else {
        assert(ee[j] == l3[j - 24 - dl - dcl]);
    }
}

/// Reading an emitted entry from within a larger text yields the entry back
/// and ends right after it.
proof fn lemma_parse_entry_emitted(s: Seq<char>, i: int, e: (Seq<char>, int))
    requires
        0 <= i,
        i + spec_emit_entry(e).len() <= s.len(),
        s.subrange(i, i + spec_emit_entry(e).len() as int) == spec_emit_entry(e),
        0 <= e.1 <= u64::MAX,
        forall|k: int| 0 <= k < e.0.len() ==> plain_char(#[trigger] e.0[k]),
    ensures
        parse_entry(s, i) == Some((e, i + spec_emit_entry(e).len() as int)),
{
    reveal_strlit("{\"date\":\"");
    reveal_strlit("\",\"saved_time\":");
    reveal_strlit("}");
    reveal_strlit("\"date\"");
    reveal_strlit("\"saved_time\"");
    let d = e.0;
    let dl = d.len() as int;
    lemma_dec_val(e.1);
    let dec = spec_dec(e.1);
    let dcl = dec.len() as int;
    let ee = spec_emit_entry(e);
    let el = ee.len() as int;
    lemma_entry_index(e, 0);
    assert(el == 25 + dl + dcl);
    assert forall|j: int| 0 <= j < el implies s[i + j] == ee[j] by {
        assert(s.subrange(i, i + el)[j] == s[i + j]);
    }
    // '{'
    assert(s[i + 0] == ee[0]);
    assert(s[i] == '{');
    assert(at(s, i, '{'));
    // the "date" key
    lemma_entry_index(e, 1);
    assert(s[i + 1] == '"');
    lemma_skip_ws_stop(s, i + 1);
    assert forall|k: int| 0 <= k < 6 implies s.subrange(i + 1, i + 7)[k] == "\"date\""@[k] by {
        lemma_entry_index(e, 1 + k);
        assert(s[i + (1 + k)] == ee[1 + k]);
    }
    assert(s.subrange(i + 1, i + 7) =~= "\"date\""@);
    assert(expect(s, i + 1, "\"date\""@) == Some(i + 7));
    lemma_entry_index(e, 7);
    assert(s[i + 7] == ':');
    lemma_skip_ws_stop(s, i + 7);
    assert(at(s, i + 7, ':'));
    // the date string
    lemma_entry_index(e, 8);
    assert(s[i + 8] == '"');
    lemma_skip_ws_stop(s, i + 8);
    assert(at(s, i + 8, '"'));
    assert forall|k: int| i + 9 <= k < i + 9 + dl implies plain_char(#[trigger] s[k]) by {
        lemma_entry_index(e, k - i);
        assert(s[i + (k - i)] == ee[k - i]);
        assert(s[k] == d[k - i - 9]);
    }
    lemma_entry_index(e, 9 + dl);
    assert(s[i + (9 + dl)] == '"');
    assert(!plain_char('"'));
    lemma_scan_plain_stop(s, i + 9, i + 9 + dl);
    assert forall|k: int| 0 <= k < dl implies s.subrange(i + 9, i + 9 + dl)[k] == d[k] by {
        lemma_entry_index(e, 9 + k);
        assert(s[i + (9 + k)] == ee[9 + k]);
    }
    assert(s.subrange(i + 9, i + 9 + dl) =~= d);
    assert(parse_string(s, i + 8) == Some((d, i + 10 + dl)));
    // the comma and the "saved_time" key
    lemma_entry_index(e, 10 + dl);
    assert(s[i + (10 + dl)] == ',');
    lemma_skip_ws_stop(s, i + 10 + dl);
    assert(at(s, i + 10 + dl, ','));
    lemma_entry_index(e, 11 + dl);
    assert(s[i + (11 + dl)] == '"');
    lemma_skip_ws_stop(s, i + 11 + dl);
    assert forall|k: int| 0 <= k < 12 implies s.subrange(i + 11 + dl, i + 23 + dl)[k]
        == "\"saved_time\""@[k] by {
        lemma_entry_index(e, 11 + dl + k);
        assert(s[i + (11 + dl + k)] == ee[11 + dl + k]);
    }
    assert(s.subrange(i + 11 + dl, i + 23 + dl) =~= "\"saved_time\""@);
    assert(expect(s, i + 11 + dl, "\"saved_time\""@) == Some(i + 23 + dl));
    lemma_entry_index(e, 23 + dl);
    assert(s[i + (23 + dl)] == ':');
    lemma_skip_ws_stop(s, i + 23 + dl);
    assert(at(s, i + 23 + dl, ':'));
    // the number
    assert forall|k: int| i + 24 + dl <= k < i + 24 + dl + dcl implies is_digit(
        #[trigger] s[k],
    ) by {
        lemma_entry_index(e, k - i);
        assert(s[i + (k - i)] == ee[k - i]);
        assert(s[k] == dec[k - i - 24 - dl]);
    }
    lemma_entry_index(e, 24 + dl + dcl);
    assert(s[i + (24 + dl + dcl)] == '}');
    assert(!is_digit('}'));
    lemma_entry_index(e, 24 + dl);
    assert(s[i + (24 + dl)] == dec[0]);
    assert(is_digit(s[i + 24 + dl]));
    assert(!is_space(s[i + 24 + dl]));
    lemma_skip_ws_stop(s, i + 24 + dl);
    lemma_scan_digits_stop(s, i + 24 + dl, i + 24 + dl + dcl);
    assert forall|k: int| 0 <= k < dcl implies s.subrange(i + 24 + dl, i + 24 + dl + dcl)[k]
        == dec[k] by {
        lemma_entry_index(e, 24 + dl + k);
        assert(s[i + (24 + dl + k)] == ee[24 + dl + k]);
    }
    assert(s.subrange(i + 24 + dl, i + 24 + dl + dcl) =~= dec);
    assert(digits_val(s.subrange(i + 24 + dl, i + 24 + dl + dcl)) == e.1);
    assert(parse_number(s, i + 24 + dl) == Some((e.1, i + 24 + dl + dcl)));
    // the closing brace
    lemma_skip_ws_stop(s, i + 24 + dl + dcl);
    assert(at(s, i + 24 + dl + dcl, '}'));
    assert((d, e.1) == e);
    assert(parse_entry(s, i) == Some((e, i + 25 + dl + dcl)));
}

/// Reading an emitted entry list from within a larger text yields the
/// entries back and stops at the closing bracket.
proof fn lemma_parse_list_emitted(s: Seq<char>, i: int, m: Seq<(Seq<char>, int)>)
    requires
        0 <= i,
        m.len() >= 1,
        i + spec_emit_list(m).len() < s.len(),
        s.subrange(i, i + spec_emit_list(m).len() as int) == spec_emit_list(m),
        s[i + spec_emit_list(m).len() as int] == ']',
        wf_model(m),
        dates_plain(m),
    ensures
        parse_list(s, i) == Some((m, i + spec_emit_list(m).len() as int)),
    decreases m.len(),
{
    let e = m[0];
    let ee = spec_emit_entry(e);
    let el = ee.len() as int;
    let ml = spec_emit_list(m).len() as int;
    assert(0 <= e.1 <= u64::MAX);
    assert(forall|k: int| 0 <= k < e.0.len() ==> plain_char(#[trigger] e.0[k]));
    if m.len() == 1 {
        assert(spec_emit_list(m) == ee);
        lemma_parse_entry_emitted(s, i, e);
        assert(s[i + el] == ']');
        assert(!is_space(']'));
        lemma_skip_ws_stop(s, i + el);
        assert(!at(s, i + el, ','));
        assert(seq![e] =~= m);
    } else {
        let rest = m.drop_first();
        let rl = spec_emit_list(rest).len() as int;
        assert(spec_emit_list(m) == ee + ","@ + spec_emit_list(rest));
        reveal_strlit(",");
        assert(ml == el + 1 + rl);
        assert forall|j: int| 0 <= j < ml implies s[i + j] == spec_emit_list(m)[j] by {
            assert(s.subrange(i, i + ml)[j] == s[i + j]);
        }
        assert forall|j: int| 0 <= j < el implies spec_emit_list(m)[j] == ee[j] by {
            assert(spec_emit_list(m)[j] == ((ee + ","@) + spec_emit_list(rest))[j]);
            assert(((ee + ","@) + spec_emit_list(rest))[j] == (ee + ","@)[j]);
        }
        assert(s.subrange(i, i + el) =~= ee);
        lemma_parse_entry_emitted(s, i, e);
        assert(spec_emit_list(m)[el] == ((ee + ","@) + spec_emit_list(rest))[el]);
        assert(s[i + el] == ',');
        lemma_skip_ws_stop(s, i + el);
        assert(at(s, i + el, ','));
        assert forall|j: int| 0 <= j < rl implies spec_emit_list(m)[el + 1 + j]
            == spec_emit_list(rest)[j] by {
            assert(spec_emit_list(m)[el + 1 + j] == ((ee + ","@) + spec_emit_list(rest))[el + 1
                + j]);
        }
        assert(s.subrange(i + el + 1, i + el + 1 + rl) =~= spec_emit_list(rest));
        // the next entry begins with '{', so no whitespace is skipped
        assert(rest.len() >= 1);
        assert(spec_emit_list(rest)[0] == spec_emit_entry(rest[0])[0]);
        reveal_strlit("{\"date\":\"");
        assert(spec_emit_entry(rest[0])[0] == '{');
        assert(s[i + el + 1] == '{');
        lemma_skip_ws_stop(s, i + el + 1);
        assert(wf_model(rest) && dates_plain(rest)) by {
            assert(forall|j: int| 0 <= j < rest.len() ==> #[trigger] rest[j] == m[j + 1]);
        }
        assert(s[i + el + 1 + rl] == ']');
        lemma_parse_list_emitted(s, i + el + 1, rest);
        assert(seq![e] + rest =~= m);
    }
}

/// Round trip: a bank document written by `spec_emit_bank` reads back with
/// exactly the same entries, for every bank whose saved times are `u64`
/// values and whose dates hold no character that would need escaping.
pub proof fn lemma_emit_then_parse(m: Seq<(Seq<char>, int)>)
    requires
        wf_model(m),
        dates_plain(m),
    ensures
        spec_parse_bank(spec_emit_bank(m)) == Some(m),
{
    reveal_strlit("{\"entries\":[");
    reveal_strlit("]}");
    reveal_strlit("\"entries\"");
    let h = "{\"entries\":["@;
    let t = "]}"@;
    let body = spec_emit_list(m);
    let bl = body.len() as int;
    let s = spec_emit_bank(m);
    let sl = s.len() as int;
    assert(s == h + body + t);
    assert(sl == 14 + bl);
    assert forall|j: int| 0 <= j < 12 implies s[j] == h[j] by {
        assert(s[j] == ((h + body) + t)[j]);
    }
    assert forall|j: int| 0 <= j < bl implies s[12 + j] == body[j] by {
        assert(s[12 + j] == ((h + body) + t)[12 + j]);
    }
    assert(s[12 + bl] == t[0]);
    assert(s[13 + bl] == t[1]);
    assert(s[0] == '{');
    lemma_skip_ws_stop(s, 0);
    assert(at(s, 0, '{'));
    assert(s[1] == '"');
    lemma_skip_ws_stop(s, 1);
    assert(s.subrange(1, 10) =~= "\"entries\""@);
    assert(expect(s, 1, "\"entries\""@) == Some(10int));
    assert(s[10] == ':');
    lemma_skip_ws_stop(s, 10);
    assert(at(s, 10, ':'));
    assert(s[11] == '[');
    assert(at(s, 11, '['));
    if m.len() == 0 {
        assert(bl == 0);
        assert(s[12] == ']');
        lemma_skip_ws_stop(s, 12);
        assert(at(s, 12, ']'));
        assert(s[13] == '}');
        lemma_skip_ws_stop(s, 13);
        assert(at(s, 13, '}'));
        lemma_skip_ws_stop(s, 14);
        assert(skip_ws(s, 14) == sl);
        assert(spec_parse_bank(s) == Some(Seq::<(Seq<char>, int)>::empty()));
        assert(m =~= Seq::<(Seq<char>, int)>::empty());
    } else {
        assert(m.len() >= 1);
        assert(body[0] == spec_emit_entry(m[0])[0]);
        reveal_strlit("{\"date\":\"");
        assert(spec_emit_entry(m[0])[0] == '{');
        assert(s[12] == '{');
        lemma_skip_ws_stop(s, 12);
        assert(!at(s, 12, ']'));
        assert(s.subrange(12, 12 + bl) =~= body);
        assert(s[12 + bl] == ']');
        lemma_parse_list_emitted(s, 12, m);
        assert(at(s, 12 + bl, ']'));
        assert(s[13 + bl] == '}');
        lemma_skip_ws_stop(s, 13 + bl);
        assert(at(s, 13 + bl, '}'));
        lemma_skip_ws_stop(s, 14 + bl);
        assert(skip_ws(s, 14 + bl) == sl);
    }
}

/// A parsed string holds only plain characters.
proof fn lemma_parse_string_plain(s: Seq<char>, i: int)
    requires
        0 <= i <= s.len(),
    ensures
        parse_string(s, i) matches Some(p) ==> forall|k: int|
            0 <= k < p.0.len() ==> plain_char(#[trigger] p.0[k]),
{
    if at(s, i, '"') {
        lemma_scan_plain_range(s, i + 1);
        let e = scan_plain(s, i + 1);
        if e < s.len() && s[e] == '"' {
            let d = s.subrange(i + 1, e);
            assert(forall|k: int| 0 <= k < d.len() ==> #[trigger] d[k] == s[i + 1 + k]);
        }
    }
}

/// Every bank that parses is well formed: saved times lie in the `u64`
/// range and dates hold only plain characters.
pub proof fn lemma_parse_bank_wf(s: Seq<char>)
    ensures
        spec_parse_bank(s) matches Some(m) ==> wf_model(m) && dates_plain(m),
{
    let i0 = skip_ws(s, 0);
    lemma_skip_ws_range(s, 0);
    if at(s, i0, '{') {
        lemma_skip_ws_range(s, i0 + 1);
        let i1 = skip_ws(s, i0 + 1);
        match expect(s, i1, "\"entries\""@) {
            None => {},
            Some(i2) => {
                lemma_skip_ws_range(s, i2);
                let i3 = skip_ws(s, i2);
                if at(s, i3, ':') {
                    lemma_skip_ws_range(s, i3 + 1);
                    let i4 = skip_ws(s, i3 + 1);
                    if at(s, i4, '[') {
                        lemma_skip_ws_range(s, i4 + 1);
                        let i5 = skip_ws(s, i4 + 1);
                        if at(s, i5, ']') {
                            let e: Seq<(Seq<char>, int)> = Seq::empty();
                            assert(wf_model(e) && dates_plain(e));
                        } else {
                            lemma_parse_list_wf(s, i5);
                        }
                    }
                }
            },
        }
    }
}

/// Every entry of a parsed list is well formed.
proof fn lemma_parse_list_wf(s: Seq<char>, i: int)
    requires
        0 <= i <= s.len(),
    ensures
        parse_list(s, i) matches Some(p) ==> wf_model(p.0) && dates_plain(p.0),
    decreases s.len() - i,
{
    lemma_parse_entry_wf(s, i);
    lemma_parse_entry_range(s, i);
    match parse_entry(s, i) {
        None => {},
        Some((e, j)) => {
            lemma_skip_ws_range(s, j);
            let k = skip_ws(s, j);
            if at(s, k, ',') {
                let k2 = skip_ws(s, k + 1);
                lemma_skip_ws_range(s, k + 1);
                if i < k2 <= s.len() {
                    lemma_parse_list_wf(s, k2);
                    match parse_list(s, k2) {
                        None => {},
                        Some((m2, jj)) => {
                            let m = seq![e] + m2;
                            assert(m[0] == e);
                            assert(forall|q: int| 1 <= q < m.len() ==> #[trigger] m[q] == m2[q - 1]);
                        },
                    }
                }
            } else {
                let m = seq![e];
                assert(m[0] == e);
            }
        },
    }
}

/// A parsed entry is well formed.
proof fn lemma_parse_entry_wf(s: Seq<char>, i: int)
    requires
        0 <= i <= s.len(),
    ensures
        parse_entry(s, i) matches Some(p) ==> 0 <= p.0.1 <= u64::MAX && forall|k: int|
            0 <= k < p.0.0.len() ==> plain_char(#[trigger] p.0.0[k]),
{
    if at(s, i, '{') {
        lemma_skip_ws_range(s, i + 1);
        let i1 = skip_ws(s, i + 1);
        match expect(s, i1, "\"date\""@) {
            None => {},
            Some(i2) => {
                lemma_skip_ws_range(s, i2);
                let i3 = skip_ws(s, i2);
                if at(s, i3, ':') {
                    lemma_skip_ws_range(s, i3 + 1);
                    let i4 = skip_ws(s, i3 + 1);
                    lemma_parse_string_range(s, i4);
                    lemma_parse_string_plain(s, i4);
                    match parse_string(s, i4) {
                        None => {},
                        Some((d, i5)) => {
                            lemma_skip_ws_range(s, i5);
                            let i6 = skip_ws(s, i5);
                            if at(s, i6, ',') {
                                lemma_skip_ws_range(s, i6 + 1);
                                let i7 = skip_ws(s, i6 + 1);
                                match expect(s, i7, "\"saved_time\""@) {
                                    None => {},
                                    Some(i8) => {
                                        lemma_skip_ws_range(s, i8);
                                        let i9 = skip_ws(s, i8);
                                        if at(s, i9, ':') {
                                            lemma_skip_ws_range(s, i9 + 1);
                                            let i10 = skip_ws(s, i9 + 1);
                                            lemma_parse_number_range(s, i10);
                                        }
                                    },
                                }
                            }
                        },
                    }
                }
            },
        }
    }
}

/// Idempotence of the persisted document: re-writing what was read gives a
/// document with exactly the same entries. For any text `s` that parses as
/// a bank, emitting that bank and parsing again yields the same model.
pub proof fn lemma_load_then_save(s: Seq<char>)
    requires
        spec_parse_bank(s) is Some,
    ensures
        spec_parse_bank(spec_emit_bank(spec_parse_bank(s)->Some_0)) == spec_parse_bank(s),
{
    lemma_parse_bank_wf(s);
    lemma_emit_then_parse(spec_parse_bank(s)->Some_0);
}

} // verus!
