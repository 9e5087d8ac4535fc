//! The time bank: a ledger of saved seconds per calendar day.
//!
//! The bank holds at most one entry per date; `add_time` accumulates into
//! the entry of the given day or appends a new one. The calendar date of
//! "today" is passed in as a string (`YYYY-MM-DD`), so the bank itself is
//! deterministic and a test can pin the day.
//!
//! Contracts speak of the bank's model: the sequence of `(date, seconds)`
//! pairs, dates as character sequences and seconds as unbounded integers.

use vstd::prelude::*;

verus! {

/// One day's record: the date as `YYYY-MM-DD` and the seconds saved on it.
pub struct BankEntry {
    pub date: String,
    pub saved_time: u64,
}

/// The ledger itself: entries in insertion order.
pub struct TimeBank {
    pub entries: Vec<BankEntry>,
}

/// The mathematical content of one entry.
pub open spec fn entry_model(e: BankEntry) -> (Seq<char>, int) {
    (e.date@, e.saved_time as int)
}

/// The mathematical content of a sequence of entries.
pub open spec fn entries_model(es: Seq<BankEntry>) -> Seq<(Seq<char>, int)> {
    es.map_values(|e: BankEntry| entry_model(e))
}

/// The mathematical content of the whole bank.
pub open spec fn bank_model(b: TimeBank) -> Seq<(Seq<char>, int)> {
    entries_model(b.entries@)
}

/// Every saved-time value of a bank's model lies in the `u64` range.
pub open spec fn wf_model(m: Seq<(Seq<char>, int)>) -> bool {
    forall|j: int| 0 <= j < m.len() ==> 0 <= (#[trigger] m[j]).1 <= u64::MAX
}

/// At most one entry per date.
pub open spec fn dates_unique(m: Seq<(Seq<char>, int)>) -> bool {
    forall|i: int, j: int| 0 <= i < j < m.len() ==> (#[trigger] m[i]).0 != (#[trigger] m[j]).0
}

/// Clamping into the `u64` range (addition in the bank saturates there).
pub open spec fn clamp_u64(v: int) -> int {
    if v > u64::MAX {
        u64::MAX as int
    } else {
        v
    }
}

/// The index of the first entry with the given date, or -1 if none.
pub open spec fn find_date(m: Seq<(Seq<char>, int)>, date: Seq<char>) -> int
    decreases m.len(),
{
    if m.len() == 0 {
        -1
    } else if m[0].0 == date {
        0
    } else {
        let r = find_date(m.drop_first(), date);
        if r < 0 {
            -1
        } else {
            r + 1
        }
    }
}

/// What adding saved time for a day does to the model: accumulate into the
/// first entry of that date (saturating at `u64::MAX`), or append a new
/// entry when the date is not present.
pub open spec fn spec_add_time(m: Seq<(Seq<char>, int)>, date: Seq<char>, saved: int) -> Seq<
    (Seq<char>, int),
> {
    let i = find_date(m, date);
    if i < 0 {
        m.push((date, saved))
    } else {
        m.update(i, (date, clamp_u64(m[i].1 + saved)))
    }
}

/// Sum of all saved-time values.
pub open spec fn sum_saved(m: Seq<(Seq<char>, int)>) -> int
    decreases m.len(),
{
    if m.len() == 0 {
        0
    } else {
        m[0].1 + sum_saved(m.drop_first())
    }
}

/// `find_date` finds the first match: a non-negative result indexes an
/// entry with the date, everything before it has another date, and -1 means
/// the date is absent.
pub proof fn lemma_find_date(m: Seq<(Seq<char>, int)>, date: Seq<char>)
    ensures
        find_date(m, date) == -1 || 0 <= find_date(m, date) < m.len(),
        find_date(m, date) >= 0 ==> m[find_date(m, date)].0 == date,
        forall|j: int|
            0 <= j < m.len() && (find_date(m, date) == -1 || j < find_date(m, date)) ==> (
            #[trigger] m[j]).0 != date,
    decreases m.len(),
{
    if m.len() > 0 && m[0].0 != date {
        lemma_find_date(m.drop_first(), date);
        assert(forall|j: int| 1 <= j < m.len() ==> m.drop_first()[j - 1] == #[trigger] m[j]);
    }
}

/// Appending an entry adds its value to the sum.
proof fn lemma_sum_push(m: Seq<(Seq<char>, int)>, x: (Seq<char>, int))
    ensures
        sum_saved(m.push(x)) == sum_saved(m) + x.1,
    decreases m.len(),
{
    let p = m.push(x);
    if m.len() == 0 {
        assert(p[0] == x);
        assert(p.drop_first() =~= Seq::<(Seq<char>, int)>::empty());
        assert(sum_saved(Seq::<(Seq<char>, int)>::empty()) == 0);
    } else {
        assert(p[0] == m[0]);
        assert(p.drop_first() =~= m.drop_first().push(x));
        lemma_sum_push(m.drop_first(), x);
    }
}

/// Replacing an entry shifts the sum by the difference of the values.
proof fn lemma_sum_update(m: Seq<(Seq<char>, int)>, i: int, x: (Seq<char>, int))
    requires
        0 <= i < m.len(),
    ensures
        sum_saved(m.update(i, x)) == sum_saved(m) - m[i].1 + x.1,
    decreases m.len(),
{
    let p = m.update(i, x);
    if i == 0 {
        assert(p[0] == x);
        assert(p.drop_first() =~= m.drop_first());
    } else {
        assert(p[0] == m[0]);
        assert(p.drop_first() =~= m.drop_first().update(i - 1, x));
        lemma_sum_update(m.drop_first(), i - 1, x);
    }
}

/// The sum over a prefix grows by each element taken in.
proof fn lemma_sum_take(m: Seq<(Seq<char>, int)>, i: int)
    requires
        0 <= i < m.len(),
    ensures
        sum_saved(m.take(i + 1)) == sum_saved(m.take(i)) + m[i].1,
{
    assert(m.take(i + 1) =~= m.take(i).push(m[i]));
    lemma_sum_push(m.take(i), m[i]);
}

/// A bank whose values lie in range has a non-negative sum.
pub proof fn lemma_sum_nonneg(m: Seq<(Seq<char>, int)>)
    requires
        wf_model(m),
    ensures
        sum_saved(m) >= 0,
    decreases m.len(),
{
    if m.len() > 0 {
        assert(m[0].1 >= 0);
        assert(wf_model(m.drop_first())) by {
            assert(forall|j: int|
                0 <= j < m.len() - 1 ==> #[trigger] m.drop_first()[j] == m[j + 1]);
        }
        lemma_sum_nonneg(m.drop_first());
    }
}

/// Adding saved time adds exactly that amount to the bank's total, as long
/// as the day's entry does not saturate.
pub proof fn lemma_add_time_total(m: Seq<(Seq<char>, int)>, date: Seq<char>, saved: int)
    requires
        0 <= saved,
        find_date(m, date) >= 0 ==> m[find_date(m, date)].1 + saved <= u64::MAX,
        wf_model(m),
    ensures
        sum_saved(spec_add_time(m, date, saved)) == sum_saved(m) + saved,
{
    let i = find_date(m, date);
    lemma_find_date(m, date);
    if i < 0 {
        lemma_sum_push(m, (date, saved));
    } else {
        assert(clamp_u64(m[i].1 + saved) == m[i].1 + saved);
        lemma_sum_update(m, i, (date, m[i].1 + saved));
    }
}

/// Adding saved time keeps at most one entry per date, and keeps every
/// value in range; it grows the bank only when the date was absent.
pub proof fn lemma_add_time_invariant(m: Seq<(Seq<char>, int)>, date: Seq<char>, saved: int)
    requires
        0 <= saved <= u64::MAX,
        wf_model(m),
        dates_unique(m),
    ensures
        wf_model(spec_add_time(m, date, saved)),
        dates_unique(spec_add_time(m, date, saved)),
        spec_add_time(m, date, saved).len() == (if find_date(m, date) < 0 {
            m.len() as int + 1
        } else {
            m.len() as int
        }),
    decreases 0int,
{
    let i = find_date(m, date);
    let p = spec_add_time(m, date, saved);
    lemma_find_date(m, date);
    if i < 0 {
        assert(forall|j: int| 0 <= j < m.len() ==> #[trigger] p[j] == m[j]);
        assert(p[m.len() as int] == (date, saved));
    } else {
        assert(forall|j: int| 0 <= j < m.len() && j != i ==> #[trigger] p[j] == m[j]);
        assert(p[i] == (date, clamp_u64(m[i].1 + saved)));
        assert(m[i].0 == date);
    }
}

/// Saturating addition on `u64`.
fn sat_add(a: u64, b: u64) -> (r: u64)
    ensures
        r == clamp_u64(a as int + b as int),
{
    if u64::MAX - a < b {
        u64::MAX
    } else {
        a + b
    }
}

/// Character-wise string equality.
pub fn str_eq(a: &str, b: &str) -> (r: bool)
    ensures
        r == (a@ == b@),
{
    let la = a.unicode_len();
    let lb = b.unicode_len();
    if la != lb {
        proof {
            assert(a@.len() != b@.len());
        }
        return false;
    }
    let mut i: usize = 0;
    while i < la
        invariant
            la == a@.len(),
            la == b@.len(),
            0 <= i <= la,
            forall|j: int| 0 <= j < i ==> a@[j] == b@[j],
        decreases la - i,
    {
        let ca = a.get_char(i);
        let cb = b.get_char(i);
        if ca != cb {
            proof {
                assert(a@[i as int] != b@[i as int]);
            }
            return false;
        }
        i = i + 1;
    }
    proof {
        assert(a@ =~= b@);
    }
    true
}

/// The index of the first entry with the given date, if any.
fn find_entry(entries: &Vec<BankEntry>, date: &str) -> (r: Option<usize>)
    ensures
        match r {
            Some(i) => i < entries@.len() && find_date(entries_model(entries@), date@) == i as int,
            None => find_date(entries_model(entries@), date@) == -1,
        },
{
    let ghost m = entries_model(entries@);
    proof {
        lemma_find_date(m, date@);
    }
    let n = entries.len();
    let mut idx: usize = 0;
    while idx < n
        invariant
            m == entries_model(entries@),
            n == entries@.len(),
            0 <= idx <= n,
            forall|j: int| 0 <= j < idx ==> (#[trigger] m[j]).0 != date@,
        decreases n - idx,
    {
        if str_eq(entries[idx].date.as_str(), date) {
            proof {
                assert(m[idx as int].0 == date@);
                lemma_find_date(m, date@);
            }
            return Some(idx);
        }
        idx = idx + 1;
    }
    proof {
        lemma_find_date(m, date@);
    }
    None
}

impl TimeBank {
    /// A fresh, empty bank.
    pub fn new() -> (r: TimeBank)
        ensures
            bank_model(r) == Seq::<(Seq<char>, int)>::empty(),
    {
        let r = TimeBank { entries: Vec::new() };
        proof {
            assert(bank_model(r) =~= Seq::<(Seq<char>, int)>::empty());
        }
        r
    }

    /// Adds saved seconds to today's entry, or opens a new entry for today,
    /// exactly as `spec_add_time` describes (saturating at `u64::MAX`).
    pub fn add_time(&mut self, today: &str, saved_seconds: u64)
        ensures
            bank_model(*final(self)) == spec_add_time(bank_model(*old(self)), today@, saved_seconds as int),
    {
        let ghost m = bank_model(*old(self));
        match find_entry(&self.entries, today) {
            Some(idx) => {
                let new_saved = sat_add(self.entries[idx].saved_time, saved_seconds);
                let new_date = self.entries[idx].date.clone();
                let new_entry = BankEntry { date: new_date, saved_time: new_saved };
                self.entries.set(idx, new_entry);
                proof {
                    lemma_find_date(m, today@);
                    assert(bank_model(*self) =~= spec_add_time(m, today@, saved_seconds as int));
                }
            },
            None => {
                let new_entry = BankEntry {
                    date: String::from_str(today),
                    saved_time: saved_seconds,
                };
                self.entries.push(new_entry);
                proof {
                    assert(bank_model(*self) =~= spec_add_time(m, today@, saved_seconds as int));
                }
            },
        }
    }

    /// The total saved over all entries, saturating at `u64::MAX`.
    pub fn total_saved(&self) -> (r: u64)
        ensures
            r == clamp_u64(sum_saved(bank_model(*self))),
    {
        let ghost m = bank_model(*self);
        let n = self.entries.len();
        let mut acc: u64 = 0;
        let mut idx: usize = 0;
        proof {
            assert(m.take(0) =~= Seq::<(Seq<char>, int)>::empty());
        }
        while idx < n
            invariant
                m == bank_model(*self),
                n == self.entries.len(),
                0 <= idx <= n,
                acc == clamp_u64(sum_saved(m.take(idx as int))),
                wf_model(m.take(idx as int)),
            decreases n - idx,
        {
            proof {
                lemma_sum_take(m, idx as int);
                lemma_sum_nonneg(m.take(idx as int));
                assert(m[idx as int].1 == self.entries@[idx as int].saved_time as int);
                assert(m.take(idx as int + 1) =~= m.take(idx as int).push(m[idx as int]));
            }
            acc = sat_add(acc, self.entries[idx].saved_time);
            idx = idx + 1;
        }
        proof {
            assert(m.take(n as int) =~= m);
        }
        acc
    }
}

} // verus!
