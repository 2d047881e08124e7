//! The retention rules: which named backups a (yearly, monthly, weekly, daily)
//! policy keeps.
use vstd::prelude::*;
use chrono::{Datelike, Local, TimeZone};

verus! {

/// The calendar date of a backup in the local time zone, with its ISO week.
#[derive(Clone, Copy, Debug, PartialEq, Eq, Structural)]
pub struct BackupDate {
    pub year: i32,
    pub month: u32,
    pub day: u32,
    pub iso_year: i32,
    pub iso_week: u32,
}

/// Relies on chrono's `Local.timestamp_opt`: the local date of a Unix time,
/// with its ISO week. It is a single date for every time in chrono's range
/// (which `date_in_range` lies well within) and `None` outside it. Which
/// date comes back depends on the machine's time zone.
#[verifier::external_body]
fn local_date(timestamp: i64) -> (r: Option<BackupDate>)
    ensures
        date_in_range(timestamp) ==> r is Some,
        r is Some ==> 1 <= r->Some_0.month <= 12 && 1 <= r->Some_0.day <= 31 && 1 <= r->Some_0.iso_week <= 53,
{
    Local.timestamp_opt(timestamp, 0).single().map(|d| BackupDate {
        year: d.year(),
        month: d.month(),
        day: d.day(),
        iso_year: d.iso_week().year(),
        iso_week: d.iso_week().week(),
    })
}

/// The periods that a retention limit counts.
#[derive(Clone, Copy, Debug, PartialEq, Eq, Structural)]
pub enum Period {
    Yearly,
    Monthly,
    Weekly,
    Daily,
}

/// The period that a date falls in.
pub open spec fn period_key(d: BackupDate, p: Period) -> (i32, u32, u32) {
    match p {
        Period::Yearly => (d.year, 0, 0),
        Period::Monthly => (d.year, d.month, 0),
        Period::Weekly => (d.iso_year, d.iso_week, 0),
        Period::Daily => (d.year, d.month, d.day),
    }
}

/// The period that a date falls in.
pub fn key_of(d: &BackupDate, p: Period) -> (r: (i32, u32, u32))
    ensures
        r == period_key(*d, p),
{
    match p {
        Period::Yearly => (d.year, 0, 0),
        Period::Monthly => (d.year, d.month, 0),
        Period::Weekly => (d.iso_year, d.iso_week, 0),
        Period::Daily => (d.year, d.month, d.day),
    }
}

/// Whether two period keys are equal.
pub fn same_key(a: &(i32, u32, u32), b: &(i32, u32, u32)) -> (r: bool)
    ensures
        r == (*a == *b),
{
    a.0 == b.0 && a.1 == b.1 && a.2 == b.2
}

/// The indices at which a new period starts: the first index, and each index
/// whose key differs from the one before.
pub open spec fn run_starts(keys: Seq<(i32, u32, u32)>) -> Seq<int>
    decreases keys.len(),
{
    if keys.len() == 0 {
        Seq::empty()
    } else {
        let s = run_starts(keys.drop_last());
        if keys.len() == 1 || keys[keys.len() - 1] != keys[keys.len() - 2] {
            s.push(keys.len() - 1)
        } else {
            s
        }
    }
}

/// The last `n` elements of `s` (all of them when there are fewer).
pub open spec fn last_n(s: Seq<int>, n: nat) -> Seq<int> {
    if s.len() > n {
        s.subrange(s.len() - n, s.len() as int)
    } else {
        s
    }
}

/// The period starts that a limit of `max` periods keeps: the latest `max`.
pub open spec fn kept_starts(keys: Seq<(i32, u32, u32)>, max: nat) -> Seq<int> {
    last_n(run_starts(keys), max)
}

/// The keys of the dates for one period.
pub open spec fn keys_for(dates: Seq<BackupDate>, p: Period) -> Seq<(i32, u32, u32)> {
    dates.map_values(|d: BackupDate| period_key(d, p))
}

/// Whether one limit keeps backup `i` of the date-ordered `dates`.
pub open spec fn kept_by(dates: Seq<BackupDate>, p: Period, limit: Option<usize>, i: int) -> bool {
    match limit {
        Some(max) => kept_starts(keys_for(dates, p), max as nat).contains(i),
        None => false,
    }
}

/// Whether the policy keeps backup `i` of the date-ordered `dates`.
pub open spec fn retained(
    dates: Seq<BackupDate>,
    yearly: Option<usize>,
    monthly: Option<usize>,
    weekly: Option<usize>,
    daily: Option<usize>,
    i: int,
) -> bool {
    kept_by(dates, Period::Yearly, yearly, i) || kept_by(dates, Period::Monthly, monthly, i)
        || kept_by(dates, Period::Weekly, weekly, i) || kept_by(dates, Period::Daily, daily, i)
}

proof fn lemma_last_n_push(s: Seq<int>, x: int, n: nat)
    ensures
        last_n(last_n(s, n).push(x), n) == last_n(s.push(x), n),
{
    let t = last_n(s, n);
    assert(last_n(t.push(x), n) =~= last_n(s.push(x), n));
}

proof fn lemma_run_starts_bounds(keys: Seq<(i32, u32, u32)>)
    ensures
        forall|k: int| 0 <= k < run_starts(keys).len() ==> 0 <= #[trigger] run_starts(keys)[k] < keys.len(),
    decreases keys.len(),
{
    if keys.len() > 0 {
        let s = run_starts(keys.drop_last());
        lemma_run_starts_bounds(keys.drop_last());
        assert forall|k: int| 0 <= k < run_starts(keys).len() implies 0 <= #[trigger] run_starts(keys)[k] < keys.len() by {
            if k < s.len() {
                assert(run_starts(keys)[k] == s[k]);
            }
        }
    }
}

/// Marks in `keep` the first backup of each of the latest `max` periods of
/// the date-ordered keys.
pub fn mark_needed(keys: &Vec<(i32, u32, u32)>, keep: &mut Vec<bool>, max: usize)
    requires
        old(keep)@.len() == keys@.len(),
    ensures
        final(keep)@.len() == keys@.len(),
        forall|i: int| 0 <= i < keys@.len() ==> #[trigger] final(keep)@[i] == (old(keep)@[i] || kept_starts(keys@, max as nat).contains(i)),
{
    let mut unique: Vec<usize> = Vec::new();
    let mut i: usize = 0;
    while i < keys.len()
        invariant
            0 <= i <= keys@.len(),
            unique@.map_values(|u: usize| u as int) == kept_starts(keys@.subrange(0, i as int), max as nat),
            unique@.len() <= max,
        decreases keys@.len() - i,
    {
        let ghost pre = keys@.subrange(0, i as int);
        let ghost post = keys@.subrange(0, i + 1);
        proof {
            assert(post.drop_last() =~= pre);
        }
        if i == 0 || !same_key(&keys[i], &keys[i - 1]) {
            let ghost before = unique@.map_values(|u: usize| u as int);
            unique.push(i);
            proof {
                assert(unique@.map_values(|u: usize| u as int) =~= before.push(i as int));
            }
            if unique.len() > max {
                let ghost b2 = unique@.map_values(|u: usize| u as int);
                unique.remove(0);
                proof {
                    assert(unique@.map_values(|u: usize| u as int) =~= b2.subrange(1, b2.len() as int));
                }
            }
            proof {
                lemma_last_n_push(run_starts(pre), i as int, max as nat);
                assert(run_starts(post) == run_starts(pre).push(i as int));
                assert(unique@.map_values(|u: usize| u as int) =~= last_n(before.push(i as int), max as nat));
            }
        } else {
            proof {
                assert(post[post.len() - 1] == post[post.len() - 2]);
                assert(run_starts(post) == run_starts(pre));
            }
        }
        i = i + 1;
    }
    let ghost starts = kept_starts(keys@, max as nat);
    proof {
        assert(keys@.subrange(0, keys@.len() as int) =~= keys@);
        lemma_run_starts_bounds(keys@);
    }
    let mut j: usize = 0;
    while j < unique.len()
        invariant
            0 <= j <= unique@.len(),
            unique@.map_values(|u: usize| u as int) == starts,
            starts == kept_starts(keys@, max as nat),
            keep@.len() == keys@.len(),
            old(keep)@.len() == keys@.len(),
            forall|k: int| 0 <= k < run_starts(keys@).len() ==> 0 <= #[trigger] run_starts(keys@)[k] < keys@.len(),
            forall|i: int| 0 <= i < keys@.len() ==> #[trigger] keep@[i] == (old(keep)@[i] || starts.subrange(0, j as int).contains(i)),
        decreases unique@.len() - j,
    {
        let u = unique[j];
        proof {
            let rs = run_starts(keys@);
            assert(unique@.map_values(|u: usize| u as int)[j as int] == u as int);
            assert(starts[j as int] == u as int);
            assert(starts.len() == unique@.len());
            if rs.len() > max {
                let sub = rs.subrange(rs.len() - max, rs.len() as int);
                assert(starts == sub);
                assert(sub[j as int] == rs[j + (rs.len() - max)]);
            } else {
                assert(starts[j as int] == rs[j as int]);
            }
            assert(u < keys@.len());
        }
        let ghost kb = keep@;
        keep.set(u, true);
        proof {
            let s0 = starts.subrange(0, j as int);
            let s1 = starts.subrange(0, j + 1);
            assert(s1 =~= s0.push(u as int));
            assert forall|i: int| 0 <= i < keys@.len() implies #[trigger] keep@[i] == (old(keep)@[i] || s1.contains(i)) by {
                if s0.contains(i) {
                    let w = choose|w: int| 0 <= w < s0.len() && s0[w] == i;
                    assert(s1[w] == i);
                }
                if s1.contains(i) && i != u {
                    let w = choose|w: int| 0 <= w < s1.len() && s1[w] == i;
                    assert(s0[w] == i);
                }
                if i == u {
                    assert(s1[j as int] == i);
                }
            }
        }
        j = j + 1;
    }
    proof {
        assert(starts.subrange(0, j as int) =~= starts);
    }
}

/// Which backups of the date-ordered `dates` the policy keeps.
pub fn prune_plan(
    dates: &Vec<BackupDate>,
    daily: Option<usize>,
    weekly: Option<usize>,
    monthly: Option<usize>,
    yearly: Option<usize>,
) -> (keep: Vec<bool>)
    ensures
        keep@.len() == dates@.len(),
        forall|i: int| 0 <= i < dates@.len() ==> #[trigger] keep@[i] == retained(dates@, yearly, monthly, weekly, daily, i),
{
    let mut keep: Vec<bool> = Vec::new();
    let mut i: usize = 0;
    while i < dates.len()
        invariant
            0 <= i <= dates@.len(),
            keep@.len() == i,
            forall|k: int| 0 <= k < i ==> !#[trigger] keep@[k],
        decreases dates@.len() - i,
    {
        keep.push(false);
        i = i + 1;
    }
    mark_period(dates, &mut keep, Period::Yearly, yearly);
    mark_period(dates, &mut keep, Period::Monthly, monthly);
    mark_period(dates, &mut keep, Period::Weekly, weekly);
    mark_period(dates, &mut keep, Period::Daily, daily);
    keep
}

fn mark_period(dates: &Vec<BackupDate>, keep: &mut Vec<bool>, p: Period, limit: Option<usize>)
    requires
        old(keep)@.len() == dates@.len(),
    ensures
        final(keep)@.len() == dates@.len(),
        forall|i: int| 0 <= i < dates@.len() ==> #[trigger] final(keep)@[i] == (old(keep)@[i] || kept_by(dates@, p, limit, i)),
{
    match limit {
        None => {},
        Some(max) => {
            let mut keys: Vec<(i32, u32, u32)> = Vec::new();
            let mut i: usize = 0;
            while i < dates.len()
                invariant
                    0 <= i <= dates@.len(),
                    keys@ == keys_for(dates@.subrange(0, i as int), p),
                decreases dates@.len() - i,
            {
                keys.push(key_of(&dates[i], p));
                i = i + 1;
                proof {
                    assert(keys@ =~= keys_for(dates@.subrange(0, i as int), p));
                }
            }
            proof {
                assert(dates@.subrange(0, i as int) =~= dates@);
            }
            mark_needed(&keys, keep, max);
        },
    }
}

/// Raising the daily limit by one never keeps fewer backups: what the policy
/// keeps with `daily = k` it also keeps with `daily = k + 1`.
pub proof fn lemma_retention_monotone(
    dates: Seq<BackupDate>,
    yearly: Option<usize>,
    monthly: Option<usize>,
    weekly: Option<usize>,
    k: usize,
    i: int,
)
    requires
        k < usize::MAX,
        retained(dates, yearly, monthly, weekly, Some(k), i),
    ensures
        retained(dates, yearly, monthly, weekly, Some((k + 1) as usize), i),
{
    let s = run_starts(keys_for(dates, Period::Daily));
    if kept_by(dates, Period::Daily, Some(k), i) {
        let a = last_n(s, k as nat);
        let b = last_n(s, (k + 1) as nat);
        let w = choose|w: int| 0 <= w < a.len() && a[w] == i;
        if s.len() > k + 1 {
            assert(b[w + 1] == i);
        } else if s.len() > k {
            assert(b[w + (s.len() - k)] == i);
        } else {
            assert(b[w] == i);
        }
    }
}

/// A backup to consider for pruning: its name and its Unix time.
pub struct BackupEntry {
    pub name: String,
    pub date: i64,
}

impl BackupEntry {
    /// A copy of the entry.
    pub fn copy(&self) -> (r: BackupEntry)
        ensures
            r == *self,
    {
        BackupEntry { name: self.name.clone(), date: self.date }
    }
}

/// Whether `prefix` starts `name`.
pub fn has_prefix(name: &str, prefix: &str) -> (r: bool)
    ensures
        r == (prefix@.len() <= name@.len() && name@.subrange(0, prefix@.len() as int) == prefix@),
{
    let n = name.unicode_len();
    let m = prefix.unicode_len();
    if m > n {
        return false;
    }
    let mut i: usize = 0;
    while i < m
        invariant
            n == name@.len(),
            m == prefix@.len(),
            m <= n,
            0 <= i <= m,
            forall|j: int| 0 <= j < i ==> name@[j] == prefix@[j],
        decreases m - i,
    {
        if name.get_char(i) != prefix.get_char(i) {
            assert(name@.subrange(0, m as int)[i as int] != prefix@[i as int]);
            return false;
        }
        i = i + 1;
    }
    assert(name@.subrange(0, m as int) =~= prefix@);
    true
}

/// Whether `s` starts with `p`.
pub open spec fn starts_with(s: Seq<char>, p: Seq<char>) -> bool {
    p.len() <= s.len() && s.subrange(0, p.len() as int) == p
}

/// The entries whose names start with `prefix`, in order.
pub open spec fn prefixed(v: Seq<BackupEntry>, prefix: Seq<char>) -> Seq<BackupEntry>
    decreases v.len(),
{
    if v.len() == 0 {
        Seq::empty()
    } else {
        let p = prefixed(v.drop_last(), prefix);
        if starts_with(v.last().name@, prefix) {
            p.push(v.last())
        } else {
            p
        }
    }
}

/// Where an entry dated `d` goes in the date-ordered `r`: after every entry
/// not later than it.
pub open spec fn insert_pos(r: Seq<BackupEntry>, d: i64) -> int
    decreases r.len(),
{
    if r.len() == 0 || r.last().date <= d {
        r.len() as int
    } else {
        insert_pos(r.drop_last(), d)
    }
}

/// The entries in date order; entries with equal dates keep their order.
pub open spec fn sorted_by_date(v: Seq<BackupEntry>) -> Seq<BackupEntry>
    decreases v.len(),
{
    if v.len() == 0 {
        Seq::empty()
    } else {
        let s = sorted_by_date(v.drop_last());
        s.insert(insert_pos(s, v.last().date), v.last())
    }
}

/// The positions of `d` that hold a date, in order.
pub open spec fn dated_indices(d: Seq<Option<BackupDate>>) -> Seq<int>
    decreases d.len(),
{
    if d.len() == 0 {
        Seq::empty()
    } else {
        let s = dated_indices(d.drop_last());
        if d.last() is Some {
            s.push(d.len() - 1)
        } else {
            s
        }
    }
}

/// The dates of `d`, in order, leaving out the missing ones.
pub open spec fn dated_dates(d: Seq<Option<BackupDate>>) -> Seq<BackupDate> {
    dated_indices(d).map_values(|i: int| d[i]->Some_0)
}

/// Which of the date-ordered `dates` the policy keeps.
pub open spec fn keep_plan(
    dates: Seq<BackupDate>,
    yearly: Option<usize>,
    monthly: Option<usize>,
    weekly: Option<usize>,
    daily: Option<usize>,
) -> Seq<bool> {
    Seq::new(dates.len(), |k: int| retained(dates, yearly, monthly, weekly, daily, k))
}

/// The names of the entries `s[idx[k]]` whose `keep[k]` is false, in order.
pub open spec fn unkept_names(s: Seq<BackupEntry>, idx: Seq<int>, keep: Seq<bool>) -> Seq<Seq<char>>
    decreases keep.len(),
{
    if keep.len() == 0 {
        Seq::empty()
    } else {
        let p = unkept_names(s, idx, keep.drop_last());
        if !keep.last() {
            p.push(s[idx[keep.len() - 1]].name@)
        } else {
            p
        }
    }
}

/// The names that the policy prunes from the date-ordered entries `s`, whose
/// local dates are `d` (an entry without a date is kept).
pub open spec fn pruned_names(
    s: Seq<BackupEntry>,
    d: Seq<Option<BackupDate>>,
    yearly: Option<usize>,
    monthly: Option<usize>,
    weekly: Option<usize>,
    daily: Option<usize>,
) -> Seq<Seq<char>> {
    unkept_names(s, dated_indices(d), keep_plan(dated_dates(d), yearly, monthly, weekly, daily))
}

/// The strings' characters.
pub open spec fn names_of(r: Seq<String>) -> Seq<Seq<char>> {
    r.map_values(|s: String| s@)
}

/// Whether a Unix time lies well inside the range of dates that chrono
/// represents, some 250,000 years either way.
pub open spec fn date_in_range(t: i64) -> bool {
    -8_000_000_000_000 <= t <= 8_000_000_000_000
}

/// Sorts entries by date, keeping the order of equal dates.
fn sort_by_date(v: Vec<BackupEntry>) -> (r: Vec<BackupEntry>)
    ensures
        r@ == sorted_by_date(v@),
{
    let mut r: Vec<BackupEntry> = Vec::new();
    let mut rest = v;
    let ghost orig = rest@;
    let ghost mut k: int = 0;
    while rest.len() > 0
        invariant
            0 <= k <= orig.len(),
            rest@ == orig.subrange(k, orig.len() as int),
            r@ == sorted_by_date(orig.subrange(0, k)),
        decreases rest@.len(),
    {
        let ghost rb = rest@;
        let e = rest.remove(0);
        proof {
            assert(rb[0] == orig[k]);
            assert(rest@ =~= orig.subrange(k + 1, orig.len() as int));
        }
        let mut pos: usize = r.len();
        proof {
            assert(r@.subrange(0, r@.len() as int) =~= r@);
        }
        while pos > 0 && r[pos - 1].date > e.date
            invariant
                pos <= r@.len(),
                insert_pos(r@, e.date) == insert_pos(r@.subrange(0, pos as int), e.date),
            decreases pos,
        {
            proof {
                assert(r@.subrange(0, pos as int).drop_last() =~= r@.subrange(0, pos - 1));
            }
            pos = pos - 1;
        }
        proof {
            assert(r@.subrange(0, r@.len() as int) =~= r@);
            if pos > 0 {
                assert(r@.subrange(0, pos as int).last() == r@[pos - 1]);
            }
            let t = orig.subrange(0, k + 1);
            assert(t.drop_last() =~= orig.subrange(0, k));
            assert(t.last() == e);
        }
        r.insert(pos, e);
        proof {
            k = k + 1;
        }
    }
    proof {
        assert(orig.subrange(0, k) =~= orig);
    }
    r
}

/// The names that the policy prunes from the date-ordered `entries`, whose
/// local dates are `dates`; an entry without a date is kept.
pub fn prune_names(
    entries: &Vec<BackupEntry>,
    dates: &Vec<Option<BackupDate>>,
    daily: Option<usize>,
    weekly: Option<usize>,
    monthly: Option<usize>,
    yearly: Option<usize>,
) -> (r: Vec<String>)
    requires
        entries@.len() == dates@.len(),
    ensures
        names_of(r@) == pruned_names(entries@, dates@, yearly, monthly, weekly, daily),
{
    let mut idx: Vec<usize> = Vec::new();
    let mut ds: Vec<BackupDate> = Vec::new();
    let mut i: usize = 0;
    while i < dates.len()
        invariant
            0 <= i <= dates@.len(),
            idx@.len() == ds@.len(),
            idx@.map_values(|u: usize| u as int) == dated_indices(dates@.subrange(0, i as int)),
            forall|k: int| 0 <= k < idx@.len() ==> #[trigger] idx@[k] < i && dates@[idx@[k] as int] == Some(ds@[k]),
        decreases dates@.len() - i,
    {
        proof {
            let t = dates@.subrange(0, i + 1);
            assert(t.drop_last() =~= dates@.subrange(0, i as int));
            assert(t.last() == dates@[i as int]);
        }
        match dates[i] {
            Some(d) => {
                let ghost ib = idx@;
                idx.push(i);
                ds.push(d);
                proof {
                    assert(idx@.map_values(|u: usize| u as int) =~= ib.map_values(|u: usize| u as int).push(i as int));
                }
            },
            None => {},
        }
        i = i + 1;
    }
    let ghost di = idx@.map_values(|u: usize| u as int);
    proof {
        assert(dates@.subrange(0, i as int) =~= dates@);
        assert(ds@ =~= dated_dates(dates@));
    }
    let keep = prune_plan(&ds, daily, weekly, monthly, yearly);
    proof {
        assert(keep@ =~= keep_plan(ds@, yearly, monthly, weekly, daily));
    }
    let mut r: Vec<String> = Vec::new();
    let mut k: usize = 0;
    while k < keep.len()
        invariant
            0 <= k <= keep@.len(),
            keep@.len() == idx@.len(),
            di == idx@.map_values(|u: usize| u as int),
            di == dated_indices(dates@),
            forall|q: int| 0 <= q < idx@.len() ==> #[trigger] idx@[q] < entries@.len(),
            names_of(r@) == unkept_names(entries@, di, keep@.subrange(0, k as int)),
        decreases keep@.len() - k,
    {
        proof {
            let t = keep@.subrange(0, k + 1);
            assert(t.drop_last() =~= keep@.subrange(0, k as int));
            assert(t.last() == keep@[k as int]);
            assert(di[k as int] == idx@[k as int] as int);
        }
        if !keep[k] {
            let s = idx[k];
            let name = entries[s].name.clone();
            let ghost rb = r@;
            r.push(name);
            proof {
                assert(names_of(r@) =~= names_of(rb).push(entries@[s as int].name@));
            }
        }
        k = k + 1;
    }
    proof {
        assert(keep@.subrange(0, k as int) =~= keep@);
    }
    r
}

/// The names of the backups that start with `prefix` and that the policy does
/// not keep, in date order. The dates are read in the local time zone: every
/// time in range has one, and a backup without one is kept.
pub fn prune_backups(
    backups: Vec<BackupEntry>,
    prefix: &str,
    daily: Option<usize>,
    weekly: Option<usize>,
    monthly: Option<usize>,
    yearly: Option<usize>,
) -> (r: Vec<String>)
    ensures
        exists|d: Seq<Option<BackupDate>>|
            d.len() == sorted_by_date(prefixed(backups@, prefix@)).len()
            && (forall|i: int| 0 <= i < d.len() && date_in_range(sorted_by_date(prefixed(backups@, prefix@))[i].date)
                ==> (#[trigger] d[i]) is Some)
            && names_of(r@) == pruned_names(sorted_by_date(prefixed(backups@, prefix@)), d, yearly, monthly, weekly, daily),
{
    let mut chosen: Vec<BackupEntry> = Vec::new();
    let mut i: usize = 0;
    while i < backups.len()
        invariant
            0 <= i <= backups@.len(),
            chosen@ == prefixed(backups@.subrange(0, i as int), prefix@),
        decreases backups@.len() - i,
    {
        proof {
            let t = backups@.subrange(0, i + 1);
            assert(t.drop_last() =~= backups@.subrange(0, i as int));
            assert(t.last() == backups@[i as int]);
        }
        if has_prefix(backups[i].name.as_str(), prefix) {
            chosen.push(backups[i].copy());
        }
        i = i + 1;
    }
    proof {
        assert(backups@.subrange(0, i as int) =~= backups@);
    }
    let sorted = sort_by_date(chosen);
    let mut dates: Vec<Option<BackupDate>> = Vec::new();
    let mut j: usize = 0;
    while j < sorted.len()
        invariant
            0 <= j <= sorted@.len(),
            dates@.len() == j,
            forall|q: int| 0 <= q < j && date_in_range(sorted@[q].date) ==> (#[trigger] dates@[q]) is Some,
        decreases sorted@.len() - j,
    {
        dates.push(local_date(sorted[j].date));
        j = j + 1;
    }
    let r = prune_names(&sorted, &dates, daily, weekly, monthly, yearly);
    proof {
        assert(dates@.len() == sorted@.len());
    }
    r
}

} // verus!
