use std::collections::VecDeque;
use vstd::prelude::*;

verus! {

/// Seconds in one time slice.
pub const SLICE_SECONDS: u32 = 5;

/// Recovery debt that one slice of rest pays back.
pub const REST_TO_WORK_RATIO: u32 = 4;

/// Slices in one hour: the lack-of-recovery threshold and the width of the trailing window.
pub const HOUR_SLICES: u32 = 720;

/// Shortest gap, in slices, that counts as a micro-pause.
pub const MICRO_PAUSE_SLICES: u32 = 3;

/// Shortest gap, in slices, that counts as a rest.
pub const REST_SLICES: u32 = 60;

/// One entry of the trailing-hour queue: `(time_slice, micro_pause_delta, work_delta)`.
pub type HourEntry = (u32, u32, u32);

/// `x` clamped to the range of `u32` (counters saturate instead of wrapping).
pub open spec fn sat(x: int) -> u32 {
    if x > u32::MAX {
        u32::MAX
    } else if x < 0 {
        0
    } else {
        x as u32
    }
}

/// Number of unobserved slices between `previous` and `t`: `max(0, t - previous - 1)`.
pub open spec fn gap(previous: u32, t: u32) -> int {
    if t > previous + 1 {
        t - previous - 1
    } else {
        0
    }
}

/// The whole state of a day's statistics, as plain values.
pub struct ScoreView {
    /// Local calendar day (days since the common era) of the last record; `None` before any.
    pub day: Option<i32>,
    pub day_start: u32,
    pub previous: u32,
    pub sum_keypresses: u32,
    pub micro_pause_slices: u32,
    pub work_slices: u32,
    pub recovery_debt: u32,
    pub lack_of_recovery_slices: u32,
    pub last_recovery: u32,
    /// Alternating work / rest segment lengths in slices, starting with work.
    pub work_ranges: Seq<u32>,
    pub last_hour: Seq<HourEntry>,
}

/// The state before any record.
pub open spec fn empty_view() -> ScoreView {
    ScoreView {
        day: None,
        day_start: 0,
        previous: 0,
        sum_keypresses: 0,
        micro_pause_slices: 0,
        work_slices: 0,
        recovery_debt: 0,
        lack_of_recovery_slices: 0,
        last_recovery: 0,
        work_ranges: seq![0u32],
        last_hour: Seq::empty(),
    }
}

/// The state at the start of a new day whose first record falls in slice `t`.
pub open spec fn fresh_day(t: u32, day: i32) -> ScoreView {
    ScoreView {
        day: Some(day),
        day_start: t,
        previous: t,
        sum_keypresses: 0,
        micro_pause_slices: 0,
        work_slices: 0,
        recovery_debt: 0,
        lack_of_recovery_slices: 0,
        last_recovery: t,
        work_ranges: seq![0u32],
        last_hour: Seq::empty(),
    }
}

/// Drops from the front of the queue every entry more than an hour older than `t`,
/// stopping at the first one that is not.
pub open spec fn prune(q: Seq<HourEntry>, t: u32) -> Seq<HourEntry>
    decreases q.len(),
{
    if q.len() > 0 && q[0].0 + HOUR_SLICES < t {
        prune(q.drop_first(), t)
    } else {
        q
    }
}

/// The state after one record `(t, k)` whose local calendar day is `day`.
pub open spec fn step(s: ScoreView, t: u32, k: u8, day: i32) -> ScoreView {
    if k == 0 {
        s
    } else {
        let b = if s.day == Some(day) {
            s
        } else {
            fresh_day(t, day)
        };
        let m = gap(b.previous, t);
        let is_micro = MICRO_PAUSE_SLICES <= m < REST_SLICES;
        let is_rest = m >= REST_SLICES;
        let work = if m < MICRO_PAUSE_SLICES {
            sat(b.work_slices + m)
        } else {
            b.work_slices
        };
        let micro = if is_micro {
            sat(b.micro_pause_slices + m)
        } else {
            b.micro_pause_slices
        };
        let debt = if is_rest {
            sat(b.recovery_debt - REST_TO_WORK_RATIO * m)
        } else {
            b.recovery_debt
        };
        let ranges = if is_rest {
            b.work_ranges.push(m as u32).push(0)
        } else {
            b.work_ranges
        };
        let debt1 = sat(debt + 1);
        let n = ranges.len() - 1;
        ScoreView {
            day: Some(day),
            day_start: b.day_start,
            previous: t,
            sum_keypresses: sat(b.sum_keypresses + k),
            micro_pause_slices: micro,
            work_slices: sat(work + 1),
            recovery_debt: debt1,
            lack_of_recovery_slices: if debt1 >= HOUR_SLICES {
                sat(b.lack_of_recovery_slices + 1)
            } else {
                b.lack_of_recovery_slices
            },
            last_recovery: if is_rest {
                t
            } else {
                b.last_recovery
            },
            work_ranges: ranges.update(n, sat(ranges[n] + 1)),
            last_hour: prune(b.last_hour, t).push((t, if is_micro { m as u32 } else { 0u32 }, 1u32)),
        }
    }
}

/// Sum of the micro-pause deltas of a queue.
pub open spec fn hour_micro(q: Seq<HourEntry>) -> int
    decreases q.len(),
{
    if q.len() == 0 {
        0
    } else {
        hour_micro(q.drop_last()) + q.last().1
    }
}

/// Sum of the work deltas of a queue.
pub open spec fn hour_work(q: Seq<HourEntry>) -> int
    decreases q.len(),
{
    if q.len() == 0 {
        0
    } else {
        hour_work(q.drop_last()) + q.last().2
    }
}

/// The score's duration multiplier in halves: 2.0, 1.5, 1.0 or 0.5 after 3, 4 and 8 hours.
pub open spec fn multiplier_halves(slices: u64) -> u32 {
    if slices <= 2160 {
        4
    } else if slices <= 2880 {
        3
    } else if slices <= 5760 {
        2
    } else {
        1
    }
}

/// The duration multiplier of the score, counted in halves, for `slices` slices of work.
pub fn duration_multiplier_halves(slices: u64) -> (r: u32)
    ensures
        r == multiplier_halves(slices),
{
    if slices <= 180 * 60 / SLICE_SECONDS as u64 {
        4
    } else if slices <= 240 * 60 / SLICE_SECONDS as u64 {
        3
    } else if slices <= 480 * 60 / SLICE_SECONDS as u64 {
        2
    } else {
        1
    }
}

/// Local calendar day, counted in days since the common era, of the instant `secs`
/// seconds after the Unix epoch.
///
/// Relies on chrono's `Local.timestamp_opt`, `DateTime::date_naive` and
/// `Datelike::num_days_from_ce`. The answer depends on the machine's time zone, so nothing
/// is stated of it. `timestamp_opt` answers `Single` for every instant that chrono can
/// represent, which every instant of a `u32` slice is, so the `unwrap` holds.
#[verifier::external_body]
fn local_day(secs: u64) -> (r: i32)
    requires
        secs <= 5 * u32::MAX as u64,
{
    let at = chrono::TimeZone::timestamp_opt(&chrono::Local, secs as i64, 0).unwrap();
    chrono::Datelike::num_days_from_ce(&at.date_naive())
}

/// Length in seconds of `slices` slices.
fn seconds(slices: u64) -> (r: u64)
    requires
        slices <= 2 * u32::MAX as u64,
    ensures
        r == slices * SLICE_SECONDS,
{
    slices * 5
}

/// The running statistics of one day of activity.
pub struct Score {
    day: Option<i32>,
    day_start_time_slice: u32,
    previous_time_slice: u32,
    sum_keypresses: u32,
    micro_pause_slices: u32,
    work_slices: u32,
    recovery_debt: u32,
    num_lack_of_recovery_slices: u32,
    last_recovery_slice: u32,
    work_ranges: Vec<u32>,
    last_hour_slices: VecDeque<HourEntry>,
}

impl View for Score {
    type V = ScoreView;

    closed spec fn view(&self) -> ScoreView {
        ScoreView {
            day: self.day,
            day_start: self.day_start_time_slice,
            previous: self.previous_time_slice,
            sum_keypresses: self.sum_keypresses,
            micro_pause_slices: self.micro_pause_slices,
            work_slices: self.work_slices,
            recovery_debt: self.recovery_debt,
            lack_of_recovery_slices: self.num_lack_of_recovery_slices,
            last_recovery: self.last_recovery_slice,
            work_ranges: self.work_ranges@,
            last_hour: self.last_hour_slices@,
        }
    }
}

/// Removes from the front of `q` the entries that are more than an hour older than `t`.
fn prune_before(q: &mut VecDeque<HourEntry>, t: u32)
    ensures
        final(q)@ == prune(old(q)@, t),
{
    while q.len() > 0 && (q[0].0 as u64) + (HOUR_SLICES as u64) < t as u64
        invariant
            prune(q@, t) == prune(old(q)@, t),
        decreases q.len(),
    {
        q.pop_front();
    }
}

impl Score {
    /// The timeline always has an open segment.
    pub open spec fn wf(&self) -> bool {
        self@.work_ranges.len() >= 1
    }

    /// A score with no record yet.
    pub fn new() -> (r: Score)
        ensures
            r.wf(),
            r@ == empty_view(),
    {
        let r = Score {
            day: None,
            day_start_time_slice: 0,
            previous_time_slice: 0,
            sum_keypresses: 0,
            micro_pause_slices: 0,
            work_slices: 0,
            recovery_debt: 0,
            num_lack_of_recovery_slices: 0,
            last_recovery_slice: 0,
            work_ranges: vec![0],
            last_hour_slices: VecDeque::new(),
        };
        assert(r@.work_ranges =~= seq![0u32]);
        r
    }

    /// Clears every aggregate and starts the day `day` at slice `time_slice`.
    fn reset(&mut self, time_slice: u32, day: i32)
        ensures
            final(self)@ == fresh_day(time_slice, day),
    {
        self.day = Some(day);
        self.day_start_time_slice = time_slice;
        self.previous_time_slice = time_slice;
        self.sum_keypresses = 0;
        self.micro_pause_slices = 0;
        self.work_slices = 0;
        self.recovery_debt = 0;
        self.num_lack_of_recovery_slices = 0;
        self.last_recovery_slice = time_slice;
        self.work_ranges = vec![0];
        self.last_hour_slices = VecDeque::new();
        assert(self@.work_ranges =~= seq![0u32]);
    }

    /// Folds the record `(time_slice, keypresses)`, whose local calendar day is `day`, into
    /// the statistics. A record without keypresses changes nothing.
    pub fn append_on_day(&mut self, time_slice: u32, keypresses: u8, day: i32)
        requires
            old(self).wf(),
        ensures
            final(self).wf(),
            final(self)@ == step(old(self)@, time_slice, keypresses, day),
    {
        if keypresses == 0 {
            return;
        }
        let same_day = match self.day {
            Some(d) => d == day,
            None => false,
        };
        if !same_day {
            self.reset(time_slice, day);
        }
        self.sum_keypresses = self.sum_keypresses.saturating_add(keypresses as u32);

        let missing: u32 = if time_slice > self.previous_time_slice && time_slice
            - self.previous_time_slice > 1 {
            time_slice - self.previous_time_slice - 1
        } else {
            0
        };
        let mut micro_delta: u32 = 0;
        if missing < MICRO_PAUSE_SLICES {
            // too short for a pause: counted as work
            self.work_slices = self.work_slices.saturating_add(missing);
        } else if missing < REST_SLICES {
            self.micro_pause_slices = self.micro_pause_slices.saturating_add(missing);
            micro_delta = missing;
        } else {
            let reduction: u64 = REST_TO_WORK_RATIO as u64 * missing as u64;
            self.recovery_debt = if self.recovery_debt as u64 > reduction {
                (self.recovery_debt as u64 - reduction) as u32
            } else {
                0
            };
            self.last_recovery_slice = time_slice;
            self.work_ranges.push(missing);
            self.work_ranges.push(0);
        }

        self.work_slices = self.work_slices.saturating_add(1);
        self.recovery_debt = self.recovery_debt.saturating_add(1);
        if self.recovery_debt >= HOUR_SLICES {
            self.num_lack_of_recovery_slices = self.num_lack_of_recovery_slices.saturating_add(1);
        }
        self.previous_time_slice = time_slice;

        let last: usize = self.work_ranges.len() - 1;
        let open_segment: u32 = self.work_ranges[last];
        self.work_ranges.set(last, open_segment.saturating_add(1));

        prune_before(&mut self.last_hour_slices, time_slice);
        self.last_hour_slices.push_back((time_slice, micro_delta, 1));
        assert(self@ == step(old(self)@, time_slice, keypresses, day)) by {
            assert(self@.work_ranges =~= step(old(self)@, time_slice, keypresses, day).work_ranges);
        }
    }

    /// Folds the record `(time_slice, keypresses)` into the statistics, starting a new day
    /// first where the record falls on another local calendar date than the previous one.
    /// A record without keypresses changes nothing.
    pub fn append(&mut self, time_slice: u32, keypresses: u8)
        requires
            old(self).wf(),
        ensures
            final(self).wf(),
            keypresses == 0 ==> final(self)@ == old(self)@,
            exists|day: i32| final(self)@ == step(old(self)@, time_slice, keypresses, day),
    {
        if keypresses == 0 {
            assert(self@ == step(old(self)@, time_slice, keypresses, 0));
            return;
        }
        let secs: u64 = time_slice as u64 * 5;
        let day: i32 = local_day(secs);
        self.append_on_day(time_slice, keypresses, day);
    }

    /// Sum of the keypresses of the day.
    pub fn total_keypresses(&self) -> (r: u32)
        ensures
            r == self@.sum_keypresses,
    {
        self.sum_keypresses
    }

    /// Slices of the day counted as work, micro-pauses included.
    pub open spec fn spec_work_slices(&self) -> int {
        self@.work_slices + self@.micro_pause_slices
    }

    /// Seconds of work of the day, micro-pauses included.
    pub fn total_work(&self) -> (r: u64)
        ensures
            r == self.spec_work_slices() * SLICE_SECONDS,
    {
        let slices: u64 = self.work_slices as u64 + self.micro_pause_slices as u64;
        seconds(slices)
    }

    /// Seconds of micro-pause of the day.
    pub fn micro_pause(&self) -> (r: u64)
        ensures
            r == self@.micro_pause_slices * SLICE_SECONDS,
    {
        seconds(self.micro_pause_slices as u64)
    }

    /// Seconds from the last recovery (a rest, or the start of the day) to the last record;
    /// zero where the last record lies before it.
    pub fn last_recovery_since(&self) -> (r: u64)
        ensures
            r == (if self@.previous >= self@.last_recovery {
                self@.previous - self@.last_recovery
            } else {
                0
            }) * SLICE_SECONDS,
    {
        if self.previous_time_slice >= self.last_recovery_slice {
            seconds((self.previous_time_slice - self.last_recovery_slice) as u64)
        } else {
            0
        }
    }

    /// Seconds of rest needed to pay back the recovery debt.
    pub fn needed_recovery(&self) -> (r: u64)
        ensures
            r == (self@.recovery_debt / REST_TO_WORK_RATIO) * SLICE_SECONDS,
    {
        seconds((self.recovery_debt / REST_TO_WORK_RATIO) as u64)
    }

    /// Seconds worked while the recovery debt was at or above one hour.
    pub fn lack_of_recovery(&self) -> (r: u64)
        ensures
            r == self@.lack_of_recovery_slices * SLICE_SECONDS,
    {
        seconds(self.num_lack_of_recovery_slices as u64)
    }

    /// Start of the day, in seconds since the Unix epoch.
    pub fn day_start(&self) -> (r: u64)
        ensures
            r == self@.day_start * SLICE_SECONDS,
    {
        seconds(self.day_start_time_slice as u64)
    }

    /// The timeline of the day: alternating work and rest segment lengths in seconds,
    /// starting with work.
    pub fn work_ranges(&self) -> (r: Vec<u64>)
        ensures
            r@.len() == self@.work_ranges.len(),
            forall|i: int| 0 <= i < r@.len() ==> r@[i] == self@.work_ranges[i] * SLICE_SECONDS,
    {
        let mut r: Vec<u64> = Vec::new();
        let mut i: usize = 0;
        while i < self.work_ranges.len()
            invariant
                i <= self.work_ranges@.len(),
                r@.len() == i,
                forall|j: int| 0 <= j < i ==> r@[j] == self@.work_ranges[j] * SLICE_SECONDS,
            decreases self.work_ranges@.len() - i,
        {
            r.push(seconds(self.work_ranges[i] as u64));
            i += 1;
        }
        r
    }

    /// Micro-pause slices and work slices recorded in the trailing hour.
    pub fn past_hour_slices(&self) -> (r: (u128, u128))
        ensures
            r.0 == hour_micro(self@.last_hour),
            r.1 == hour_work(self@.last_hour),
    {
        let mut micro: u128 = 0;
        let mut work: u128 = 0;
        let mut i: usize = 0;
        while i < self.last_hour_slices.len()
            invariant
                i <= self@.last_hour.len(),
                micro == hour_micro(self@.last_hour.take(i as int)),
                work == hour_work(self@.last_hour.take(i as int)),
                micro <= i * 0xFFFF_FFFFu128,
                work <= i * 0xFFFF_FFFFu128,
                i <= usize::MAX,
            decreases self@.last_hour.len() - i,
        {
            let entry = self.last_hour_slices[i];
            assert(self@.last_hour.take(i + 1).drop_last() =~= self@.last_hour.take(i as int));
            micro = micro + entry.1 as u128;
            work = work + entry.2 as u128;
            i += 1;
        }
        assert(self@.last_hour.take(i as int) =~= self@.last_hour);
        (micro, work)
    }
}

/// Entries of the trailing-hour queue stand in the order of their time slices.
pub open spec fn hour_ordered(q: Seq<HourEntry>) -> bool {
    forall|i: int, j: int| 0 <= i < j < q.len() ==> q[i].0 <= q[j].0
}

/// No entry of the queue lies after slice `t`.
pub open spec fn hour_not_after(q: Seq<HourEntry>, t: u32) -> bool {
    forall|i: int| 0 <= i < q.len() ==> q[i].0 <= t
}

/// No entry of the queue is more than an hour older than slice `t`.
pub open spec fn hour_within(q: Seq<HourEntry>, t: u32) -> bool {
    forall|i: int| 0 <= i < q.len() ==> q[i].0 + HOUR_SLICES >= t
}

/// What pruning leaves is a suffix of the queue whose first entry is at most an hour old.
proof fn lemma_prune_suffix(q: Seq<HourEntry>, t: u32) -> (j: int)
    ensures
        0 <= j <= q.len(),
        prune(q, t) == q.subrange(j, q.len() as int),
        j < q.len() ==> q[j].0 + HOUR_SLICES >= t,
    decreases q.len(),
{
    if q.len() > 0 && q[0].0 + HOUR_SLICES < t {
        let j = lemma_prune_suffix(q.drop_first(), t);
        assert(q.drop_first().subrange(j, q.drop_first().len() as int) =~= q.subrange(
            j + 1,
            q.len() as int,
        ));
        j + 1
    } else {
        assert(q.subrange(0, q.len() as int) =~= q);
        0
    }
}

/// Trailing-hour pruning: where the queue is in time order and the new record is not
/// earlier than any entry, after the record the queue is still in time order, and no entry
/// is more than an hour older than the new record.
pub proof fn lemma_trailing_hour(s: ScoreView, t: u32, k: u8, day: i32)
    requires
        hour_ordered(s.last_hour),
        hour_not_after(s.last_hour, t),
        k >= 1,
    ensures
        hour_ordered(step(s, t, k, day).last_hour),
        hour_not_after(step(s, t, k, day).last_hour, t),
        hour_within(step(s, t, k, day).last_hour, t),
{
    let b = if s.day == Some(day) {
        s
    } else {
        fresh_day(t, day)
    };
    let q = b.last_hour;
    let j = lemma_prune_suffix(q, t);
    let n = step(s, t, k, day).last_hour;
    assert(n =~= prune(q, t).push(n.last()));
    assert forall|i: int| 0 <= i < n.len() implies n[i].0 + HOUR_SLICES >= t by {
        if i < n.len() - 1 {
            assert(n[i] == q[j + i]);
            assert(q[j].0 <= q[j + i].0);
        }
    }
    assert forall|a: int, c: int| 0 <= a < c < n.len() implies n[a].0 <= n[c].0 by {
        if c < n.len() - 1 {
            assert(n[a] == q[j + a]);
            assert(n[c] == q[j + c]);
        } else {
            assert(n[a] == q[j + a]);
        }
    }
}

/// Day reset: where two records fall on different local calendar days, everything known
/// after the second is what a new day that starts with it knows, so the day's keypresses
/// are that record's own.
pub proof fn lemma_day_reset(s: ScoreView, t1: u32, k1: u8, day1: i32, t2: u32, k2: u8, day2: i32)
    requires
        k1 >= 1,
        k2 >= 1,
        day1 != day2,
    ensures
        step(step(s, t1, k1, day1), t2, k2, day2) == step(fresh_day(t2, day2), t2, k2, day2),
        step(step(s, t1, k1, day1), t2, k2, day2).sum_keypresses == k2,
{
}

/// A record without keypresses changes nothing.
pub proof fn lemma_zero_keypresses(s: ScoreView, t: u32, day: i32)
    ensures
        step(s, t, 0, day) == s,
{
}

/// Recovery debt saturation: a rest whose reduction exceeds the debt brings the debt to
/// zero, never below, before the record's own slice adds one.
pub proof fn lemma_debt_saturates(s: ScoreView, t: u32, k: u8, day: i32)
    requires
        k >= 1,
        s.day == Some(day),
        gap(s.previous, t) >= REST_SLICES,
        REST_TO_WORK_RATIO * gap(s.previous, t) >= s.recovery_debt,
    ensures
        step(s, t, k, day).recovery_debt == 1,
        step(s, t, k, day).last_recovery == t,
{
}

} // verus!
