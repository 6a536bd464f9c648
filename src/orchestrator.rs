use vstd::prelude::*;

use crate::calendar::{Date, TimeOfDay};
use crate::schedule::{dated, ActionTable};

verus! {

/// Hour of the day at which tomorrow's schedules are generated.
pub const SCHEDULE_GENERATION_HOUR: u32 = 20;

/// Minute of that hour.
pub const SCHEDULE_GENERATION_MINUTE: u32 = 30;

/// Minutes to wait before a failed generation is tried again.
pub const RETRY_INTERVAL_MINUTES: i64 = 30;

/// Seconds between two ticks of the background loops.
pub const CHECK_INTERVAL_SECONDS: u64 = 60;

/// The local moment of a tick: the date, the time of day, and the instant
/// in seconds since the Unix epoch.
#[derive(Clone, Copy, Debug, PartialEq, Eq, Structural)]
pub struct LocalNow {
    pub today: Date,
    pub time: TimeOfDay,
    pub epoch_secs: i64,
}

/// The time of day is at or after the generation time.
pub open spec fn after_generation_time(t: TimeOfDay) -> bool {
    t.secs >= SCHEDULE_GENERATION_HOUR * 3600 + SCHEDULE_GENERATION_MINUTE * 60
}

/// The time of day lies in the generation minute.
pub open spec fn in_generation_minute(t: TimeOfDay) -> bool {
    let start = SCHEDULE_GENERATION_HOUR * 3600 + SCHEDULE_GENERATION_MINUTE * 60;
    start <= t.secs < start + 60
}

/// What to generate when the process starts.
#[derive(Clone, Copy, Debug, PartialEq, Eq, Structural)]
pub struct BackfillPlan {
    pub generate_today: bool,
    pub generate_tomorrow: bool,
}

/// On startup: generate today when no entry is dated today, and tomorrow
/// when the generation time has passed and no entry is dated tomorrow.
pub fn startup_backfill_plan(
    table: &ActionTable,
    today: Date,
    now: TimeOfDay,
) -> (r: BackfillPlan)
    requires
        today.days_from_ce < i32::MAX,
    ensures
        r.generate_today == (table@.filter(dated(today)).len() == 0),
        r.generate_tomorrow == (after_generation_time(now) && table@.filter(
            dated(Date { days_from_ce: (today.days_from_ce + 1) as i32 }),
        ).len() == 0),
{
    let generate_today = table.count_on_date(today) == 0;
    let after = now.secs >= SCHEDULE_GENERATION_HOUR * 3600 + SCHEDULE_GENERATION_MINUTE * 60;
    let generate_tomorrow = if after {
        table.count_on_date(today.next_day()) == 0
    } else {
        false
    };
    BackfillPlan { generate_today, generate_tomorrow }
}

/// Which of the price source's paths serves a date.
#[derive(Clone, Copy, Debug, PartialEq, Eq, Structural)]
pub enum PriceDay {
    Today,
    Tomorrow,
    Other,
}

/// Today's and tomorrow's prices have paths of their own; any other date
/// is fetched by date.
pub fn price_day_for(date: Date, today: Date) -> (r: PriceDay)
    ensures
        r == (if date.days_from_ce == today.days_from_ce {
            PriceDay::Today
        } else if date.days_from_ce == today.days_from_ce + 1 {
            PriceDay::Tomorrow
        } else {
            PriceDay::Other
        }),
{
    if date.days_from_ce == today.days_from_ce {
        PriceDay::Today
    } else if date.days_from_ce as i64 == today.days_from_ce as i64 + 1 {
        PriceDay::Tomorrow
    } else {
        PriceDay::Other
    }
}

/// The state that the daily generation loop keeps between ticks.
#[derive(Clone, Copy, Debug, PartialEq, Eq, Structural)]
pub struct DailyScheduler {
    pub last_generation_date: Option<Date>,
    pub retry_pending: bool,
    pub last_retry: Option<i64>,
}

impl DailyScheduler {
    /// Nothing generated yet, no retry pending.
    pub fn new() -> (r: DailyScheduler)
        ensures
            r.last_generation_date.is_none(),
            !r.retry_pending,
            r.last_retry.is_none(),
    {
        DailyScheduler { last_generation_date: None, retry_pending: false, last_retry: None }
    }

    /// A retry is due: one is pending, and none was made yet or the last
    /// was at least the retry interval ago.
    pub open spec fn retry_due(self, now: LocalNow) -> bool {
        self.retry_pending && match self.last_retry {
            None => true,
            Some(last) => now.epoch_secs - last >= RETRY_INTERVAL_MINUTES * 60,
        }
    }

    /// Tomorrow's schedules are generated in the generation minute, unless
    /// they were already generated for that date, and whenever a retry is due.
    pub open spec fn should_generate_spec(self, now: LocalNow) -> bool {
        let tomorrow = Date { days_from_ce: (now.today.days_from_ce + 1) as i32 };
        (in_generation_minute(now.time) && self.last_generation_date != Some(tomorrow))
            || self.retry_due(now)
    }

    /// Whether this tick generates tomorrow's schedules.
    pub fn should_generate(&self, now: LocalNow) -> (r: bool)
        requires
            now.today.days_from_ce < i32::MAX,
        ensures
            r == self.should_generate_spec(now),
    {
        let tomorrow = now.today.next_day();
        let start = SCHEDULE_GENERATION_HOUR * 3600 + SCHEDULE_GENERATION_MINUTE * 60;
        let is_schedule_time = now.time.secs >= start && now.time.secs < start + 60;
        let already_generated = match self.last_generation_date {
            Some(d) => d.days_from_ce == tomorrow.days_from_ce,
            None => false,
        };
        let retry = self.retry_pending && match self.last_retry {
            None => true,
            Some(last) => (now.epoch_secs as i128) - (last as i128) >= (RETRY_INTERVAL_MINUTES
                * 60) as i128,
        };
        (is_schedule_time && !already_generated) || retry
    }

    /// Records the outcome of a generation for `tomorrow` made at `now`: a
    /// success remembers the date and clears the retry; a failure schedules
    /// a retry from `now`.
    pub fn record_outcome(&mut self, now: LocalNow, tomorrow: Date, succeeded: bool)
        ensures
            succeeded ==> *final(self) == (DailyScheduler {
                last_generation_date: Some(tomorrow),
                retry_pending: false,
                last_retry: None,
            }),
            !succeeded ==> *final(self) == (DailyScheduler {
                last_generation_date: old(self).last_generation_date,
                retry_pending: true,
                last_retry: Some(now.epoch_secs),
            }),
    {
        if succeeded {
            self.last_generation_date = Some(tomorrow);
            self.retry_pending = false;
            self.last_retry = None;
        } else {
            self.retry_pending = true;
            self.last_retry = Some(now.epoch_secs);
        }
    }
}

} // verus!
