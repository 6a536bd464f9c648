use vstd::prelude::*;

verus! {

/// A day of the week, Monday first.
#[derive(Clone, Copy, Debug, PartialEq, Eq, Structural)]
pub enum Weekday {
    Mon,
    Tue,
    Wed,
    Thu,
    Fri,
    Sat,
    Sun,
}

/// The bit that stands for a weekday in a `DaysOfWeek` mask.
pub open spec fn day_bit(d: Weekday) -> u8 {
    match d {
        Weekday::Mon => 1,
        Weekday::Tue => 2,
        Weekday::Wed => 4,
        Weekday::Thu => 8,
        Weekday::Fri => 16,
        Weekday::Sat => 32,
        Weekday::Sun => 64,
    }
}

/// The weekday whose index (days since Monday) is `i mod 7`.
pub open spec fn weekday_of_index(i: int) -> Weekday {
    let m = i % 7;
    if m == 0 {
        Weekday::Mon
    } else if m == 1 {
        Weekday::Tue
    } else if m == 2 {
        Weekday::Wed
    } else if m == 3 {
        Weekday::Thu
    } else if m == 4 {
        Weekday::Fri
    } else if m == 5 {
        Weekday::Sat
    } else {
        Weekday::Sun
    }
}

/// The mask bit of a weekday.
pub fn weekday_bit(day: Weekday) -> (r: u8)
    ensures
        r == day_bit(day),
{
    match day {
        Weekday::Mon => DaysOfWeek::MONDAY,
        Weekday::Tue => DaysOfWeek::TUESDAY,
        Weekday::Wed => DaysOfWeek::WEDNESDAY,
        Weekday::Thu => DaysOfWeek::THURSDAY,
        Weekday::Fri => DaysOfWeek::FRIDAY,
        Weekday::Sat => DaysOfWeek::SATURDAY,
        Weekday::Sun => DaysOfWeek::SUNDAY,
    }
}

/// A calendar date of the proleptic Gregorian calendar, held as the number of
/// days since 1 January of year 1, which is day 1 (a Monday).
#[derive(Clone, Copy, Debug, PartialEq, Eq, Structural)]
pub struct Date {
    pub days_from_ce: i32,
}

impl Date {
    pub fn from_days_from_ce(days: i32) -> (r: Date)
        ensures
            r.days_from_ce == days,
    {
        Date { days_from_ce: days }
    }

    pub open spec fn weekday_spec(self) -> Weekday {
        weekday_of_index(self.days_from_ce - 1)
    }

    /// The day of the week of this date.
    pub fn weekday(&self) -> (r: Weekday)
        ensures
            r == self.weekday_spec(),
    {
        let m: i64 = (self.days_from_ce as i64 - 1) % 7;
        let m: i64 = if m < 0 { m + 7 } else { m };
        proof {
            assert(m == (self.days_from_ce - 1) % 7);
        }
        if m == 0 {
            Weekday::Mon
        } else if m == 1 {
            Weekday::Tue
        } else if m == 2 {
            Weekday::Wed
        } else if m == 3 {
            Weekday::Thu
        } else if m == 4 {
            Weekday::Fri
        } else if m == 5 {
            Weekday::Sat
        } else {
            Weekday::Sun
        }
    }

    /// The day after this one.
    pub fn next_day(&self) -> (r: Date)
        requires
            self.days_from_ce < i32::MAX,
        ensures
            r.days_from_ce == self.days_from_ce + 1,
    {
        Date { days_from_ce: self.days_from_ce + 1 }
    }
}

/// Seconds in a day.
pub const SECONDS_PER_DAY: u32 = 86400;

/// A wall-clock time of day, held as the seconds elapsed since midnight.
#[derive(Clone, Copy, Debug, PartialEq, Eq, Structural)]
pub struct TimeOfDay {
    pub secs: u32,
}

impl TimeOfDay {
    pub open spec fn wf(self) -> bool {
        self.secs < SECONDS_PER_DAY
    }

    pub open spec fn hour_spec(self) -> int {
        self.secs as int / 3600
    }

    /// The time `hour:minute:second`.
    pub fn from_hms(hour: u32, minute: u32, second: u32) -> (r: TimeOfDay)
        requires
            hour < 24,
            minute < 60,
            second < 60,
        ensures
            r.wf(),
            r.secs == hour * 3600 + minute * 60 + second,
            r.hour_spec() == hour,
    {
        TimeOfDay { secs: hour * 3600 + minute * 60 + second }
    }

    /// The hour of the day, 0 to 23.
    pub fn hour(&self) -> (r: u8)
        requires
            self.wf(),
        ensures
            r == self.hour_spec(),
            r < 24,
    {
        (self.secs / 3600) as u8
    }

    /// The time on which an hour-long slot starting at `hour` begins.
    pub fn start_of_hour(hour: u8) -> (r: TimeOfDay)
        requires
            hour < 24,
        ensures
            r.wf(),
            r.secs == hour * 3600,
            r.hour_spec() == hour,
    {
        TimeOfDay { secs: hour as u32 * 3600 }
    }
}

/// The days of the week on which a rule applies, as a bit mask: bit 0 for
/// Monday up to bit 6 for Sunday.
#[derive(Clone, Copy, Debug)]
pub struct DaysOfWeek(pub u8);

impl DaysOfWeek {
    pub const MONDAY: u8 = 1;
    pub const TUESDAY: u8 = 2;
    pub const WEDNESDAY: u8 = 4;
    pub const THURSDAY: u8 = 8;
    pub const FRIDAY: u8 = 16;
    pub const SATURDAY: u8 = 32;
    pub const SUNDAY: u8 = 64;
    pub const ALL_DAYS: u8 = 127;
    pub const WEEKDAYS: u8 = 31;
    pub const WEEKEND: u8 = 96;

    pub fn new(mask: u8) -> (r: Self)
        ensures
            r.0 == mask,
    {
        DaysOfWeek(mask)
    }

    /// Every day of the week.
    pub fn all() -> (r: Self)
        ensures
            r.0 == Self::ALL_DAYS,
            forall|d: Weekday| #[trigger] r.includes_spec(d),
    {
        let r = DaysOfWeek(Self::ALL_DAYS);
        proof {
            assert(127u8 & 1u8 != 0) by (bit_vector);
            assert(127u8 & 2u8 != 0) by (bit_vector);
            assert(127u8 & 4u8 != 0) by (bit_vector);
            assert(127u8 & 8u8 != 0) by (bit_vector);
            assert(127u8 & 16u8 != 0) by (bit_vector);
            assert(127u8 & 32u8 != 0) by (bit_vector);
            assert(127u8 & 64u8 != 0) by (bit_vector);
        }
        r
    }

    pub open spec fn includes_spec(self, day: Weekday) -> bool {
        self.0 & day_bit(day) != 0
    }

    /// Whether the mask holds the bit of `day`.
    pub fn includes(&self, day: Weekday) -> (r: bool)
        ensures
            r == self.includes_spec(day),
    {
        (self.0 & weekday_bit(day)) != 0
    }

    /// Whether the mask holds the weekday of `date`.
    pub fn includes_date(&self, date: Date) -> (r: bool)
        ensures
            r == self.includes_spec(date.weekday_spec()),
    {
        self.includes(date.weekday())
    }
}

impl Default for DaysOfWeek {
    fn default() -> (r: Self)
        ensures
            r.0 == DaysOfWeek::ALL_DAYS,
    {
        DaysOfWeek::all()
    }
}

} // verus!
