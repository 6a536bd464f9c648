use vstd::prelude::*;
use vstd::string::*;

use crate::calendar::{DaysOfWeek, Date, TimeOfDay};
use crate::prices::{bound_wf, prices_wf, HourlyPrice};
use crate::regeneration::{
    generate_schedules_for_rule_and_date, generation, opt_prices_wf, opt_view,
    prices_available, regenerate_schedules_for_rule, regeneration, regeneration_message, rule_wf, Rule,
    ScheduleGenerationInfo,
};
use crate::schedule::{
    cancel_pending_schedules_for_rule, future_pending_of, with_status, ActionStatus, ActionTable,
    ScheduledAction,
};
use crate::text::{decimal, push_decimal};

verus! {

/// Why a rule's limits are refused.
#[derive(Clone, Copy, Debug, PartialEq, Eq, Structural)]
pub enum RuleError {
    MaxHoursOutOfRange,
    MinContinuousOutOfRange,
}

impl RuleError {
    pub fn message(&self) -> (r: String)
        ensures
            r@ == match *self {
                RuleError::MaxHoursOutOfRange => "max_hours must be between 1 and 24"@,
                RuleError::MinContinuousOutOfRange => "min_continuous_hours must be between 1 and max_hours"@,
            },
    {
        match self {
            RuleError::MaxHoursOutOfRange => String::from_str("max_hours must be between 1 and 24"),
            RuleError::MinContinuousOutOfRange => String::from_str(
                "min_continuous_hours must be between 1 and max_hours",
            ),
        }
    }
}

/// The outcome of checking `max_hours` and an optional minimum run, which
/// defaults to one hour: the minimum run when `1 <= max_hours <= 24` and
/// `1 <= min <= max_hours`.
pub open spec fn limits_spec(max_hours: i32, min_continuous_hours: Option<i32>) -> Result<i32, RuleError> {
    let min = match min_continuous_hours {
        Some(m) => m,
        None => 1,
    };
    if max_hours < 1 || max_hours > 24 {
        Err(RuleError::MaxHoursOutOfRange)
    } else if min < 1 || min > max_hours {
        Err(RuleError::MinContinuousOutOfRange)
    } else {
        Ok(min)
    }
}

/// Checks a rule's limits; returns the minimum run to store.
pub fn validate_rule_limits(max_hours: i32, min_continuous_hours: Option<i32>) -> (r: Result<i32, RuleError>)
    ensures
        r == limits_spec(max_hours, min_continuous_hours),
{
    let min = match min_continuous_hours {
        Some(m) => m,
        None => 1,
    };
    if max_hours < 1 || max_hours > 24 {
        Err(RuleError::MaxHoursOutOfRange)
    } else if min < 1 || min > max_hours {
        Err(RuleError::MinContinuousOutOfRange)
    } else {
        Ok(min)
    }
}

/// The fields of a new rule.
#[derive(Clone, Debug)]
pub struct CreateRuleRequest {
    pub device_id: u128,
    pub name: String,
    pub max_hours: i32,
    pub time_window_start: Option<TimeOfDay>,
    pub time_window_end: Option<TimeOfDay>,
    pub min_continuous_hours: Option<i32>,
    pub days_of_week: Option<u8>,
}

/// Builds the rule that `req` asks for, under the identifier `id`: enabled,
/// every day unless days are given, a minimum run of one hour unless one is
/// given; refused when its limits are out of range.
pub fn create_rule(id: u128, req: &CreateRuleRequest) -> (r: Result<Rule, RuleError>)
    requires
        bound_wf(req.time_window_start),
        bound_wf(req.time_window_end),
    ensures
        match limits_spec(req.max_hours, req.min_continuous_hours) {
            Err(e) => r == Err::<Rule, RuleError>(e),
            Ok(min) => r.is_ok() && ({
                let rule = r.unwrap();
                &&& rule.id == id
                &&& rule.device_id == req.device_id
                &&& rule.name@ == req.name@
                &&& rule.max_hours == req.max_hours
                &&& rule.min_continuous_hours == min
                &&& rule.time_window_start == req.time_window_start
                &&& rule.time_window_end == req.time_window_end
                &&& rule.days_of_week.0 == match req.days_of_week {
                    Some(d) => d,
                    None => DaysOfWeek::ALL_DAYS,
                }
                &&& rule.is_enabled
                &&& rule_wf(rule)
            }),
        },
{
    match validate_rule_limits(req.max_hours, req.min_continuous_hours) {
        Err(e) => Err(e),
        Ok(min) => {
            let days = match req.days_of_week {
                Some(d) => DaysOfWeek::new(d),
                None => DaysOfWeek::all(),
            };
            Ok(
                Rule {
                    id,
                    device_id: req.device_id,
                    name: req.name.clone(),
                    max_hours: req.max_hours,
                    time_window_start: req.time_window_start,
                    time_window_end: req.time_window_end,
                    min_continuous_hours: min,
                    days_of_week: days,
                    is_enabled: true,
                },
            )
        },
    }
}

/// Changes to a rule; a field left out keeps its value.
#[derive(Clone, Debug)]
pub struct UpdateRuleRequest {
    pub name: Option<String>,
    pub max_hours: Option<i32>,
    pub time_window_start: Option<TimeOfDay>,
    pub time_window_end: Option<TimeOfDay>,
    pub min_continuous_hours: Option<i32>,
    pub days_of_week: Option<u8>,
    pub is_enabled: Option<bool>,
}

pub open spec fn or_else<T>(a: Option<T>, b: T) -> T {
    match a {
        Some(x) => x,
        None => b,
    }
}

/// Applies `req` to `existing`; refused when the resulting limits are out
/// of range.
pub fn update_rule(existing: &Rule, req: &UpdateRuleRequest) -> (r: Result<Rule, RuleError>)
    requires
        rule_wf(*existing),
        bound_wf(req.time_window_start),
        bound_wf(req.time_window_end),
    ensures
        ({
            let max = or_else(req.max_hours, existing.max_hours);
            let min = or_else(req.min_continuous_hours, existing.min_continuous_hours);
            match limits_spec(max, Some(min)) {
                Err(e) => r == Err::<Rule, RuleError>(e),
                Ok(_) => r.is_ok() && ({
                    let rule = r.unwrap();
                    &&& rule.id == existing.id
                    &&& rule.device_id == existing.device_id
                    &&& rule.name@ == match req.name {
                        Some(n) => n@,
                        None => existing.name@,
                    }
                    &&& rule.max_hours == max
                    &&& rule.min_continuous_hours == min
                    &&& rule.time_window_start == match req.time_window_start {
                        Some(t) => Some(t),
                        None => existing.time_window_start,
                    }
                    &&& rule.time_window_end == match req.time_window_end {
                        Some(t) => Some(t),
                        None => existing.time_window_end,
                    }
                    &&& rule.days_of_week.0 == or_else(req.days_of_week, existing.days_of_week.0)
                    &&& rule.is_enabled == or_else(req.is_enabled, existing.is_enabled)
                    &&& rule_wf(rule)
                }),
            }
        }),
{
    let max = match req.max_hours {
        Some(m) => m,
        None => existing.max_hours,
    };
    let min = match req.min_continuous_hours {
        Some(m) => m,
        None => existing.min_continuous_hours,
    };
    match validate_rule_limits(max, Some(min)) {
        Err(e) => Err(e),
        Ok(_) => {
            let name = match &req.name {
                Some(n) => n.clone(),
                None => existing.name.clone(),
            };
            let start = match req.time_window_start {
                Some(t) => Some(t),
                None => existing.time_window_start,
            };
            let end = match req.time_window_end {
                Some(t) => Some(t),
                None => existing.time_window_end,
            };
            let days = match req.days_of_week {
                Some(d) => DaysOfWeek::new(d),
                None => existing.days_of_week,
            };
            let enabled = match req.is_enabled {
                Some(b) => b,
                None => existing.is_enabled,
            };
            Ok(
                Rule {
                    id: existing.id,
                    device_id: existing.device_id,
                    name,
                    max_hours: max,
                    time_window_start: start,
                    time_window_end: end,
                    min_continuous_hours: min,
                    days_of_week: days,
                    is_enabled: enabled,
                },
            )
        },
    }
}

/// The message after a rule was disabled and `n` pending entries cancelled.
pub open spec fn disabled_message(n: nat) -> Seq<char> {
    "Rule disabled. "@ + decimal(n) + " pending schedules cancelled."@
}

/// Brings the schedule in line with a rule that was just saved: an enabled
/// rule is regenerated; a disabled one has its pending entries that have not
/// started cancelled, and nothing else changes.
pub fn apply_rule_schedule(
    table: &mut ActionTable,
    rule: &Rule,
    today: Date,
    now: TimeOfDay,
    today_prices: &Option<Vec<HourlyPrice>>,
    tomorrow_prices: &Option<Vec<HourlyPrice>>,
) -> (r: ScheduleGenerationInfo)
    requires
        old(table).wf(),
        rule_wf(*rule),
        now.wf(),
        today.days_from_ce < i32::MAX,
        opt_prices_wf(*today_prices),
        opt_prices_wf(*tomorrow_prices),
    ensures
        final(table).wf(),
        rule.is_enabled ==> ({
            let g = regeneration(
                old(table)@,
                *rule,
                today,
                now,
                opt_view(*today_prices),
                opt_view(*tomorrow_prices),
            );
            &&& final(table)@ == g.0
            &&& r.schedules_created == g.1 + g.2
            &&& r.message@ == regeneration_message(
                g.1,
                g.2,
                prices_available(opt_view(*today_prices)),
                prices_available(opt_view(*tomorrow_prices)),
            )
        }),
        !rule.is_enabled ==> ({
            &&& final(table)@ == old(table)@.map_values(
                |e: ScheduledAction|
                    if future_pending_of(e, rule.id, today, now) {
                        with_status(e, ActionStatus::Cancelled)
                    } else {
                        e
                    },
            )
            &&& r.schedules_created == 0
            &&& r.message@ == disabled_message(
                old(table)@.filter(
                    |e: ScheduledAction| future_pending_of(e, rule.id, today, now),
                ).len(),
            )
        }),
{
    if rule.is_enabled {
        regenerate_schedules_for_rule(table, rule, today, now, today_prices, tomorrow_prices)
    } else {
        let n = cancel_pending_schedules_for_rule(table, rule.id, today, now);
        let mut m = String::from_str("Rule disabled. ");
        push_decimal(&mut m, n as u64);
        m.append(" pending schedules cancelled.");
        ScheduleGenerationInfo { schedules_created: 0, message: m }
    }
}

/// The table after scheduling each enabled rule of `rules` on `date`, in
/// order, and the number of entries created.
pub open spec fn generation_for_rules(
    t: Seq<ScheduledAction>,
    rules: Seq<Rule>,
    date: Date,
    prices: Seq<HourlyPrice>,
) -> (Seq<ScheduledAction>, nat)
    decreases rules.len(),
{
    if rules.len() == 0 {
        (t, 0)
    } else {
        let rest = rules.drop_first();
        if rules[0].is_enabled {
            let g = generation(t, rules[0], date, prices, None);
            let h = generation_for_rules(g.0, rest, date, prices);
            (h.0, g.1 + h.1)
        } else {
            generation_for_rules(t, rest, date, prices)
        }
    }
}

/// Schedules every enabled rule of `rules` on `date` with the day's prices;
/// returns the number of entries created.
pub fn generate_schedules_for_rules(
    table: &mut ActionTable,
    rules: &Vec<Rule>,
    prices: &[HourlyPrice],
    date: Date,
) -> (r: usize)
    requires
        old(table).wf(),
        rules@.len() <= usize::MAX / 24,
        forall|i: int| 0 <= i < rules@.len() ==> rule_wf(#[trigger] rules@[i]),
        prices_wf(prices@),
    ensures
        final(table).wf(),
        (final(table)@, r as nat) == generation_for_rules(old(table)@, rules@, date, prices@),
{
    let ghost goal = generation_for_rules(old(table)@, rules@, date, prices@);
    let n = rules.len();
    let mut count: usize = 0;
    let mut k: usize = 0;
    proof {
        assert(rules@.subrange(0, n as int) =~= rules@);
    }
    while k < n
        invariant
            n == rules@.len() <= usize::MAX / 24,
            forall|i: int| 0 <= i < rules@.len() ==> rule_wf(#[trigger] rules@[i]),
            prices_wf(prices@),
            k <= n,
            count <= 24 * k,
            table.wf(),
            generation_for_rules(table@, rules@.subrange(k as int, n as int), date, prices@).0
                == goal.0,
            generation_for_rules(table@, rules@.subrange(k as int, n as int), date, prices@).1
                + count == goal.1,
        decreases n - k,
    {
        let ghost rest = rules@.subrange(k as int, n as int);
        proof {
            assert(rest[0] == rules@[k as int]);
            assert(rest.drop_first() =~= rules@.subrange(k as int + 1, n as int));
        }
        let rule = &rules[k];
        if rule.is_enabled {
            let c = generate_schedules_for_rule_and_date(table, rule, prices, date, None);
            count = count + c;
        }
        k = k + 1;
    }
    count
}

} // verus!
