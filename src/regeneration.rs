use vstd::prelude::*;
use vstd::string::*;

use crate::calendar::{DaysOfWeek, Date, TimeOfDay};
use crate::prices::{bound_wf, prices_wf, HourlyPrice};
use crate::schedule::{
    future_pending_of, has_key, not_future_pending_of, ActionStatus, ActionTable,
    ScheduledAction,
};
use crate::selector::{calculate_optimal_hours, lemma_selection_len, optimal_spec};
use crate::text::{decimal, push_decimal};

verus! {

broadcast use vstd::seq_lib::group_seq_properties;

/// An automation rule: run one device for `max_hours` hours on each day of
/// `days_of_week`, in runs of at least `min_continuous_hours`, inside the
/// optional time window.
#[derive(Clone, Debug)]
pub struct Rule {
    pub id: u128,
    pub device_id: u128,
    pub name: String,
    pub max_hours: i32,
    pub time_window_start: Option<TimeOfDay>,
    pub time_window_end: Option<TimeOfDay>,
    pub min_continuous_hours: i32,
    pub days_of_week: DaysOfWeek,
    pub is_enabled: bool,
}

/// `1 <= min_continuous_hours <= max_hours <= 24`, and well-formed window
/// bounds.
pub open spec fn rule_wf(r: Rule) -> bool {
    &&& 1 <= r.min_continuous_hours <= r.max_hours <= 24
    &&& bound_wf(r.time_window_start)
    &&& bound_wf(r.time_window_end)
}

/// What a regeneration did: how many entries it created, and in words.
#[derive(Clone, Debug)]
pub struct ScheduleGenerationInfo {
    pub schedules_created: usize,
    pub message: String,
}

/// The hour `h` has already begun by `min_time`.
pub open spec fn hour_passed(h: u8, min_time: Option<TimeOfDay>) -> bool {
    match min_time {
        Some(m) => h * 3600 <= m.secs,
        None => false,
    }
}

/// The price of the first entry for hour `h`.
pub open spec fn price_at(s: Seq<HourlyPrice>, h: u8) -> Option<i64>
    decreases s.len(),
{
    if s.len() == 0 {
        None
    } else if s[0].hour == h {
        Some(s[0].price)
    } else {
        price_at(s.drop_first(), h)
    }
}

/// The pending entry for rule `rule_id` at hour `h` of `date`.
pub open spec fn entry_for(rule_id: u128, date: Date, h: u8, prices: Seq<HourlyPrice>) -> ScheduledAction {
    ScheduledAction {
        rule_id,
        scheduled_date: date,
        start_hour: h,
        end_hour: ((h + 1) % 24) as u8,
        price: price_at(prices, h),
        status: ActionStatus::Pending,
    }
}

/// Adds, in order, an entry for each hour of `hours` that has not passed by
/// `min_time`, unless one with its key is held; also counts those added.
pub open spec fn insert_hours(
    t: Seq<ScheduledAction>,
    rule_id: u128,
    date: Date,
    prices: Seq<HourlyPrice>,
    hours: Seq<u8>,
    min_time: Option<TimeOfDay>,
) -> (Seq<ScheduledAction>, nat)
    decreases hours.len(),
{
    if hours.len() == 0 {
        (t, 0)
    } else {
        let rest = hours.drop_first();
        let e = entry_for(rule_id, date, hours[0], prices);
        if hour_passed(hours[0], min_time) || has_key(t, e) {
            insert_hours(t, rule_id, date, prices, rest, min_time)
        } else {
            let g = insert_hours(t.push(e), rule_id, date, prices, rest, min_time);
            (g.0, g.1 + 1)
        }
    }
}

/// The table after scheduling `rule` on `date`, and the number of entries
/// created: nothing on a weekday the rule skips, else one entry per chosen
/// hour that has not passed by `min_time` and is not held yet.
pub open spec fn generation(
    t: Seq<ScheduledAction>,
    rule: Rule,
    date: Date,
    prices: Seq<HourlyPrice>,
    min_time: Option<TimeOfDay>,
) -> (Seq<ScheduledAction>, nat) {
    if !rule.days_of_week.includes_spec(date.weekday_spec()) {
        (t, 0)
    } else {
        let hours = optimal_spec(
            prices,
            rule.max_hours as int,
            rule.min_continuous_hours as int,
            rule.time_window_start,
            rule.time_window_end,
        ).0;
        insert_hours(t, rule.id, date, prices, hours, min_time)
    }
}

fn price_for_hour(prices: &[HourlyPrice], h: u8) -> (r: Option<i64>)
    ensures
        r == price_at(prices@, h),
{
    let mut i: usize = 0;
    while i < prices.len()
        invariant
            i <= prices@.len(),
            price_at(prices@, h) == price_at(prices@.subrange(i as int, prices@.len() as int), h),
        decreases prices.len() - i,
    {
        let ghost rest = prices@.subrange(i as int, prices@.len() as int);
        proof {
            assert(rest.drop_first() =~= prices@.subrange(i as int + 1, prices@.len() as int));
        }
        if prices[i].hour == h {
            return Some(prices[i].price);
        }
        i = i + 1;
    }
    None
}

/// Schedules `rule` on `date`: unless the rule skips that weekday, adds a
/// pending entry for each chosen hour that has not passed by `min_time`,
/// leaving alone any entry already held under the same key. Returns the
/// number of entries created.
pub fn generate_schedules_for_rule_and_date(
    table: &mut ActionTable,
    rule: &Rule,
    prices: &[HourlyPrice],
    date: Date,
    min_time: Option<TimeOfDay>,
) -> (r: usize)
    requires
        old(table).wf(),
        rule_wf(*rule),
        prices_wf(prices@),
        bound_wf(min_time),
    ensures
        final(table).wf(),
        (final(table)@, r as nat) == generation(old(table)@, *rule, date, prices@, min_time),
        r <= 24,
{
    if !rule.days_of_week.includes_date(date) {
        return 0;
    }
    let optimal = calculate_optimal_hours(
        prices,
        rule.max_hours,
        rule.min_continuous_hours,
        rule.time_window_start,
        rule.time_window_end,
    );
    let ghost goal = generation(old(table)@, *rule, date, prices@, min_time);
    proof {
        lemma_selection_len(
            prices@,
            rule.max_hours as int,
            rule.min_continuous_hours as int,
            rule.time_window_start,
            rule.time_window_end,
        );
        assert(optimal.hours@.subrange(0, optimal.hours@.len() as int) =~= optimal.hours@);
    }
    let hours = optimal.hours;
    let n = hours.len();
    let mut count: usize = 0;
    let mut k: usize = 0;
    while k < n
        invariant
            n == hours@.len() <= 24,
            k <= n,
            count <= k,
            table.wf(),
            insert_hours(
                table@,
                rule.id,
                date,
                prices@,
                hours@.subrange(k as int, n as int),
                min_time,
            ).0 == goal.0,
            insert_hours(
                table@,
                rule.id,
                date,
                prices@,
                hours@.subrange(k as int, n as int),
                min_time,
            ).1 + count == goal.1,
        decreases n - k,
    {
        let h = hours[k];
        let ghost rest = hours@.subrange(k as int, n as int);
        proof {
            assert(rest[0] == h);
            assert(rest.drop_first() =~= hours@.subrange(k as int + 1, n as int));
        }
        let passed = match min_time {
            Some(m) => (h as u32) * 3600 <= m.secs,
            None => false,
        };
        if !passed {
            let e = ScheduledAction {
                rule_id: rule.id,
                scheduled_date: date,
                start_hour: h,
                end_hour: ((h as u32 + 1) % 24) as u8,
                price: price_for_hour(prices, h),
                status: ActionStatus::Pending,
            };
            proof {
                assert(e == entry_for(rule.id, date, h, prices@));
            }
            if table.insert_if_absent(e) {
                count = count + 1;
            }
        }
        k = k + 1;
    }
    count
}

/// The table after a regeneration of `rule` at `now` on `today`, with the
/// numbers of entries created for today and for tomorrow. Pending entries of
/// the rule that have not started are removed first; then today is scheduled
/// for the hours after `now` if today's prices came, and tomorrow in full if
/// tomorrow's prices came and are not empty.
pub open spec fn regeneration(
    t: Seq<ScheduledAction>,
    rule: Rule,
    today: Date,
    now: TimeOfDay,
    today_prices: Option<Seq<HourlyPrice>>,
    tomorrow_prices: Option<Seq<HourlyPrice>>,
) -> (Seq<ScheduledAction>, nat, nat) {
    let t1 = t.filter(not_future_pending_of(rule.id, today, now));
    let g1 = match today_prices {
        Some(p) => generation(t1, rule, today, p, Some(now)),
        None => (t1, 0),
    };
    let tomorrow = Date { days_from_ce: (today.days_from_ce + 1) as i32 };
    let g2 = match tomorrow_prices {
        Some(p) => if p.len() > 0 {
            generation(g1.0, rule, tomorrow, p, None)
        } else {
            (g1.0, 0)
        },
        None => (g1.0, 0),
    };
    (g2.0, g1.1, g2.1)
}

pub open spec fn opt_view(p: Option<Vec<HourlyPrice>>) -> Option<Seq<HourlyPrice>> {
    match p {
        Some(v) => Some(v@),
        None => None,
    }
}

pub open spec fn opt_prices_wf(p: Option<Vec<HourlyPrice>>) -> bool {
    match p {
        Some(v) => prices_wf(v@),
        None => true,
    }
}

/// The outcome in words: the counts when something was created; else that
/// today's hours have passed (today's prices came, tomorrow's did not), that
/// no prices are out yet (neither came), or that nothing could be created.
pub open spec fn regeneration_message(
    today_count: nat,
    tomorrow_count: nat,
    today_available: bool,
    tomorrow_available: bool,
) -> Seq<char> {
    if today_count + tomorrow_count > 0 {
        "Created "@ + decimal(today_count + tomorrow_count) + " schedules ("@ + decimal(
            today_count,
        ) + " for today, "@ + decimal(tomorrow_count) + " for tomorrow)"@
    } else if today_available && !tomorrow_available {
        "Today's optimal hours have already passed; tomorrow's schedules will be generated once its prices are published."@
    } else if !today_available && !tomorrow_available {
        "Prices are not available yet; schedules will be generated automatically once they are."@
    } else {
        "No schedules could be generated for this rule today."@
    }
}

/// Prices that came and hold at least one hour.
pub open spec fn prices_available(p: Option<Seq<HourlyPrice>>) -> bool {
    match p {
        Some(s) => s.len() > 0,
        None => false,
    }
}

fn has_prices(p: &Option<Vec<HourlyPrice>>) -> (r: bool)
    ensures
        r == prices_available(opt_view(*p)),
{
    match p {
        Some(v) => v.len() > 0,
        None => false,
    }
}

/// Builds the message of a regeneration.
pub fn regeneration_summary(
    today_count: usize,
    tomorrow_count: usize,
    today_available: bool,
    tomorrow_available: bool,
) -> (r: ScheduleGenerationInfo)
    requires
        today_count <= 24,
        tomorrow_count <= 24,
    ensures
        r.schedules_created == today_count + tomorrow_count,
        r.message@ == regeneration_message(
            today_count as nat,
            tomorrow_count as nat,
            today_available,
            tomorrow_available,
        ),
{
    let created = today_count + tomorrow_count;
    let message = if created > 0 {
        let mut m = String::from_str("Created ");
        push_decimal(&mut m, created as u64);
        m.append(" schedules (");
        push_decimal(&mut m, today_count as u64);
        m.append(" for today, ");
        push_decimal(&mut m, tomorrow_count as u64);
        m.append(" for tomorrow)");
        m
    } else if today_available && !tomorrow_available {
        String::from_str(
            "Today's optimal hours have already passed; tomorrow's schedules will be generated once its prices are published.",
        )
    } else if !today_available && !tomorrow_available {
        String::from_str(
            "Prices are not available yet; schedules will be generated automatically once they are.",
        )
    } else {
        String::from_str("No schedules could be generated for this rule today.")
    };
    ScheduleGenerationInfo { schedules_created: created, message }
}

/// Regenerates the schedule of `rule` at `now` on `today`, given the prices
/// that came for today and for tomorrow (`None` where fetching failed):
/// removes the rule's pending entries that have not started, schedules today
/// after `now` and tomorrow in full, and reports the outcome.
pub fn regenerate_schedules_for_rule(
    table: &mut ActionTable,
    rule: &Rule,
    today: Date,
    now: TimeOfDay,
    today_prices: &Option<Vec<HourlyPrice>>,
    tomorrow_prices: &Option<Vec<HourlyPrice>>,
) -> (r: ScheduleGenerationInfo)
    requires
        old(table).wf(),
        rule_wf(*rule),
        now.wf(),
        today.days_from_ce < i32::MAX,
        opt_prices_wf(*today_prices),
        opt_prices_wf(*tomorrow_prices),
    ensures
        final(table).wf(),
        ({
            let g = regeneration(
                old(table)@,
                *rule,
                today,
                now,
                opt_view(*today_prices),
                opt_view(*tomorrow_prices),
            );
            &&& final(table)@ == g.0
            &&& r.schedules_created == g.1 + g.2
            &&& r.message@ == regeneration_message(
                g.1,
                g.2,
                prices_available(opt_view(*today_prices)),
                prices_available(opt_view(*tomorrow_prices)),
            )
        }),
{
    table.delete_future_pending(rule.id, today, now);
    let today_count = match today_prices {
        Some(p) => generate_schedules_for_rule_and_date(table, rule, p.as_slice(), today, Some(now)),
        None => 0,
    };
    let tomorrow = today.next_day();
    let tomorrow_count = match tomorrow_prices {
        Some(p) => if p.len() > 0 {
            generate_schedules_for_rule_and_date(table, rule, p.as_slice(), tomorrow, None)
        } else {
            0
        },
        None => 0,
    };
    regeneration_summary(
        today_count,
        tomorrow_count,
        has_prices(today_prices),
        has_prices(tomorrow_prices),
    )
}

/// Scheduling today after `now`, or a later date, only appends entries, and
/// each is a pending entry of the rule still to come.
proof fn lemma_insert_hours_appends(
    t: Seq<ScheduledAction>,
    rule_id: u128,
    date: Date,
    prices: Seq<HourlyPrice>,
    hours: Seq<u8>,
    min_time: Option<TimeOfDay>,
    today: Date,
    now: TimeOfDay,
)
    requires
        (date.days_from_ce == today.days_from_ce && min_time == Some(now))
            || date.days_from_ce > today.days_from_ce,
    ensures
        ({
            let r = insert_hours(t, rule_id, date, prices, hours, min_time).0;
            &&& t.len() <= r.len()
            &&& r.subrange(0, t.len() as int) == t
            &&& forall|i: int|
                t.len() <= i < r.len() ==> future_pending_of(#[trigger] r[i], rule_id, today, now)
        }),
    decreases hours.len(),
{
    if hours.len() > 0 {
        let rest = hours.drop_first();
        let e = entry_for(rule_id, date, hours[0], prices);
        if hour_passed(hours[0], min_time) || has_key(t, e) {
            lemma_insert_hours_appends(t, rule_id, date, prices, rest, min_time, today, now);
        } else {
            let t2 = t.push(e);
            lemma_insert_hours_appends(t2, rule_id, date, prices, rest, min_time, today, now);
            let r = insert_hours(t2, rule_id, date, prices, rest, min_time).0;
            assert(r[t.len() as int] == r.subrange(0, t2.len() as int)[t.len() as int]);
            assert(r.subrange(0, t.len() as int) =~= r.subrange(0, t2.len() as int).subrange(
                0,
                t.len() as int,
            ));
            assert(future_pending_of(e, rule_id, today, now));
        }
    }
}

proof fn lemma_generation_appends(
    t: Seq<ScheduledAction>,
    rule: Rule,
    date: Date,
    prices: Seq<HourlyPrice>,
    min_time: Option<TimeOfDay>,
    today: Date,
    now: TimeOfDay,
)
    requires
        (date.days_from_ce == today.days_from_ce && min_time == Some(now))
            || date.days_from_ce > today.days_from_ce,
    ensures
        ({
            let r = generation(t, rule, date, prices, min_time).0;
            &&& t.len() <= r.len()
            &&& r.subrange(0, t.len() as int) == t
            &&& forall|i: int|
                t.len() <= i < r.len() ==> future_pending_of(#[trigger] r[i], rule.id, today, now)
        }),
{
    if rule.days_of_week.includes_spec(date.weekday_spec()) {
        let hours = optimal_spec(
            prices,
            rule.max_hours as int,
            rule.min_continuous_hours as int,
            rule.time_window_start,
            rule.time_window_end,
        ).0;
        lemma_insert_hours_appends(t, rule.id, date, prices, hours, min_time, today, now);
    } else {
        assert(t.subrange(0, t.len() as int) =~= t);
    }
}

proof fn lemma_filter_keeps_all(s: Seq<ScheduledAction>, pred: spec_fn(ScheduledAction) -> bool)
    requires
        forall|i: int| 0 <= i < s.len() ==> pred(#[trigger] s[i]),
    ensures
        s.filter(pred) == s,
    decreases s.len(),
{
    reveal(Seq::filter);
    if s.len() > 0 {
        lemma_filter_keeps_all(s.drop_last(), pred);
        assert(s.drop_last().push(s.last()) =~= s);
    }
}

proof fn lemma_filter_drops_tail(
    s: Seq<ScheduledAction>,
    extra: Seq<ScheduledAction>,
    pred: spec_fn(ScheduledAction) -> bool,
)
    requires
        forall|i: int| 0 <= i < extra.len() ==> !pred(#[trigger] extra[i]),
    ensures
        (s + extra).filter(pred) == s.filter(pred),
    decreases extra.len(),
{
    if extra.len() > 0 {
        let init = extra.drop_last();
        lemma_filter_drops_tail(s, init, pred);
        assert((s + extra) =~= (s + init).push(extra.last()));
        (s + init).lemma_filter_push(extra.last(), pred);
    } else {
        assert(s + extra =~= s);
    }
}

/// Regenerating a rule a second time, at the same moment and with the same
/// prices, leaves the table exactly as the first regeneration left it: the
/// entries the first one created are removed and created again, and nothing
/// else changes.
pub proof fn lemma_regeneration_idempotent(
    t: Seq<ScheduledAction>,
    rule: Rule,
    today: Date,
    now: TimeOfDay,
    today_prices: Option<Seq<HourlyPrice>>,
    tomorrow_prices: Option<Seq<HourlyPrice>>,
)
    requires
        today.days_from_ce < i32::MAX,
    ensures
        regeneration(
            regeneration(t, rule, today, now, today_prices, tomorrow_prices).0,
            rule,
            today,
            now,
            today_prices,
            tomorrow_prices,
        ).0 == regeneration(t, rule, today, now, today_prices, tomorrow_prices).0,
{
    let pred = not_future_pending_of(rule.id, today, now);
    let t1 = t.filter(pred);
    assert forall|i: int| 0 <= i < t1.len() implies pred(#[trigger] t1[i]) by {
        t.lemma_filter_pred(pred, i);
    }
    let g1 = match today_prices {
        Some(p) => generation(t1, rule, today, p, Some(now)),
        None => (t1, 0),
    };
    match today_prices {
        Some(p) => lemma_generation_appends(t1, rule, today, p, Some(now), today, now),
        None => assert(t1.subrange(0, t1.len() as int) =~= t1),
    }
    let tomorrow = Date { days_from_ce: (today.days_from_ce + 1) as i32 };
    let g2 = match tomorrow_prices {
        Some(p) => if p.len() > 0 {
            generation(g1.0, rule, tomorrow, p, None)
        } else {
            (g1.0, 0)
        },
        None => (g1.0, 0),
    };
    match tomorrow_prices {
        Some(p) => if p.len() > 0 {
            lemma_generation_appends(g1.0, rule, tomorrow, p, None, today, now);
        } else {
            assert(g1.0.subrange(0, g1.0.len() as int) =~= g1.0);
        },
        None => assert(g1.0.subrange(0, g1.0.len() as int) =~= g1.0),
    }
    let r = g2.0;
    assert(r == regeneration(t, rule, today, now, today_prices, tomorrow_prices).0);
    let extra = r.subrange(t1.len() as int, r.len() as int);
    assert(r.subrange(0, t1.len() as int) =~= g1.0.subrange(0, t1.len() as int)) by {
        assert(r.subrange(0, t1.len() as int) =~= r.subrange(0, g1.0.len() as int).subrange(
            0,
            t1.len() as int,
        ));
    }
    assert(r =~= t1 + extra);
    assert forall|i: int| 0 <= i < extra.len() implies !pred(#[trigger] extra[i]) by {
        assert(extra[i] == r[t1.len() + i]);
        if t1.len() + i >= g1.0.len() {
        } else {
            assert(r[t1.len() + i] == r.subrange(0, g1.0.len() as int)[t1.len() + i]);
        }
    }
    lemma_filter_drops_tail(t1, extra, pred);
    lemma_filter_keeps_all(t1, pred);
    assert(r.filter(pred) == t1);
}

} // verus!
