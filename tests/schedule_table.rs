use pvpc_scheduler::calendar::{DaysOfWeek, Date, TimeOfDay};
use pvpc_scheduler::prices::HourlyPrice;
use pvpc_scheduler::regeneration::{
    generate_schedules_for_rule_and_date, regenerate_schedules_for_rule, regeneration_summary, Rule,
};
use pvpc_scheduler::rules::{
    apply_rule_schedule, create_rule, generate_schedules_for_rules, update_rule,
    validate_rule_limits, CreateRuleRequest, RuleError, UpdateRuleRequest,
};
use pvpc_scheduler::schedule::{
    cancel_pending_schedules_for_rule, mark_expired_actions_as_missed, ActionStatus, ActionTable,
    ScheduledAction,
};

// 2024-01-15, a Monday.
const MONDAY: i32 = 738_900;

fn entry(rule_id: u128, day: i32, start: u8, end: u8) -> ScheduledAction {
    ScheduledAction {
        rule_id,
        scheduled_date: Date::from_days_from_ce(day),
        start_hour: start,
        end_hour: end,
        price: None,
        status: ActionStatus::Pending,
    }
}

fn entries(t: &ActionTable) -> Vec<ScheduledAction> {
    (0..t.len()).map(|i| t.get(i)).collect()
}

fn cheap_night_prices() -> Vec<HourlyPrice> {
    (0..24u8)
        .map(|hour| HourlyPrice { hour, price: if hour <= 5 { 50_000 } else { 200_000 } })
        .collect()
}

fn rule(id: u128, max_hours: i32, min: i32, days: u8) -> Rule {
    Rule {
        id,
        device_id: 99,
        name: "boiler".to_string(),
        max_hours,
        time_window_start: None,
        time_window_end: None,
        min_continuous_hours: min,
        days_of_week: DaysOfWeek::new(days),
        is_enabled: true,
    }
}

#[test]
fn insert_if_absent_keeps_keys_unique() {
    let mut t = ActionTable::new();
    assert!(t.insert_if_absent(entry(1, MONDAY, 3, 4)));
    let mut other = entry(1, MONDAY, 3, 4);
    other.status = ActionStatus::Executed;
    assert!(!t.insert_if_absent(other));
    assert!(t.insert_if_absent(entry(2, MONDAY, 3, 4)));
    assert!(t.insert_if_absent(entry(1, MONDAY + 1, 3, 4)));
    assert_eq!(t.len(), 3);
    assert_eq!(t.get(0).status, ActionStatus::Pending);
    assert_eq!(t.count_on_date(Date::from_days_from_ce(MONDAY)), 2);
}

#[test]
fn expiry_sweep_marks_ended_and_old_entries() {
    let mut t = ActionTable::new();
    t.insert_if_absent(entry(1, MONDAY, 10, 14));
    t.insert_if_absent(entry(1, MONDAY - 1, 22, 23));
    t.insert_if_absent(entry(1, MONDAY, 23, 0));
    t.insert_if_absent(entry(1, MONDAY, 15, 16));
    let today = Date::from_days_from_ce(MONDAY);

    let n = mark_expired_actions_as_missed(&mut t, today, TimeOfDay::from_hms(13, 59, 59));
    assert_eq!(n, 1);
    let e = entries(&t);
    assert_eq!(e[0].status, ActionStatus::Pending);
    assert_eq!(e[1].status, ActionStatus::Missed);

    let n = mark_expired_actions_as_missed(&mut t, today, TimeOfDay::from_hms(14, 0, 0));
    assert_eq!(n, 1);
    let e = entries(&t);
    assert_eq!(e[0].status, ActionStatus::Missed);
    assert_eq!(e[2].status, ActionStatus::Pending);
    assert_eq!(e[3].status, ActionStatus::Pending);

    let n = mark_expired_actions_as_missed(&mut t, today, TimeOfDay::from_hms(23, 59, 59));
    assert_eq!(n, 1);
    assert_eq!(entries(&t)[2].status, ActionStatus::Pending);
    assert_eq!(entries(&t)[3].status, ActionStatus::Missed);

    let tomorrow = Date::from_days_from_ce(MONDAY + 1);
    let n = mark_expired_actions_as_missed(&mut t, tomorrow, TimeOfDay::from_hms(0, 0, 0));
    assert_eq!(n, 1);
    assert_eq!(entries(&t)[2].status, ActionStatus::Missed);
}

#[test]
fn expiry_sweep_leaves_final_states_alone() {
    let mut t = ActionTable::new();
    let mut done = entry(1, MONDAY - 3, 1, 2);
    done.status = ActionStatus::Executed;
    t.insert_if_absent(done);
    let n = mark_expired_actions_as_missed(&mut t, Date::from_days_from_ce(MONDAY), TimeOfDay::from_hms(12, 0, 0));
    assert_eq!(n, 0);
    assert_eq!(t.get(0).status, ActionStatus::Executed);
}

#[test]
fn disabling_cancels_only_future_pending() {
    let mut t = ActionTable::new();
    t.insert_if_absent(entry(7, MONDAY, 18, 19));
    t.insert_if_absent(entry(7, MONDAY, 8, 9));
    t.insert_if_absent(entry(8, MONDAY, 19, 20));
    let n = cancel_pending_schedules_for_rule(&mut t, 7, Date::from_days_from_ce(MONDAY), TimeOfDay::from_hms(12, 0, 0));
    assert_eq!(n, 1);
    let e = entries(&t);
    assert_eq!(e[0].status, ActionStatus::Cancelled);
    assert_eq!(e[1].status, ActionStatus::Pending);
    assert_eq!(e[2].status, ActionStatus::Pending);
    let n = mark_expired_actions_as_missed(&mut t, Date::from_days_from_ce(MONDAY), TimeOfDay::from_hms(12, 0, 0));
    assert_eq!(n, 1);
    assert_eq!(entries(&t)[1].status, ActionStatus::Missed);
}

#[test]
fn disabled_rule_through_schedule_update() {
    let mut t = ActionTable::new();
    t.insert_if_absent(entry(7, MONDAY, 18, 19));
    t.insert_if_absent(entry(7, MONDAY, 8, 9));
    let mut r = rule(7, 3, 1, 127);
    r.is_enabled = false;
    let info = apply_rule_schedule(&mut t, &r, Date::from_days_from_ce(MONDAY), TimeOfDay::from_hms(12, 0, 0), &None, &None);
    assert_eq!(info.schedules_created, 0);
    assert_eq!(info.message, "Rule disabled. 1 pending schedules cancelled.");
    assert_eq!(entries(&t)[0].status, ActionStatus::Cancelled);
    assert_eq!(entries(&t)[1].status, ActionStatus::Pending);
}

#[test]
fn generation_skips_excluded_weekday() {
    let mut t = ActionTable::new();
    let r = rule(1, 3, 1, DaysOfWeek::WEEKEND);
    let n = generate_schedules_for_rule_and_date(&mut t, &r, &cheap_night_prices(), Date::from_days_from_ce(MONDAY), None);
    assert_eq!(n, 0);
    assert_eq!(t.len(), 0);
}

#[test]
fn generation_creates_pending_entries_after_min_time() {
    let mut t = ActionTable::new();
    let r = rule(1, 3, 1, DaysOfWeek::MONDAY);
    let n = generate_schedules_for_rule_and_date(
        &mut t,
        &r,
        &cheap_night_prices(),
        Date::from_days_from_ce(MONDAY),
        Some(TimeOfDay::from_hms(1, 0, 0)),
    );
    assert_eq!(n, 1);
    let e = entries(&t);
    assert_eq!(e[0].start_hour, 2);
    assert_eq!(e[0].end_hour, 3);
    assert_eq!(e[0].price, Some(50_000));
    assert_eq!(e[0].status, ActionStatus::Pending);
}

#[test]
fn entry_at_hour_23_ends_at_midnight() {
    let mut t = ActionTable::new();
    let prices = vec![HourlyPrice { hour: 23, price: 1 }, HourlyPrice { hour: 12, price: 9 }];
    let r = rule(1, 1, 1, 127);
    let n = generate_schedules_for_rule_and_date(&mut t, &r, &prices, Date::from_days_from_ce(MONDAY), None);
    assert_eq!(n, 1);
    assert_eq!(t.get(0).start_hour, 23);
    assert_eq!(t.get(0).end_hour, 0);
}

#[test]
fn regeneration_twice_gives_the_same_table() {
    let mut t = ActionTable::new();
    t.insert_if_absent(entry(1, MONDAY, 0, 1));
    let r = rule(1, 4, 2, 127);
    let today = Date::from_days_from_ce(MONDAY);
    let now = TimeOfDay::from_hms(0, 30, 0);
    let prices = Some(cheap_night_prices());
    let first = regenerate_schedules_for_rule(&mut t, &r, today, now, &prices, &prices);
    let after_first = entries(&t);
    assert_eq!(first.schedules_created, 7);
    assert_eq!(first.message, "Created 7 schedules (3 for today, 4 for tomorrow)");
    let second = regenerate_schedules_for_rule(&mut t, &r, today, now, &prices, &prices);
    assert_eq!(entries(&t), after_first);
    assert_eq!(second.schedules_created, 7);
    let mut keys: Vec<(u128, i32, u8)> =
        after_first.iter().map(|e| (e.rule_id, e.scheduled_date.days_from_ce, e.start_hour)).collect();
    keys.sort();
    keys.dedup();
    assert_eq!(keys.len(), after_first.len());
}

#[test]
fn regeneration_messages() {
    let mut t = ActionTable::new();
    let r = rule(1, 2, 1, 127);
    let today = Date::from_days_from_ce(MONDAY);
    let late = TimeOfDay::from_hms(23, 30, 0);
    let info = regenerate_schedules_for_rule(&mut t, &r, today, late, &Some(cheap_night_prices()), &None);
    assert_eq!(info.schedules_created, 0);
    assert!(info.message.starts_with("Today's optimal hours have already passed"));
    let info = regenerate_schedules_for_rule(&mut t, &r, today, late, &None, &Some(Vec::new()));
    assert!(info.message.starts_with("Prices are not available yet"));
    assert_eq!(
        regeneration_summary(0, 0, true, true).message,
        "No schedules could be generated for this rule today."
    );
    assert_eq!(regeneration_summary(12, 0, true, false).message, "Created 12 schedules (12 for today, 0 for tomorrow)");
}

#[test]
fn generation_for_all_enabled_rules() {
    let mut t = ActionTable::new();
    let mut off = rule(2, 3, 1, 127);
    off.is_enabled = false;
    let rules = vec![rule(1, 2, 1, 127), off, rule(3, 3, 3, 127)];
    let n = generate_schedules_for_rules(&mut t, &rules, &cheap_night_prices(), Date::from_days_from_ce(MONDAY));
    assert_eq!(n, 5);
    let again = generate_schedules_for_rules(&mut t, &rules, &cheap_night_prices(), Date::from_days_from_ce(MONDAY));
    assert_eq!(again, 0);
    assert_eq!(t.len(), 5);
}

#[test]
fn rule_limits_are_checked() {
    assert_eq!(validate_rule_limits(0, None), Err(RuleError::MaxHoursOutOfRange));
    assert_eq!(validate_rule_limits(25, Some(1)), Err(RuleError::MaxHoursOutOfRange));
    assert_eq!(validate_rule_limits(4, Some(5)), Err(RuleError::MinContinuousOutOfRange));
    assert_eq!(validate_rule_limits(4, Some(0)), Err(RuleError::MinContinuousOutOfRange));
    assert_eq!(validate_rule_limits(4, None), Ok(1));
    assert_eq!(validate_rule_limits(24, Some(24)), Ok(24));
    assert_eq!(RuleError::MaxHoursOutOfRange.message(), "max_hours must be between 1 and 24");
}

#[test]
fn create_and_update_rule() {
    let req = CreateRuleRequest {
        device_id: 5,
        name: "heater".to_string(),
        max_hours: 4,
        time_window_start: None,
        time_window_end: None,
        min_continuous_hours: None,
        days_of_week: None,
    };
    let r = create_rule(11, &req).unwrap();
    assert_eq!(r.id, 11);
    assert_eq!(r.min_continuous_hours, 1);
    assert_eq!(r.days_of_week.0, 127);
    assert!(r.is_enabled);
    let upd = UpdateRuleRequest {
        name: None,
        max_hours: Some(2),
        time_window_start: Some(TimeOfDay::from_hms(22, 0, 0)),
        time_window_end: None,
        min_continuous_hours: None,
        days_of_week: Some(DaysOfWeek::WEEKDAYS),
        is_enabled: Some(false),
    };
    let u = update_rule(&r, &upd).unwrap();
    assert_eq!(u.name, "heater");
    assert_eq!(u.max_hours, 2);
    assert_eq!(u.time_window_start, Some(TimeOfDay::from_hms(22, 0, 0)));
    assert_eq!(u.days_of_week.0, 31);
    assert!(!u.is_enabled);
    let bad = UpdateRuleRequest { min_continuous_hours: Some(3), ..upd };
    assert_eq!(update_rule(&r, &bad).unwrap_err(), RuleError::MinContinuousOutOfRange);
}

#[test]
fn executor_reports_status() {
    let mut t = ActionTable::new();
    t.insert_if_absent(entry(1, MONDAY, 6, 7));
    t.insert_if_absent(entry(1, MONDAY, 7, 8));
    assert!(t.update_status(&entry(1, MONDAY, 7, 8), ActionStatus::Executed));
    assert!(!t.update_status(&entry(2, MONDAY, 7, 8), ActionStatus::Failed));
    let e = entries(&t);
    assert_eq!(e[0].status, ActionStatus::Pending);
    assert_eq!(e[1].status, ActionStatus::Executed);
    assert!(!t.update_status(&entry(1, MONDAY, 7, 8), ActionStatus::Failed));
    assert_eq!(entries(&t)[1].status, ActionStatus::Executed);
    let n = mark_expired_actions_as_missed(&mut t, Date::from_days_from_ce(MONDAY + 1), TimeOfDay::from_hms(0, 0, 0));
    assert_eq!(n, 1);
    assert_eq!(entries(&t)[1].status, ActionStatus::Executed);
}
