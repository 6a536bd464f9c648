use chrono::Datelike;
use pvpc_scheduler::calendar::{DaysOfWeek, Date, TimeOfDay, Weekday};
use pvpc_scheduler::config::Config;
use pvpc_scheduler::orchestrator::{
    startup_backfill_plan, price_day_for, DailyScheduler, LocalNow, PriceDay,
};
use pvpc_scheduler::prices::HourlyPrice;
use pvpc_scheduler::pvpc::{validate_prices, extract_hour_from_datetime, prices_from_readings, PriceReading};
use pvpc_scheduler::schedule::{ActionStatus, ActionTable, ScheduledAction};
use pvpc_scheduler::requests::UpdateStatusRequest;

#[test]
fn test_extract_hour() {
    assert_eq!(extract_hour_from_datetime("2024-01-15T00:00:00.000+01:00"), Some(0));
    assert_eq!(extract_hour_from_datetime("2024-01-15T14:00:00.000+01:00"), Some(14));
    assert_eq!(extract_hour_from_datetime("2024-01-15T23:00:00.000+01:00"), Some(23));
}

#[test]
fn extract_hour_edge_cases() {
    assert_eq!(extract_hour_from_datetime("2024-01-15 14:00"), None);
    assert_eq!(extract_hour_from_datetime("2024-01-15T"), None);
    assert_eq!(extract_hour_from_datetime("2024-01-15Tab:00"), None);
    assert_eq!(extract_hour_from_datetime("2024-01-15T300:00"), None);
    assert_eq!(extract_hour_from_datetime("2024-01-15T+7:00"), Some(7));
    assert_eq!(extract_hour_from_datetime("xT255"), Some(255));
    assert_eq!(extract_hour_from_datetime("xT09T12:00"), Some(9));
}

fn reading(value: i64, datetime: &str, geo_id: Option<i32>) -> PriceReading {
    PriceReading { value, datetime: datetime.to_string(), geo_id }
}

#[test]
fn readings_become_sorted_prices() {
    let readings = vec![
        reading(120_500, "2024-01-15T02:00:00.000+01:00", Some(8741)),
        reading(99_000, "2024-01-15T01:00:00.000+01:00", None),
        reading(1, "2024-01-15T00:00:00.000+01:00", Some(3)),
        reading(7, "broken", Some(8741)),
    ];
    let prices = prices_from_readings(&readings);
    assert_eq!(
        prices,
        vec![HourlyPrice { hour: 1, price: 99_000 }, HourlyPrice { hour: 2, price: 120_500 }]
    );
    assert!(validate_prices(&prices));
    let same_hour = vec![
        reading(300, "2024-01-15T05:00:00.000+01:00", None),
        reading(7, "2024-01-15T04:00:00.000+01:00", None),
        reading(100, "2024-01-15T05:00:00.000+01:00", None),
    ];
    assert_eq!(
        prices_from_readings(&same_hour),
        vec![
            HourlyPrice { hour: 4, price: 7 },
            HourlyPrice { hour: 5, price: 300 },
            HourlyPrice { hour: 5, price: 100 },
        ]
    );
    assert!(!validate_prices(&[HourlyPrice { hour: 24, price: 1 }]));
    assert!(!validate_prices(&[HourlyPrice { hour: 3, price: 1 }, HourlyPrice { hour: 3, price: 2 }]));
}

#[test]
fn weekday_matches_calendar() {
    for (y, m, d) in [(2024, 1, 15), (2024, 2, 29), (1, 1, 1), (1999, 12, 31), (2026, 10, 18), (-44, 3, 15)] {
        let nd = chrono::NaiveDate::from_ymd_opt(y, m, d).unwrap();
        let date = Date::from_days_from_ce(nd.num_days_from_ce());
        let expected = match nd.weekday() {
            chrono::Weekday::Mon => Weekday::Mon,
            chrono::Weekday::Tue => Weekday::Tue,
            chrono::Weekday::Wed => Weekday::Wed,
            chrono::Weekday::Thu => Weekday::Thu,
            chrono::Weekday::Fri => Weekday::Fri,
            chrono::Weekday::Sat => Weekday::Sat,
            chrono::Weekday::Sun => Weekday::Sun,
        };
        assert_eq!(date.weekday(), expected);
        assert_eq!(date.next_day().days_from_ce, nd.succ_opt().unwrap().num_days_from_ce());
    }
}

#[test]
fn days_of_week_mask() {
    let weekdays = DaysOfWeek::new(DaysOfWeek::WEEKDAYS);
    assert!(weekdays.includes(Weekday::Mon));
    assert!(weekdays.includes(Weekday::Fri));
    assert!(!weekdays.includes(Weekday::Sat));
    assert!(DaysOfWeek::all().includes(Weekday::Sun));
    assert_eq!(DaysOfWeek::default().0, 127);
    assert!(!DaysOfWeek::new(0).includes(Weekday::Wed));
    assert!(DaysOfWeek::new(DaysOfWeek::WEEKEND).includes_date(Date::from_days_from_ce(738_905)));
}

#[test]
fn time_of_day_hours() {
    assert_eq!(TimeOfDay::from_hms(14, 59, 59).hour(), 14);
    assert_eq!(TimeOfDay::start_of_hour(23).secs, 82_800);
}

#[test]
fn server_address() {
    let config = Config {
        database_url: "postgres://localhost/db".to_string(),
        jwt_secret: "SECRET-REDACTED".to_string(),
        google_client_id: "client".to_string(),
        server_host: "0.0.0.0".to_string(),
        server_port: 8080,
        allowed_origins: vec![],
    };
    assert_eq!(config.server_addr(), "0.0.0.0:8080");
    let other = Config { server_host: "::1".to_string(), server_port: 0, ..config };
    assert_eq!(other.server_addr(), "::1:0");
}

#[test]
fn status_requests() {
    let req = |s: &str| UpdateStatusRequest { status: s.to_string() };
    assert_eq!(req("executed").requested_status(), Some(ActionStatus::Executed));
    assert_eq!(req("failed").requested_status(), Some(ActionStatus::Failed));
    assert_eq!(req("cancelled").requested_status(), Some(ActionStatus::Cancelled));
    assert_eq!(req("pending").requested_status(), None);
    assert_eq!(req("missed").requested_status(), None);
    assert_eq!(req("Executed").requested_status(), None);
    assert_eq!(ActionStatus::Missed.as_str(), "missed");
}

fn at(day: i32, h: u32, m: u32, epoch: i64) -> LocalNow {
    LocalNow { today: Date::from_days_from_ce(day), time: TimeOfDay::from_hms(h, m, 0), epoch_secs: epoch }
}

#[test]
fn daily_trigger_fires_once_and_retries() {
    let mut s = DailyScheduler::new();
    assert!(!s.should_generate(at(100, 20, 29, 0)));
    let t = at(100, 20, 30, 1_000);
    assert!(s.should_generate(t));
    assert!(!s.should_generate(at(100, 20, 31, 1_060)));
    s.record_outcome(t, Date::from_days_from_ce(101), false);
    assert!(s.retry_pending);
    assert!(!s.should_generate(at(100, 20, 31, 1_000 + 29 * 60 + 59)));
    assert!(s.should_generate(at(100, 21, 0, 1_000 + 30 * 60)));
    s.record_outcome(at(100, 21, 0, 2_800), Date::from_days_from_ce(101), true);
    assert_eq!(s.last_generation_date, Some(Date::from_days_from_ce(101)));
    assert!(!s.retry_pending);
    assert!(!s.should_generate(at(100, 21, 30, 4_600)));
    assert!(s.should_generate(at(101, 20, 30, 90_000)));
}

#[test]
fn startup_backfill_decisions() {
    let mut t = ActionTable::new();
    let plan = startup_backfill_plan(&t, Date::from_days_from_ce(10), TimeOfDay::from_hms(20, 29, 59));
    assert!(plan.generate_today);
    assert!(!plan.generate_tomorrow);
    t.insert_if_absent(ScheduledAction {
        rule_id: 1,
        scheduled_date: Date::from_days_from_ce(10),
        start_hour: 4,
        end_hour: 5,
        price: None,
        status: ActionStatus::Pending,
    });
    let plan = startup_backfill_plan(&t, Date::from_days_from_ce(10), TimeOfDay::from_hms(20, 30, 0));
    assert!(!plan.generate_today);
    assert!(plan.generate_tomorrow);
    assert_eq!(price_day_for(Date::from_days_from_ce(10), Date::from_days_from_ce(10)), PriceDay::Today);
    assert_eq!(price_day_for(Date::from_days_from_ce(11), Date::from_days_from_ce(10)), PriceDay::Tomorrow);
    assert_eq!(price_day_for(Date::from_days_from_ce(9), Date::from_days_from_ce(10)), PriceDay::Other);
}
