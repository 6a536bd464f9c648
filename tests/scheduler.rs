use pvpc_scheduler::calendar::TimeOfDay;
use pvpc_scheduler::prices::{filter_by_time_window, HourlyPrice};
use pvpc_scheduler::selector::{
    calculate_continuous_blocks, calculate_optimal_hours, calculate_scattered_hours,
};

fn micro(eur_per_kwh: f64) -> i64 {
    (eur_per_kwh * 1_000_000.0).round() as i64
}

fn create_test_prices() -> Vec<HourlyPrice> {
    (0..24u8)
        .map(|hour| HourlyPrice {
            hour,
            price: micro(match hour {
                0..=5 => 0.05 + (hour as f64 * 0.001),
                6..=9 => 0.10 + (hour as f64 * 0.005),
                10..=13 => 0.15 + (hour as f64 * 0.002),
                14..=17 => 0.20 - (hour as f64 * 0.001),
                18..=21 => 0.25 - (hour as f64 * 0.002),
                _ => 0.08,
            }),
        })
        .collect()
}

fn cheap_night_prices() -> Vec<HourlyPrice> {
    (0..24u8)
        .map(|hour| HourlyPrice { hour, price: if hour <= 5 { 50_000 } else { 200_000 } })
        .collect()
}

#[test]
fn test_scattered_hours() {
    let prices = create_test_prices();
    let result = calculate_optimal_hours(&prices, 6, 1, None, None);

    assert_eq!(result.hours.len(), 6);
    assert!(result.hours.contains(&0));
    assert!(result.hours.contains(&1));
}

#[test]
fn test_time_window_night() {
    let prices = create_test_prices();
    let start = TimeOfDay::from_hms(20, 0, 0);
    let end = TimeOfDay::from_hms(9, 0, 0);

    let result = calculate_optimal_hours(&prices, 4, 1, Some(start), Some(end));

    assert_eq!(result.hours.len(), 4);
    for hour in &result.hours {
        assert!(*hour >= 20 || *hour < 9);
    }
}

#[test]
fn test_continuous_blocks() {
    let prices = create_test_prices();
    let result = calculate_optimal_hours(&prices, 4, 2, None, None);

    assert!(result.hours.len() <= 4);

    let mut sorted = result.hours.clone();
    sorted.sort();

    let mut blocks = 0;
    let mut i = 0;
    while i < sorted.len() {
        blocks += 1;
        let mut j = i + 1;
        while j < sorted.len() && sorted[j] == sorted[j - 1] + 1 {
            j += 1;
        }
        i = j;
    }

    println!("Blocs: {}, Hores: {:?}", blocks, sorted);
}

#[test]
fn scattered_takes_three_cheapest_night_hours() {
    let result = calculate_optimal_hours(&cheap_night_prices(), 3, 1, None, None);
    assert_eq!(result.hours, vec![0, 1, 2]);
    assert_eq!(result.total_price, 150_000);
}

#[test]
fn continuous_takes_one_block_of_four() {
    let result = calculate_optimal_hours(&cheap_night_prices(), 4, 2, None, None);
    assert_eq!(result.hours, vec![0, 1, 2, 3]);
    assert_eq!(result.total_price, 200_000);
}

#[test]
fn midnight_window_keeps_night_hours() {
    let prices = create_test_prices();
    let kept = filter_by_time_window(
        &prices,
        Some(TimeOfDay::from_hms(20, 0, 0)),
        Some(TimeOfDay::from_hms(6, 0, 0)),
    );
    let hours: Vec<u8> = kept.iter().map(|p| p.hour).collect();
    assert_eq!(hours, vec![0, 1, 2, 3, 4, 5, 20, 21, 22, 23]);
}

#[test]
fn window_variants() {
    let prices = create_test_prices();
    let all = filter_by_time_window(&prices, None, None);
    assert_eq!(all.len(), 24);
    let day = filter_by_time_window(
        &prices,
        Some(TimeOfDay::from_hms(8, 0, 0)),
        Some(TimeOfDay::from_hms(20, 0, 0)),
    );
    assert_eq!(day.first().map(|p| p.hour), Some(8));
    assert_eq!(day.last().map(|p| p.hour), Some(19));
    assert_eq!(day.len(), 12);
    let from = filter_by_time_window(&prices, Some(TimeOfDay::from_hms(22, 30, 0)), None);
    assert_eq!(from.iter().map(|p| p.hour).collect::<Vec<u8>>(), vec![22, 23]);
    let until = filter_by_time_window(&prices, None, Some(TimeOfDay::from_hms(2, 0, 0)));
    assert_eq!(until.iter().map(|p| p.hour).collect::<Vec<u8>>(), vec![0, 1]);
}

#[test]
fn empty_window_gives_empty_selection() {
    let prices = create_test_prices();
    let start = TimeOfDay::from_hms(5, 0, 0);
    let result = calculate_optimal_hours(&prices, 4, 1, Some(start), Some(start));
    assert!(result.hours.is_empty());
    assert_eq!(result.total_price, 0);
}

#[test]
fn scattered_breaks_ties_by_earlier_hour() {
    let prices = vec![
        HourlyPrice { hour: 9, price: 10 },
        HourlyPrice { hour: 3, price: 10 },
        HourlyPrice { hour: 5, price: 7 },
        HourlyPrice { hour: 1, price: 10 },
    ];
    let result = calculate_scattered_hours(&prices, 2);
    assert_eq!(result.hours, vec![1, 5]);
    assert_eq!(result.total_price, 17);
}

#[test]
fn scattered_with_fewer_hours_than_asked() {
    let prices = vec![HourlyPrice { hour: 4, price: -3 }, HourlyPrice { hour: 2, price: 8 }];
    let result = calculate_scattered_hours(&prices, 5);
    assert_eq!(result.hours, vec![2, 4]);
    assert_eq!(result.total_price, 5);
}

fn cyclic_run_len(hours: &[u8], h: u8) -> usize {
    let mut len = 1;
    let mut back = (h + 23) % 24;
    while len < 24 && hours.contains(&back) {
        len += 1;
        back = (back + 23) % 24;
    }
    let mut next = (h + 1) % 24;
    while len < 24 && hours.contains(&next) {
        len += 1;
        next = (next + 1) % 24;
    }
    len
}

#[test]
fn continuous_blocks_never_leave_short_runs() {
    let prices = create_test_prices();
    for max in 2..=8 {
        for min in 2..=max {
            let result = calculate_optimal_hours(&prices, max, min, None, None);
            assert!(result.hours.len() <= max as usize);
            for h in &result.hours {
                assert!(cyclic_run_len(&result.hours, *h) >= min as usize, "{} in {:?}", h, result.hours);
            }
        }
    }
}

#[test]
fn continuous_run_crosses_midnight() {
    let prices: Vec<HourlyPrice> =
        [0u8, 1, 22, 23].iter().map(|&hour| HourlyPrice { hour, price: 100_000 }).collect();
    let result = calculate_continuous_blocks(&prices, 4, 4);
    assert_eq!(result.hours, vec![0, 1, 22, 23]);
    assert_eq!(result.total_price, 400_000);
}

#[test]
fn continuous_prefers_block_across_midnight() {
    let prices = vec![
        HourlyPrice { hour: 0, price: 1 },
        HourlyPrice { hour: 1, price: 100 },
        HourlyPrice { hour: 22, price: 100 },
        HourlyPrice { hour: 23, price: 1 },
    ];
    let result = calculate_continuous_blocks(&prices, 2, 2);
    assert_eq!(result.hours, vec![0, 23]);
    assert_eq!(result.total_price, 2);
}

#[test]
fn night_window_block_crosses_midnight() {
    let prices: Vec<HourlyPrice> = (0..24u8)
        .map(|hour| HourlyPrice { hour, price: if hour == 23 || hour == 0 { 10 } else { 50 } })
        .collect();
    let result = calculate_optimal_hours(
        &prices,
        2,
        2,
        Some(TimeOfDay::from_hms(20, 0, 0)),
        Some(TimeOfDay::from_hms(6, 0, 0)),
    );
    assert_eq!(result.hours, vec![0, 23]);
    assert_eq!(result.total_price, 20);
}

#[test]
fn continuous_prefers_lower_average_block() {
    let prices = vec![
        HourlyPrice { hour: 1, price: 10 },
        HourlyPrice { hour: 2, price: 10 },
        HourlyPrice { hour: 4, price: 1 },
        HourlyPrice { hour: 5, price: 30 },
        HourlyPrice { hour: 7, price: 4 },
        HourlyPrice { hour: 8, price: 5 },
    ];
    let result = calculate_continuous_blocks(&prices, 2, 2);
    assert_eq!(result.hours, vec![7, 8]);
    assert_eq!(result.total_price, 9);
    let result = calculate_continuous_blocks(&prices, 4, 2);
    assert_eq!(result.hours, vec![1, 2, 7, 8]);
    assert_eq!(result.total_price, 29);
}

#[test]
fn continuous_without_long_enough_run_is_empty() {
    let prices = vec![
        HourlyPrice { hour: 1, price: 10 },
        HourlyPrice { hour: 3, price: 10 },
        HourlyPrice { hour: 4, price: 10 },
    ];
    let result = calculate_continuous_blocks(&prices, 6, 3);
    assert!(result.hours.is_empty());
    assert_eq!(result.total_price, 0);
}

#[test]
fn scattered_selection_is_the_cheapest() {
    let prices = create_test_prices();
    let result = calculate_optimal_hours(&prices, 5, 1, None, None);
    let chosen: Vec<&HourlyPrice> = prices.iter().filter(|p| result.hours.contains(&p.hour)).collect();
    let left: Vec<&HourlyPrice> = prices.iter().filter(|p| !result.hours.contains(&p.hour)).collect();
    for c in &chosen {
        for l in &left {
            assert!(c.price < l.price || (c.price == l.price && c.hour <= l.hour));
        }
    }
    assert_eq!(result.total_price, chosen.iter().map(|p| p.price).sum::<i64>());
}
