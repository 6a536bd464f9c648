use vstd::prelude::*;

use crate::calendar::TimeOfDay;

verus! {

broadcast use vstd::seq_lib::group_seq_properties;

/// The largest magnitude of a price, in micro-euros per kWh. Sums over a day
/// stay far inside `i64` under this bound.
pub const MAX_PRICE: i64 = 1_000_000_000_000_000;

/// The price of one hour of a day, in micro-euros per kWh.
#[derive(Clone, Copy, Debug, PartialEq, Eq, Structural)]
pub struct HourlyPrice {
    pub hour: u8,
    pub price: i64,
}

/// A day's prices: at most one entry per hour, each hour in 0..24, each price
/// within `MAX_PRICE`.
pub open spec fn prices_wf(s: Seq<HourlyPrice>) -> bool {
    &&& s.len() <= 24
    &&& forall|i: int| 0 <= i < s.len() ==> #[trigger] s[i].hour < 24
    &&& forall|i: int|
        0 <= i < s.len() ==> -MAX_PRICE <= #[trigger] s[i].price <= MAX_PRICE
    &&& forall|i: int, j: int| 0 <= i < j < s.len() ==> #[trigger] s[i].hour != #[trigger] s[j].hour
}

/// The sum of the prices of `s`.
pub open spec fn sum_prices(s: Seq<HourlyPrice>) -> int
    decreases s.len(),
{
    if s.len() == 0 {
        0
    } else {
        sum_prices(s.drop_last()) + s.last().price
    }
}

/// Whether hour `h` lies in the window that the optional bounds give: the
/// window is `[start, end)`, wraps past midnight when `start > end`, and is
/// open on a side without a bound.
pub open spec fn hour_in_window(h: int, start: Option<TimeOfDay>, end: Option<TimeOfDay>) -> bool {
    match (start, end) {
        (None, None) => true,
        (Some(s), Some(e)) => {
            if s.hour_spec() <= e.hour_spec() {
                s.hour_spec() <= h && h < e.hour_spec()
            } else {
                h >= s.hour_spec() || h < e.hour_spec()
            }
        },
        (Some(s), None) => h >= s.hour_spec(),
        (None, Some(e)) => h < e.hour_spec(),
    }
}

/// The entries of `s` whose hour lies in the window, in their order.
pub open spec fn filter_window(
    s: Seq<HourlyPrice>,
    start: Option<TimeOfDay>,
    end: Option<TimeOfDay>,
) -> Seq<HourlyPrice> {
    s.filter(|p: HourlyPrice| hour_in_window(p.hour as int, start, end))
}

pub open spec fn bound_wf(t: Option<TimeOfDay>) -> bool {
    match t {
        Some(t) => t.wf(),
        None => true,
    }
}

fn bound_hour(t: Option<TimeOfDay>) -> (r: Option<u8>)
    requires
        bound_wf(t),
    ensures
        r.is_some() == t.is_some(),
        t.is_some() ==> r.unwrap() as int == t.unwrap().hour_spec(),
{
    match t {
        Some(t) => Some(t.hour()),
        None => None,
    }
}

/// Keeps the prices whose hour lies in the window `[start, end)`, which wraps
/// past midnight when `start` is later than `end`; a missing bound leaves that
/// side open.
pub fn filter_by_time_window(
    prices: &[HourlyPrice],
    start: Option<TimeOfDay>,
    end: Option<TimeOfDay>,
) -> (r: Vec<HourlyPrice>)
    requires
        bound_wf(start),
        bound_wf(end),
    ensures
        r@ == filter_window(prices@, start, end),
{
    let sh = bound_hour(start);
    let eh = bound_hour(end);
    let mut out: Vec<HourlyPrice> = Vec::new();
    let mut i: usize = 0;
    while i < prices.len()
        invariant
            i <= prices@.len(),
            sh.is_some() == start.is_some(),
            start.is_some() ==> sh.unwrap() as int == start.unwrap().hour_spec(),
            eh.is_some() == end.is_some(),
            end.is_some() ==> eh.unwrap() as int == end.unwrap().hour_spec(),
            out@ == filter_window(prices@.subrange(0, i as int), start, end),
        decreases prices.len() - i,
    {
        let p = prices[i];
        let keep = match (sh, eh) {
            (None, None) => true,
            (Some(s), Some(e)) => {
                if s <= e {
                    p.hour >= s && p.hour < e
                } else {
                    p.hour >= s || p.hour < e
                }
            },
            (Some(s), None) => p.hour >= s,
            (None, Some(e)) => p.hour < e,
        };
        proof {
            let pred = |q: HourlyPrice| hour_in_window(q.hour as int, start, end);
            assert(keep == pred(p));
            assert(prices@.subrange(0, i as int + 1) =~= prices@.subrange(0, i as int).push(p));
            prices@.subrange(0, i as int).lemma_filter_push(p, pred);
        }
        if keep {
            out.push(p);
        }
        i = i + 1;
    }
    proof {
        assert(prices@.subrange(0, prices@.len() as int) =~= prices@);
    }
    out
}

} // verus!
