use vstd::prelude::*;
use vstd::relations::total_ordering;
use vstd::string::*;

use crate::prices::{prices_wf, HourlyPrice, MAX_PRICE};
use crate::sorting::sorted_copy;

verus! {

broadcast use vstd::seq_lib::group_seq_properties;

/// The geographic zone of the Iberian peninsula in the price feed.
pub const GEO_ID_PENINSULA: i32 = 8741;

/// `i` is the index of the first `c` in `s`, or `s.len()` when there is none.
pub open spec fn is_first_index(s: Seq<char>, c: char, i: int) -> bool {
    &&& 0 <= i <= s.len()
    &&& forall|k: int| 0 <= k < i ==> s[k] != c
    &&& (i == s.len() || s[i] == c)
}

pub open spec fn first_index_of(s: Seq<char>, c: char) -> int {
    choose|i: int| is_first_index(s, c, i)
}

proof fn lemma_first_index(s: Seq<char>, c: char, i: int)
    requires
        is_first_index(s, c, i),
    ensures
        first_index_of(s, c) == i,
{
    let j = first_index_of(s, c);
    assert(is_first_index(s, c, j));
    if j < i {
        assert(s[j] != c);
    } else if i < j {
        assert(s[i] != c);
    }
}

pub open spec fn is_digit(c: char) -> bool {
    '0' <= c && c <= '9'
}

pub open spec fn all_digits(d: Seq<char>) -> bool {
    forall|i: int| 0 <= i < d.len() ==> is_digit(#[trigger] d[i])
}

pub open spec fn digit_value(c: char) -> int {
    (c as u32) as int - ('0' as u32) as int
}

/// The number that a run of decimal digits writes.
pub open spec fn digits_value(d: Seq<char>) -> int
    decreases d.len(),
{
    if d.len() == 0 {
        0
    } else {
        digits_value(d.drop_last()) * 10 + digit_value(d.last())
    }
}

/// What parsing `s` as a `u8` gives: an optional `+`, then one or more
/// decimal digits whose value is at most 255.
pub open spec fn parse_u8(s: Seq<char>) -> Option<u8> {
    let d = if s.len() > 0 && s[0] == '+' {
        s.drop_first()
    } else {
        s
    };
    if d.len() > 0 && all_digits(d) && digits_value(d) <= 255 {
        Some(digits_value(d) as u8)
    } else {
        None
    }
}

/// The hour of a timestamp such as `2024-01-15T14:00:00.000+01:00`: the
/// text after the first `T` (up to a second `T`, if any), cut at its first
/// `:` and read as a number. `None` when there is no `T` or no number.
pub open spec fn extract_hour_spec(s: Seq<char>) -> Option<u8> {
    let t = first_index_of(s, 'T');
    if t == s.len() {
        None
    } else {
        let rest = s.subrange(t + 1, s.len() as int);
        let seg = rest.take(first_index_of(rest, 'T'));
        parse_u8(seg.take(first_index_of(seg, ':')))
    }
}

/// The first index of `c` in `s` between `from` and `to`, or `to`.
fn find_from(s: &str, from: usize, to: usize, c: char) -> (r: usize)
    requires
        from <= to <= s@.len(),
    ensures
        from <= r <= to,
        r - from == first_index_of(s@.subrange(from as int, to as int), c),
{
    let mut i: usize = from;
    while i < to && s.get_char(i) != c
        invariant
            from <= i <= to <= s@.len(),
            forall|k: int| from <= k < i ==> s@[k] != c,
        decreases to - i,
    {
        i = i + 1;
    }
    proof {
        let sub = s@.subrange(from as int, to as int);
        assert(is_first_index(sub, c, i - from));
        lemma_first_index(sub, c, i - from);
    }
    i
}

proof fn lemma_digits_nonneg(d: Seq<char>)
    requires
        forall|i: int| 0 <= i < d.len() ==> is_digit(#[trigger] d[i]),
    ensures
        digits_value(d) >= 0,
    decreases d.len(),
{
    if d.len() > 0 {
        lemma_digits_nonneg(d.drop_last());
    }
}

proof fn lemma_digits_grow(d: Seq<char>, k: int)
    requires
        0 <= k <= d.len(),
        forall|i: int| 0 <= i < d.len() ==> is_digit(#[trigger] d[i]),
    ensures
        digits_value(d) >= digits_value(d.take(k)),
    decreases d.len() - k,
{
    if k < d.len() {
        lemma_digits_grow(d, k + 1);
        assert(d.take(k + 1).drop_last() =~= d.take(k));
        lemma_digits_nonneg(d.take(k));
    } else {
        assert(d.take(k) =~= d);
    }
}

proof fn lemma_parse_none(full: Seq<char>, d: Seq<char>, k: int)
    requires
        d == (if full.len() > 0 && full[0] == '+' {
            full.drop_first()
        } else {
            full
        }),
        (0 <= k < d.len() && !is_digit(d[k])) || ((forall|i: int|
            0 <= i < d.len() ==> is_digit(#[trigger] d[i])) ==> digits_value(d) > 255),
    ensures
        parse_u8(full) == None::<u8>,
{
    let dd = if full.len() > 0 && full[0] == '+' {
        full.drop_first()
    } else {
        full
    };
    assert(dd == d);
    if 0 <= k < d.len() && !is_digit(d[k]) {
        assert(!(forall|i: int| 0 <= i < dd.len() ==> is_digit(#[trigger] dd[i])));
    }
}

/// Parses the characters `a..b` of `s` as a `u8`.
fn parse_u8_at(s: &str, a: usize, b: usize) -> (r: Option<u8>)
    requires
        a <= b <= s@.len(),
    ensures
        r == parse_u8(s@.subrange(a as int, b as int)),
{
    let ghost full = s@.subrange(a as int, b as int);
    let mut start: usize = a;
    if start < b && s.get_char(start) == '+' {
        start = start + 1;
    }
    let ghost d = s@.subrange(start as int, b as int);
    proof {
        if a < b && s@[a as int] == '+' {
            assert(d =~= full.drop_first());
        } else {
            assert(d =~= full);
        }
    }
    if start == b {
        return None;
    }
    let mut val: u32 = 0;
    let mut i: usize = start;
    while i < b
        invariant
            a <= start < b <= s@.len(),
            start <= i <= b,
            d == s@.subrange(start as int, b as int),
            full == s@.subrange(a as int, b as int),
            d == (if full.len() > 0 && full[0] == '+' {
                full.drop_first()
            } else {
                full
            }),
            forall|k: int| start <= k < i ==> is_digit(#[trigger] s@[k]),
            val == digits_value(s@.subrange(start as int, i as int)),
            val <= 255,
        decreases b - i,
    {
        let c = s.get_char(i);
        if !('0' <= c && c <= '9') {
            proof {
                assert(d[i - start] == s@[i as int]);
                assert(!is_digit(d[i - start]));
                lemma_parse_none(full, d, i - start);
            }
            return None;
        }
        proof {
            let p = s@.subrange(start as int, i as int + 1);
            assert(p.drop_last() =~= s@.subrange(start as int, i as int));
            assert(p.last() == c);
        }
        val = val * 10 + (c as u32 - '0' as u32);
        if val > 255 {
            proof {
                if forall|k: int| 0 <= k < d.len() ==> is_digit(#[trigger] d[k]) {
                    lemma_digits_grow(d, i + 1 - start);
                    assert(d.take(i + 1 - start) =~= s@.subrange(start as int, i as int + 1));
                    assert(digits_value(d) > 255);
                }
                lemma_parse_none(full, d, -1);
            }
            return None;
        }
        i = i + 1;
    }
    proof {
        assert(s@.subrange(start as int, i as int) =~= d);
        assert forall|k: int| 0 <= k < d.len() implies is_digit(#[trigger] d[k]) by {
            assert(d[k] == s@[start + k]);
        }
    }
    Some(val as u8)
}

/// The hour of a feed timestamp such as `2024-01-15T14:00:00.000+01:00`.
pub fn extract_hour_from_datetime(datetime: &str) -> (r: Option<u8>)
    ensures
        r == extract_hour_spec(datetime@),
{
    let n = datetime.unicode_len();
    let t1 = find_from(datetime, 0, n, 'T');
    proof {
        assert(datetime@.subrange(0, n as int) =~= datetime@);
    }
    if t1 == n {
        return None;
    }
    let t2 = find_from(datetime, t1 + 1, n, 'T');
    let c = find_from(datetime, t1 + 1, t2, ':');
    proof {
        let s = datetime@;
        let rest = s.subrange(t1 + 1, s.len() as int);
        let seg = rest.take(first_index_of(rest, 'T'));
        assert(seg =~= s.subrange(t1 + 1, t2 as int));
        assert(seg.take(first_index_of(seg, ':')) =~= s.subrange(t1 + 1, c as int));
    }
    parse_u8_at(datetime, t1 + 1, c)
}

/// One value of the price feed: the price in milli-euros per MWh (that is,
/// micro-euros per kWh), its timestamp, and its zone.
#[derive(Clone, Debug)]
pub struct PriceReading {
    pub value: i64,
    pub datetime: String,
    pub geo_id: Option<i32>,
}

/// A reading counts when it is of the peninsula (or names no zone) and its
/// timestamp gives an hour.
pub open spec fn reading_kept(r: PriceReading) -> bool {
    (r.geo_id == Some(GEO_ID_PENINSULA) || r.geo_id.is_none()) && extract_hour_spec(
        r.datetime@,
    ).is_some()
}

/// A price of the feed with the position of its reading.
#[derive(Clone, Copy, Debug, PartialEq, Eq, Structural)]
pub struct FeedPrice {
    pub hour: u8,
    pub pos: usize,
    pub price: i64,
}

/// The readings that count, each with its position in the feed, in the
/// readings' order.
pub open spec fn feed_prices(rs: Seq<PriceReading>) -> Seq<FeedPrice>
    decreases rs.len(),
{
    if rs.len() == 0 {
        Seq::empty()
    } else {
        let init = feed_prices(rs.drop_last());
        let r = rs.last();
        if reading_kept(r) {
            init.push(
                FeedPrice {
                    hour: extract_hour_spec(r.datetime@).unwrap(),
                    pos: (rs.len() - 1) as usize,
                    price: r.value,
                },
            )
        } else {
            init
        }
    }
}

/// Earlier hour first; for the same hour, the earlier reading first.
pub open spec fn by_hour_then_position() -> spec_fn(FeedPrice, FeedPrice) -> bool {
    |a: FeedPrice, b: FeedPrice|
        a.hour < b.hour || (a.hour == b.hour && (a.pos < b.pos || (a.pos == b.pos && a.price
            <= b.price)))
}

pub open spec fn as_hourly(s: Seq<FeedPrice>) -> Seq<HourlyPrice> {
    s.map_values(|e: FeedPrice| HourlyPrice { hour: e.hour, price: e.price })
}

fn feed_le(a: FeedPrice, b: FeedPrice) -> (r: bool)
    ensures
        r == by_hour_then_position()(a, b),
{
    a.hour < b.hour || (a.hour == b.hour && (a.pos < b.pos || (a.pos == b.pos && a.price
        <= b.price)))
}

/// The day's prices from the feed's readings: those of the peninsula (or of
/// no zone) whose timestamp gives an hour, ordered by hour; readings of the
/// same hour keep their order in the feed.
pub fn prices_from_readings(readings: &Vec<PriceReading>) -> (r: Vec<HourlyPrice>)
    ensures
        r@ == as_hourly(feed_prices(readings@).sort_by(by_hour_then_position())),
{
    let mut out: Vec<FeedPrice> = Vec::new();
    let mut i: usize = 0;
    while i < readings.len()
        invariant
            i <= readings@.len(),
            out@ == feed_prices(readings@.subrange(0, i as int)),
        decreases readings.len() - i,
    {
        let r = &readings[i];
        proof {
            assert(readings@.subrange(0, i as int + 1).drop_last() =~= readings@.subrange(0, i as int));
        }
        let zone_ok = match r.geo_id {
            Some(g) => g == GEO_ID_PENINSULA,
            None => true,
        };
        if zone_ok {
            match extract_hour_from_datetime(r.datetime.as_str()) {
                Some(h) => {
                    out.push(FeedPrice { hour: h, pos: i, price: r.value });
                },
                None => {},
            }
        }
        i = i + 1;
    }
    proof {
        assert(readings@.subrange(0, readings@.len() as int) =~= readings@);
        assert(total_ordering(by_hour_then_position()));
    }
    let sorted = sorted_copy(out.as_slice(), feed_le, Ghost(by_hour_then_position()));
    let mut prices: Vec<HourlyPrice> = Vec::new();
    let mut k: usize = 0;
    while k < sorted.len()
        invariant
            k <= sorted@.len(),
            prices@ == as_hourly(sorted@.take(k as int)),
        decreases sorted.len() - k,
    {
        let e = sorted[k];
        prices.push(HourlyPrice { hour: e.hour, price: e.price });
        proof {
            assert(as_hourly(sorted@.take(k as int + 1)) =~= as_hourly(sorted@.take(k as int)).push(
                HourlyPrice { hour: e.hour, price: e.price },
            ));
        }
        k = k + 1;
    }
    proof {
        assert(sorted@.take(sorted@.len() as int) =~= sorted@);
    }
    prices
}

/// Whether a day's prices are well formed: at most one entry per hour, each
/// hour below 24 and each price within `MAX_PRICE`.
pub fn validate_prices(prices: &[HourlyPrice]) -> (r: bool)
    ensures
        r == prices_wf(prices@),
{
    if prices.len() > 24 {
        return false;
    }
    let mut i: usize = 0;
    while i < prices.len()
        invariant
            i <= prices@.len() <= 24,
            forall|k: int| 0 <= k < i ==> #[trigger] prices@[k].hour < 24,
            forall|k: int| 0 <= k < i ==> -MAX_PRICE <= #[trigger] prices@[k].price <= MAX_PRICE,
            forall|a: int, b: int| 0 <= a < b < i ==> #[trigger] prices@[a].hour != #[trigger] prices@[b].hour,
        decreases prices.len() - i,
    {
        let p = prices[i];
        if p.hour >= 24 || p.price < -MAX_PRICE || p.price > MAX_PRICE {
            return false;
        }
        let mut j: usize = 0;
        while j < i
            invariant
                j <= i < prices@.len(),
                p == prices@[i as int],
                forall|a: int| 0 <= a < j ==> #[trigger] prices@[a].hour != p.hour,
            decreases i - j,
        {
            if prices[j].hour == p.hour {
                return false;
            }
            j = j + 1;
        }
        i = i + 1;
    }
    true
}

} // verus!
