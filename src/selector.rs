use vstd::prelude::*;
use vstd::relations::*;
use vstd::seq_lib::*;

use crate::calendar::TimeOfDay;
use crate::prices::{
    bound_wf, filter_by_time_window, filter_window, hour_in_window, prices_wf, sum_prices,
    HourlyPrice, MAX_PRICE,
};
use crate::sorting::sorted_copy;

verus! {

broadcast use vstd::seq_lib::group_seq_properties;

/// The hours chosen for a rule on one day, in chronological order, and what
/// they cost together.
#[derive(Clone, Debug)]
pub struct OptimalHours {
    pub hours: Vec<u8>,
    pub total_price: i64,
}

/// Cheaper first; on equal prices, the earlier hour first.
pub open spec fn by_price() -> spec_fn(HourlyPrice, HourlyPrice) -> bool {
    |a: HourlyPrice, b: HourlyPrice| a.price < b.price || (a.price == b.price && a.hour <= b.hour)
}

/// Earlier hour first.
pub open spec fn by_hour() -> spec_fn(HourlyPrice, HourlyPrice) -> bool {
    |a: HourlyPrice, b: HourlyPrice| a.hour < b.hour || (a.hour == b.hour && a.price <= b.price)
}

pub open spec fn ascending() -> spec_fn(u8, u8) -> bool {
    |a: u8, b: u8| a <= b
}

pub open spec fn hours_of(s: Seq<HourlyPrice>) -> Seq<u8> {
    s.map_values(|p: HourlyPrice| p.hour)
}

pub open spec fn chronological(h: Seq<u8>) -> Seq<u8> {
    h.sort_by(ascending())
}

/// The `max` cheapest entries of `f` (all of them when there are fewer).
pub open spec fn cheapest(f: Seq<HourlyPrice>, max: nat) -> Seq<HourlyPrice> {
    let s = f.sort_by(by_price());
    if max < s.len() {
        s.take(max as int)
    } else {
        s
    }
}

/// The scattered strategy: the `max` cheapest hours and their summed price.
pub open spec fn scattered_spec(f: Seq<HourlyPrice>, max: nat) -> (Seq<u8>, int) {
    (chronological(hours_of(cheapest(f, max))), sum_prices(cheapest(f, max)))
}

proof fn lemma_orders_total()
    ensures
        total_ordering(by_price()),
        total_ordering(by_hour()),
        total_ordering(ascending()),
{
}

proof fn lemma_sum_bound(s: Seq<HourlyPrice>)
    requires
        forall|i: int| 0 <= i < s.len() ==> -MAX_PRICE <= #[trigger] s[i].price <= MAX_PRICE,
    ensures
        -(s.len() * MAX_PRICE) <= sum_prices(s) <= s.len() * MAX_PRICE,
    decreases s.len(),
{
    if s.len() > 0 {
        lemma_sum_bound(s.drop_last());
    }
}

proof fn lemma_sorted_entries_bounded(f: Seq<HourlyPrice>, leq: spec_fn(HourlyPrice, HourlyPrice) -> bool)
    requires
        prices_wf(f),
        total_ordering(leq),
    ensures
        f.sort_by(leq).len() == f.len(),
        forall|i: int| 0 <= i < f.sort_by(leq).len() ==> #[trigger] f.contains(f.sort_by(leq)[i]),
        forall|i: int|
            0 <= i < f.sort_by(leq).len() ==> -MAX_PRICE <= #[trigger] f.sort_by(leq)[i].price
                <= MAX_PRICE && f.sort_by(leq)[i].hour < 24,
{
    f.lemma_sort_by_ensures(leq);
    let s = f.sort_by(leq);
    broadcast use group_to_multiset_ensures;
    assert(s.len() == f.len()) by {
        to_multiset_len(s);
        to_multiset_len(f);
    }
    assert forall|i: int| 0 <= i < s.len() implies #[trigger] f.contains(s[i]) by {
        assert(s.contains(s[i]));
    }
    assert forall|i: int| 0 <= i < s.len() implies -MAX_PRICE <= #[trigger] s[i].price <= MAX_PRICE
        && s[i].hour < 24 by {
        assert(f.contains(s[i]));
        let j = choose|j: int| 0 <= j < f.len() && f[j] == s[i];
        assert(f[j].hour < 24);
    }
}

fn sum_prefix(s: &Vec<HourlyPrice>, k: usize) -> (r: i64)
    requires
        k <= s@.len() <= 24,
        forall|i: int| 0 <= i < s@.len() ==> -MAX_PRICE <= #[trigger] s@[i].price <= MAX_PRICE,
    ensures
        r == sum_prices(s@.take(k as int)),
{
    let mut total: i64 = 0;
    let mut i: usize = 0;
    while i < k
        invariant
            i <= k <= s@.len() <= 24,
            forall|i: int| 0 <= i < s@.len() ==> -MAX_PRICE <= #[trigger] s@[i].price <= MAX_PRICE,
            total == sum_prices(s@.take(i as int)),
        decreases k - i,
    {
        proof {
            assert(s@.take(i as int + 1).drop_last() =~= s@.take(i as int));
            lemma_sum_bound(s@.take(i as int));
        }
        total = total + s[i].price;
        i = i + 1;
    }
    total
}

fn hours_prefix(s: &Vec<HourlyPrice>, k: usize) -> (r: Vec<u8>)
    requires
        k <= s@.len(),
    ensures
        r@ == hours_of(s@.take(k as int)),
{
    let mut out: Vec<u8> = Vec::new();
    let mut i: usize = 0;
    while i < k
        invariant
            i <= k <= s@.len(),
            out@ == hours_of(s@.take(i as int)),
        decreases k - i,
    {
        out.push(s[i].hour);
        proof {
            assert(hours_of(s@.take(i as int + 1)) =~= hours_of(s@.take(i as int)).push(s@[i as int].hour));
        }
        i = i + 1;
    }
    out
}

fn hour_le(a: u8, b: u8) -> (r: bool)
    ensures
        r == ascending()(a, b),
{
    a <= b
}

fn price_le(a: HourlyPrice, b: HourlyPrice) -> (r: bool)
    ensures
        r == by_price()(a, b),
{
    a.price < b.price || (a.price == b.price && a.hour <= b.hour)
}

fn sort_hours(h: &Vec<u8>) -> (r: Vec<u8>)
    ensures
        r@ == chronological(h@),
{
    proof {
        lemma_orders_total();
    }
    sorted_copy(h.as_slice(), hour_le, Ghost(ascending()))
}

/// The scattered strategy: the `max_hours` cheapest entries of `prices`, ties
/// going to the earlier hour, with their hours in chronological order and
/// the exact sum of their prices.
pub fn calculate_scattered_hours(prices: &[HourlyPrice], max_hours: usize) -> (r: OptimalHours)
    requires
        prices_wf(prices@),
    ensures
        (r.hours@, r.total_price as int) == scattered_spec(prices@, max_hours as nat),
{
    proof {
        lemma_orders_total();
        lemma_sorted_entries_bounded(prices@, by_price());
    }
    let sorted = sorted_copy(prices, price_le, Ghost(by_price()));
    let k: usize = if max_hours < sorted.len() { max_hours } else { sorted.len() };
    let total = sum_prefix(&sorted, k);
    let hours = hours_prefix(&sorted, k);
    proof {
        assert(sorted@.take(sorted@.len() as int) =~= sorted@);
    }
    let hours = sort_hours(&hours);
    OptimalHours { hours, total_price: total }
}

/// Least common multiple of 1..=24: an average over at most 24 hours, scaled
/// by it, is an exact integer.
pub const AVERAGE_SCALE: i128 = 5354228880;

/// A run of `len` available entries taken from index `start` on, going round
/// from the last entry to the first, with its average price scaled by
/// `AVERAGE_SCALE`.
#[derive(Clone, Copy, Debug, PartialEq, Eq, Structural)]
pub struct Block {
    pub start: usize,
    pub len: usize,
    pub avg_key: i128,
}

/// Lower average first; on equal averages, the block that starts at the
/// earlier index, then the shorter one.
pub open spec fn by_average() -> spec_fn(Block, Block) -> bool {
    |a: Block, b: Block|
        a.avg_key < b.avg_key || (a.avg_key == b.avg_key && (a.start < b.start || (a.start
            == b.start && a.len <= b.len)))
}

/// Hour `b` follows hour `a`; hour 0 follows hour 23.
pub open spec fn consecutive(a: u8, b: u8) -> bool {
    b as int == a as int + 1 || (a == 23 && b == 0)
}

/// The entry `k` places after index `i`, going round from the last entry of
/// `avail` to the first.
pub open spec fn cyclic(avail: Seq<HourlyPrice>, i: int, k: int) -> HourlyPrice {
    avail[(i + k) % (avail.len() as int)]
}

/// The `len` entries from index `i` on, going round the end of `avail`.
pub open spec fn block_seq(avail: Seq<HourlyPrice>, i: int, len: int) -> Seq<HourlyPrice> {
    Seq::new(len as nat, |k: int| cyclic(avail, i, k))
}

/// The length of the run of consecutive hours from index `i`, given that its
/// first `len` entries form one; the run goes round the end of `avail` and
/// holds no entry twice.
pub open spec fn run_len_from(avail: Seq<HourlyPrice>, i: int, len: int) -> int
    decreases avail.len() - len,
{
    if 1 <= len < avail.len() && consecutive(
        cyclic(avail, i, len - 1).hour,
        cyclic(avail, i, len).hour,
    ) {
        run_len_from(avail, i, len + 1)
    } else {
        len
    }
}

/// The length of the run of consecutive hours that starts at index `i`.
pub open spec fn run_len(avail: Seq<HourlyPrice>, i: int) -> int {
    run_len_from(avail, i, 1)
}

pub open spec fn shortest_block(min: nat) -> int {
    if min > 2 {
        min as int
    } else {
        2
    }
}

pub open spec fn avg_key(avail: Seq<HourlyPrice>, i: int, len: int) -> int {
    sum_prices(block_seq(avail, i, len)) * (AVERAGE_SCALE as int / len)
}

pub open spec fn block_at(avail: Seq<HourlyPrice>, i: int, len: int) -> Block {
    Block { start: i as usize, len: len as usize, avg_key: avg_key(avail, i, len) as i128 }
}

pub open spec fn count_from(run: int, lo: int) -> nat {
    if run >= lo {
        (run - lo + 1) as nat
    } else {
        0
    }
}

/// The blocks that start at index `i`: every length from the shortest allowed
/// up to the run that starts there, shortest first.
pub open spec fn blocks_at(avail: Seq<HourlyPrice>, i: int, min: nat) -> Seq<Block> {
    let lo = shortest_block(min);
    Seq::new(count_from(run_len(avail, i), lo), |k: int| block_at(avail, i, lo + k))
}

/// The candidate blocks that start before index `n`, in the order they are
/// found: by start, then by length.
pub open spec fn candidates(avail: Seq<HourlyPrice>, min: nat, n: int) -> Seq<Block>
    decreases n,
{
    if n <= 0 {
        Seq::empty()
    } else {
        candidates(avail, min, n - 1) + blocks_at(avail, n - 1, min)
    }
}

pub open spec fn block_prices(avail: Seq<HourlyPrice>, b: Block) -> Seq<HourlyPrice> {
    block_seq(avail, b.start as int, b.len as int)
}

pub open spec fn overlaps(hs: Seq<u8>, sel: Seq<u8>) -> bool {
    exists|k: int| 0 <= k < hs.len() && sel.contains(hs[k])
}

/// Takes the blocks in order, keeping each one that shares no hour with those
/// kept and fits in `max`; stops once `max` hours are kept.
pub open spec fn greedy(
    avail: Seq<HourlyPrice>,
    blocks: Seq<Block>,
    max: nat,
    sel: Seq<u8>,
    total: int,
) -> (Seq<u8>, int)
    decreases blocks.len(),
{
    if blocks.len() == 0 || sel.len() >= max {
        (sel, total)
    } else {
        let bp = block_prices(avail, blocks[0]);
        let hs = hours_of(bp);
        if !overlaps(hs, sel) && sel.len() + hs.len() <= max {
            greedy(avail, blocks.drop_first(), max, sel + hs, total + sum_prices(bp))
        } else {
            greedy(avail, blocks.drop_first(), max, sel, total)
        }
    }
}

/// The available entries in chronological order.
pub open spec fn available(f: Seq<HourlyPrice>) -> Seq<HourlyPrice> {
    f.sort_by(by_hour())
}

/// The candidate blocks, lowest average first.
pub open spec fn ranked_blocks(f: Seq<HourlyPrice>, min: nat) -> Seq<Block> {
    let avail = available(f);
    candidates(avail, min, avail.len() as int).sort_by(by_average())
}

/// The continuous-block strategy.
pub open spec fn continuous_spec(f: Seq<HourlyPrice>, max: nat, min: nat) -> (Seq<u8>, int) {
    let g = greedy(available(f), ranked_blocks(f, min), max, Seq::empty(), 0);
    (chronological(g.0), g.1)
}

proof fn lemma_average_order_total()
    ensures
        total_ordering(by_average()),
{
}

proof fn lemma_run_len_bounds(avail: Seq<HourlyPrice>, i: int, len: int)
    requires
        1 <= len <= avail.len(),
    ensures
        len <= run_len_from(avail, i, len) <= avail.len(),
    decreases avail.len() - len,
{
    if len < avail.len() && consecutive(cyclic(avail, i, len - 1).hour, cyclic(avail, i, len).hour) {
        lemma_run_len_bounds(avail, i, len + 1);
    }
}

/// Inside a run, each entry's hour follows the one before.
proof fn lemma_run_chain(avail: Seq<HourlyPrice>, i: int, len: int, k: int)
    requires
        1 <= len <= avail.len(),
        len - 1 <= k,
        k + 1 < run_len_from(avail, i, len),
    ensures
        consecutive(cyclic(avail, i, k).hour, cyclic(avail, i, k + 1).hour),
    decreases avail.len() - len,
{
    if len < avail.len() && consecutive(cyclic(avail, i, len - 1).hour, cyclic(avail, i, len).hour) {
        if k > len - 1 {
            lemma_run_chain(avail, i, len + 1, k);
        }
    }
}

/// Every candidate starts inside `avail`, before `n`, and is no shorter than
/// the shortest allowed nor longer than its run.
proof fn lemma_candidates_valid(avail: Seq<HourlyPrice>, min: nat, n: int)
    requires
        0 <= n <= avail.len() <= 24,
    ensures
        forall|k: int|
            0 <= k < candidates(avail, min, n).len() ==> {
                let c = #[trigger] candidates(avail, min, n)[k];
                &&& 0 <= c.start < n
                &&& c.len <= avail.len()
                &&& c.len >= shortest_block(min)
                &&& c.len <= run_len(avail, c.start as int)
            },
    decreases n,
{
    if n > 0 {
        lemma_candidates_valid(avail, min, n - 1);
        lemma_run_len_bounds(avail, n - 1, 1);
        let prev = candidates(avail, min, n - 1);
        let here = blocks_at(avail, n - 1, min);
        assert forall|k: int| 0 <= k < candidates(avail, min, n).len() implies {
            let c = #[trigger] candidates(avail, min, n)[k];
            &&& 0 <= c.start < n
            &&& c.len <= avail.len()
            &&& c.len >= shortest_block(min)
            &&& c.len <= run_len(avail, c.start as int)
        } by {
            if k >= prev.len() {
                let kk = k - prev.len();
                let lo = shortest_block(min);
                assert(0 <= kk < count_from(run_len(avail, n - 1), lo));
                assert(candidates(avail, min, n)[k] == here[kk]);
                assert(here[kk] == block_at(avail, n - 1, lo + kk));
                assert(lo + kk <= run_len(avail, n - 1));
            } else {
                assert(candidates(avail, min, n)[k] == prev[k]);
            }
        }
    }
}

fn is_consecutive(a: u8, b: u8) -> (r: bool)
    ensures
        r == consecutive(a, b),
{
    (a < 255 && b == a + 1) || (a == 23 && b == 0)
}

fn entry_hour_le(a: HourlyPrice, b: HourlyPrice) -> (r: bool)
    ensures
        r == by_hour()(a, b),
{
    a.hour < b.hour || (a.hour == b.hour && a.price <= b.price)
}

fn block_le(a: Block, b: Block) -> (r: bool)
    ensures
        r == by_average()(a, b),
{
    a.avg_key < b.avg_key || (a.avg_key == b.avg_key && (a.start < b.start || (a.start == b.start
        && a.len <= b.len)))
}

/// Every candidate block of `avail`, in the order they are found.
fn collect_blocks(avail: &Vec<HourlyPrice>, min: usize) -> (r: Vec<Block>)
    requires
        avail@.len() <= 24,
        forall|i: int| 0 <= i < avail@.len() ==> -MAX_PRICE <= #[trigger] avail@[i].price <= MAX_PRICE,
    ensures
        r@ == candidates(avail@, min as nat, avail@.len() as int),
{
    let n = avail.len();
    let lo: usize = if min > 2 { min } else { 2 };
    let mut blocks: Vec<Block> = Vec::new();
    let mut i: usize = 0;
    while i < n
        invariant
            n == avail@.len() <= 24,
            lo == shortest_block(min as nat),
            forall|i: int| 0 <= i < avail@.len() ==> -MAX_PRICE <= #[trigger] avail@[i].price <= MAX_PRICE,
            i <= n,
            blocks@ == candidates(avail@, min as nat, i as int),
        decreases n - i,
    {
        let ghost base = blocks@;
        let mut sum: i64 = avail[i].price;
        proof {
            let one = block_seq(avail@, i as int, 1);
            assert(one.drop_last() =~= Seq::<HourlyPrice>::empty());
            vstd::arithmetic::div_mod::lemma_small_mod(i as nat, n as nat);
            assert((i as int + 0) % (n as int) == i);
            assert(one.last() == avail@[i as int]);
            assert(sum_prices(one) == sum_prices(one.drop_last()) + one.last().price);
        }
        let mut len: usize = 1;
        while len < n && is_consecutive(avail[(i + len - 1) % n].hour, avail[(i + len) % n].hour)
            invariant
                n == avail@.len() <= 24,
                lo == shortest_block(min as nat),
                forall|i: int| 0 <= i < avail@.len() ==> -MAX_PRICE <= #[trigger] avail@[i].price <= MAX_PRICE,
                i < n,
                1 <= len <= n,
                run_len(avail@, i as int) == run_len_from(avail@, i as int, len as int),
                sum == sum_prices(block_seq(avail@, i as int, len as int)),
                blocks@ == base + Seq::new(count_from(len as int, lo as int), |k: int| block_at(avail@, i as int, lo + k)),
            decreases n - len,
        {
            let ghost next = block_seq(avail@, i as int, len as int + 1);
            proof {
                assert(next.drop_last() =~= block_seq(avail@, i as int, len as int));
                assert(next.last() == avail@[(i + len) as int % (n as int)]);
                lemma_sum_bound(block_seq(avail@, i as int, len as int));
                assert forall|k: int| 0 <= k < next.len() implies -MAX_PRICE <= #[trigger] next[k].price
                    <= MAX_PRICE by {
                    assert(next[k] == avail@[(i + k) % (n as int)]);
                }
                lemma_sum_bound(next);
            }
            sum = sum + avail[(i + len) % n].price;
            len = len + 1;
            if len >= min {
                proof {
                    let m: int = MAX_PRICE as int;
                    let sc: int = AVERAGE_SCALE as int;
                    let q: int = sc / (len as int);
                    let x: int = sum as int;
                    assert(-24 * m <= x <= 24 * m);
                    assert(1 <= q <= sc) by (nonlinear_arith)
                        requires
                            sc == 5354228880,
                            q == sc / (len as int),
                            1 <= len <= 24;
                    assert(-24 * m * sc <= x * q <= 24 * m * sc) by (nonlinear_arith)
                        requires
                            -24 * m <= x <= 24 * m,
                            1 <= q <= sc,
                            m > 0;
                }
                let key: i128 = (sum as i128) * (AVERAGE_SCALE / (len as i128));
                let b = Block { start: i, len, avg_key: key };
                proof {
                    assert(b == block_at(avail@, i as int, len as int));
                }
                blocks.push(b);
            }
            proof {
                assert(blocks@ =~= base + Seq::new(count_from(len as int, lo as int), |k: int| block_at(avail@, i as int, lo + k)));
            }
        }
        proof {
            assert(run_len_from(avail@, i as int, len as int) == len);
            assert(blocks@ =~= candidates(avail@, min as nat, i as int + 1));
        }
        i = i + 1;
    }
    blocks
}

fn has_hour(sel: &Vec<u8>, h: u8) -> (r: bool)
    ensures
        r == sel@.contains(h),
{
    let mut i: usize = 0;
    while i < sel.len()
        invariant
            i <= sel@.len(),
            forall|k: int| 0 <= k < i ==> sel@[k] != h,
        decreases sel.len() - i,
    {
        if sel[i] == h {
            return true;
        }
        i = i + 1;
    }
    false
}

/// Whether an hour of block `b` is already in `sel`.
fn block_overlaps(avail: &Vec<HourlyPrice>, b: Block, sel: &Vec<u8>) -> (r: bool)
    requires
        b.start < avail@.len() <= 24,
        b.len <= avail@.len(),
    ensures
        r == overlaps(hours_of(block_prices(avail@, b)), sel@),
{
    let n = avail.len();
    let ghost hs = hours_of(block_prices(avail@, b));
    let mut t: usize = 0;
    while t < b.len
        invariant
            n == avail@.len(),
            b.start < avail@.len() <= 24,
            b.len <= avail@.len(),
            hs == hours_of(block_prices(avail@, b)),
            hs.len() == b.len,
            t <= b.len,
            forall|k: int| 0 <= k < t ==> !sel@.contains(#[trigger] hs[k]),
        decreases b.len - t,
    {
        proof {
            assert(hs[t as int] == avail@[(b.start + t) as int % (n as int)].hour);
        }
        if has_hour(sel, avail[(b.start + t) % n].hour) {
            return true;
        }
        t = t + 1;
    }
    false
}

/// Appends the hours of block `b` to `sel` and returns `total` plus their prices.
fn take_block(avail: &Vec<HourlyPrice>, b: Block, sel: &mut Vec<u8>, total: i64) -> (r: i64)
    requires
        b.start < avail@.len() <= 24,
        b.len <= avail@.len(),
        old(sel)@.len() + b.len <= 24,
        forall|i: int| 0 <= i < avail@.len() ==> -MAX_PRICE <= #[trigger] avail@[i].price <= MAX_PRICE,
        -(old(sel)@.len() * MAX_PRICE) <= total <= old(sel)@.len() * MAX_PRICE,
    ensures
        final(sel)@ == old(sel)@ + hours_of(block_prices(avail@, b)),
        r == total + sum_prices(block_prices(avail@, b)),
        -(final(sel)@.len() * MAX_PRICE) <= r <= final(sel)@.len() * MAX_PRICE,
{
    let n = avail.len();
    let ghost bp = block_prices(avail@, b);
    let ghost sel0 = sel@;
    let mut acc: i64 = total;
    let mut t: usize = 0;
    while t < b.len
        invariant
            n == avail@.len(),
            b.start < avail@.len() <= 24,
            b.len <= avail@.len(),
            bp == block_prices(avail@, b),
            bp.len() == b.len,
            sel0.len() + b.len <= 24,
            forall|i: int| 0 <= i < avail@.len() ==> -MAX_PRICE <= #[trigger] avail@[i].price <= MAX_PRICE,
            -(sel0.len() * MAX_PRICE) <= total <= sel0.len() * MAX_PRICE,
            t <= b.len,
            sel@ == sel0 + hours_of(bp.take(t as int)),
            acc == total + sum_prices(bp.take(t as int)),
        decreases b.len - t,
    {
        proof {
            assert(bp.take(t as int + 1).drop_last() =~= bp.take(t as int));
            assert(bp[t as int] == avail@[(b.start + t) as int % (n as int)]);
            assert forall|i: int| 0 <= i < bp.take(t as int).len() implies -MAX_PRICE
                <= #[trigger] bp.take(t as int)[i].price <= MAX_PRICE by {
                assert(bp[i] == avail@[(b.start + i) % (n as int)]);
            }
            lemma_sum_bound(bp.take(t as int));
            assert(hours_of(bp.take(t as int + 1)) =~= hours_of(bp.take(t as int)).push(bp[t as int].hour));
        }
        let p = avail[(b.start + t) % n];
        sel.push(p.hour);
        acc = acc + p.price;
        t = t + 1;
    }
    proof {
        assert(bp.take(b.len as int) =~= bp);
        assert forall|i: int| 0 <= i < bp.len() implies -MAX_PRICE <= #[trigger] bp[i].price <= MAX_PRICE by {
            assert(bp[i] == avail@[(b.start + i) % (n as int)]);
        }
        lemma_sum_bound(bp);
    }
    acc
}

/// The continuous-block strategy. The available hours are taken in
/// chronological order, hour 0 following hour 23, so a run may cross
/// midnight. Every run of at least `min_continuous` consecutive available
/// hours (at least two), from every start and of every length up to the end
/// of its run, is a candidate; no candidate holds an hour twice. Candidates
/// are ranked by average price, ties going to the one that starts at the
/// earlier hour and then to the shorter, and taken greedily while they share
/// no hour with those taken and fit in `max_hours`.
pub fn calculate_continuous_blocks(
    prices: &[HourlyPrice],
    max_hours: usize,
    min_continuous: usize,
) -> (r: OptimalHours)
    requires
        prices_wf(prices@),
        max_hours <= 24,
    ensures
        (r.hours@, r.total_price as int) == continuous_spec(
            prices@,
            max_hours as nat,
            min_continuous as nat,
        ),
{
    proof {
        lemma_orders_total();
        lemma_average_order_total();
        lemma_sorted_entries_bounded(prices@, by_hour());
    }
    let avail = sorted_copy(prices, entry_hour_le, Ghost(by_hour()));
    let cands = collect_blocks(&avail, min_continuous);
    proof {
        lemma_candidates_valid(avail@, min_continuous as nat, avail@.len() as int);
        cands@.lemma_sort_by_ensures(by_average());
    }
    let blocks = sorted_copy(cands.as_slice(), block_le, Ghost(by_average()));
    proof {
        assert forall|k: int| 0 <= k < blocks@.len() implies (#[trigger] blocks@[k]).start
            < avail@.len() && blocks@[k].len <= avail@.len() by {
            assert(blocks@.contains(blocks@[k]));
            assert(cands@.contains(blocks@[k]));
        }
        assert(blocks@.subrange(0, blocks@.len() as int) =~= blocks@);
    }
    let mut sel: Vec<u8> = Vec::new();
    let mut total: i64 = 0;
    let mut k: usize = 0;
    while k < blocks.len() && sel.len() < max_hours
        invariant
            max_hours <= 24,
            k <= blocks@.len(),
            forall|i: int| 0 <= i < avail@.len() ==> -MAX_PRICE <= #[trigger] avail@[i].price <= MAX_PRICE,
            forall|k: int| 0 <= k < blocks@.len() ==> (#[trigger] blocks@[k]).start < avail@.len()
                && blocks@[k].len <= avail@.len(),
            avail@.len() <= 24,
            sel@.len() <= max_hours,
            -(sel@.len() * MAX_PRICE) <= total <= sel@.len() * MAX_PRICE,
            greedy(avail@, blocks@, max_hours as nat, Seq::empty(), 0) == greedy(
                avail@,
                blocks@.subrange(k as int, blocks@.len() as int),
                max_hours as nat,
                sel@,
                total as int,
            ),
        decreases blocks@.len() - k,
    {
        let b = blocks[k];
        proof {
            let rest = blocks@.subrange(k as int, blocks@.len() as int);
            assert(rest[0] == b);
            assert(rest.drop_first() =~= blocks@.subrange(k as int + 1, blocks@.len() as int));
            assert(hours_of(block_prices(avail@, b)).len() == b.len);
        }
        let ov = block_overlaps(&avail, b, &sel);
        if !ov && sel.len() + b.len <= max_hours {
            total = take_block(&avail, b, &mut sel, total);
        }
        k = k + 1;
    }
    proof {
        assert(blocks@.subrange(k as int, blocks@.len() as int).len() == 0 || sel@.len() >= max_hours);
    }
    let hours = sort_hours(&sel);
    OptimalHours { hours, total_price: total }
}

/// The optimal-hours result for the given inputs.
pub open spec fn optimal_spec(
    prices: Seq<HourlyPrice>,
    max_hours: int,
    min_continuous_hours: int,
    start: Option<TimeOfDay>,
    end: Option<TimeOfDay>,
) -> (Seq<u8>, int) {
    let f = filter_window(prices, start, end);
    if f.len() == 0 {
        (Seq::empty(), 0)
    } else if min_continuous_hours <= 1 {
        scattered_spec(f, max_hours as nat)
    } else {
        continuous_spec(f, max_hours as nat, min_continuous_hours as nat)
    }
}

/// Chooses the hours to run a device: the prices are first restricted to the
/// time window; with a minimum run of one hour the cheapest hours are taken
/// one by one, otherwise whole runs of consecutive hours.
pub fn calculate_optimal_hours(
    prices: &[HourlyPrice],
    max_hours: i32,
    min_continuous_hours: i32,
    time_window_start: Option<TimeOfDay>,
    time_window_end: Option<TimeOfDay>,
) -> (r: OptimalHours)
    requires
        prices_wf(prices@),
        0 <= max_hours <= 24,
        bound_wf(time_window_start),
        bound_wf(time_window_end),
    ensures
        (r.hours@, r.total_price as int) == optimal_spec(
            prices@,
            max_hours as int,
            min_continuous_hours as int,
            time_window_start,
            time_window_end,
        ),
{
    let filtered = filter_by_time_window(prices, time_window_start, time_window_end);
    proof {
        lemma_filter_wf(prices@, time_window_start, time_window_end);
    }
    if filtered.len() == 0 {
        return OptimalHours { hours: Vec::new(), total_price: 0 };
    }
    if min_continuous_hours <= 1 {
        calculate_scattered_hours(filtered.as_slice(), max_hours as usize)
    } else {
        calculate_continuous_blocks(
            filtered.as_slice(),
            max_hours as usize,
            min_continuous_hours as usize,
        )
    }
}

/// What the window keeps of well-formed prices is well formed, and lies in
/// the window.
pub proof fn lemma_filter_wf(s: Seq<HourlyPrice>, start: Option<TimeOfDay>, end: Option<TimeOfDay>)
    requires
        prices_wf(s),
    ensures
        prices_wf(filter_window(s, start, end)),
        forall|p: HourlyPrice| #[trigger] filter_window(s, start, end).contains(p) ==> s.contains(p)
            && hour_in_window(p.hour as int, start, end),
    decreases s.len(),
{
    reveal(Seq::filter);
    let pred = |q: HourlyPrice| hour_in_window(q.hour as int, start, end);
    if s.len() > 0 {
        let init = s.drop_last();
        assert(prices_wf(init));
        lemma_filter_wf(init, start, end);
        let fi = filter_window(init, start, end);
        assert(filter_window(s, start, end) == if pred(s.last()) { fi.push(s.last()) } else { fi });
        if pred(s.last()) {
            let f = fi.push(s.last());
            assert forall|i: int, j: int| 0 <= i < j < f.len() implies #[trigger] f[i].hour != #[trigger] f[j].hour by {
                if j == f.len() - 1 {
                    assert(fi.contains(f[i]));
                    assert(init.contains(f[i]));
                    let a = choose|a: int| 0 <= a < init.len() && init[a] == f[i];
                    assert(s[a] == f[i]);
                    assert(s[s.len() - 1] == f[j]);
                }
            }
            assert forall|p: HourlyPrice| #[trigger] f.contains(p) implies s.contains(p)
                && hour_in_window(p.hour as int, start, end) by {
                let i = choose|i: int| 0 <= i < f.len() && f[i] == p;
                if i < fi.len() {
                    assert(fi.contains(p));
                    let a = choose|a: int| 0 <= a < init.len() && init[a] == p;
                    assert(s[a] == p);
                } else {
                    assert(s[s.len() - 1] == p);
                }
            }
            fi.lemma_filter_len(pred);
        } else {
            assert forall|p: HourlyPrice| #[trigger] fi.contains(p) implies s.contains(p) by {
                let a = choose|a: int| 0 <= a < init.len() && init[a] == p;
                assert(s[a] == p);
            }
        }
    }
}

proof fn lemma_chronological(h: Seq<u8>)
    ensures
        chronological(h).len() == h.len(),
        forall|x: u8| #[trigger] chronological(h).contains(x) ==> h.contains(x),
        forall|x: u8| h.contains(x) ==> #[trigger] chronological(h).contains(x),
{
    lemma_orders_total();
    h.lemma_sort_by_ensures(ascending());
    broadcast use group_to_multiset_ensures;
    to_multiset_len(h);
    to_multiset_len(chronological(h));
    assert forall|x: u8| h.contains(x) implies #[trigger] chronological(h).contains(x) by {
        assert(h.to_multiset().count(x) > 0);
    }
}

proof fn lemma_greedy_len(
    avail: Seq<HourlyPrice>,
    blocks: Seq<Block>,
    max: nat,
    sel: Seq<u8>,
    total: int,
)
    requires
        sel.len() <= max,
    ensures
        greedy(avail, blocks, max, sel, total).0.len() <= max,
    decreases blocks.len(),
{
    if blocks.len() > 0 && sel.len() < max {
        let bp = block_prices(avail, blocks[0]);
        let hs = hours_of(bp);
        if !overlaps(hs, sel) && sel.len() + hs.len() <= max {
            lemma_greedy_len(avail, blocks.drop_first(), max, sel + hs, total + sum_prices(bp));
        } else {
            lemma_greedy_len(avail, blocks.drop_first(), max, sel, total);
        }
    }
}

/// No more hours are chosen than the rule allows.
pub proof fn lemma_selection_len(
    prices: Seq<HourlyPrice>,
    max_hours: int,
    min_continuous_hours: int,
    start: Option<TimeOfDay>,
    end: Option<TimeOfDay>,
)
    requires
        0 <= max_hours,
    ensures
        optimal_spec(prices, max_hours, min_continuous_hours, start, end).0.len() <= max_hours,
{
    let f = filter_window(prices, start, end);
    if f.len() > 0 {
        if min_continuous_hours <= 1 {
            let c = cheapest(f, max_hours as nat);
            lemma_orders_total();
            f.lemma_sort_by_ensures(by_price());
            broadcast use group_to_multiset_ensures;
            to_multiset_len(f);
            to_multiset_len(f.sort_by(by_price()));
            lemma_chronological(hours_of(c));
        } else {
            let g = greedy(available(f), ranked_blocks(f, min_continuous_hours as nat), max_hours as nat, Seq::empty(), 0);
            lemma_greedy_len(available(f), ranked_blocks(f, min_continuous_hours as nat), max_hours as nat, Seq::empty(), 0);
            lemma_chronological(g.0);
        }
    }
}

/// Some entry of `avail` is for hour `x`.
pub open spec fn hour_of_some(avail: Seq<HourlyPrice>, x: u8) -> bool {
    exists|i: int| 0 <= i < avail.len() && avail[i].hour == x
}

/// The blocks lie inside `avail`.
pub open spec fn blocks_inside(avail: Seq<HourlyPrice>, blocks: Seq<Block>) -> bool {
    forall|k: int|
        0 <= k < blocks.len() ==> (#[trigger] blocks[k]).start < avail.len() && blocks[k].len
            <= avail.len()
}

proof fn lemma_greedy_hours_from(
    avail: Seq<HourlyPrice>,
    blocks: Seq<Block>,
    max: nat,
    sel: Seq<u8>,
    total: int,
)
    requires
        blocks_inside(avail, blocks),
        forall|x: u8| #[trigger] sel.contains(x) ==> hour_of_some(avail, x),
    ensures
        forall|x: u8| #[trigger] greedy(avail, blocks, max, sel, total).0.contains(x) ==> hour_of_some(avail, x),
    decreases blocks.len(),
{
    if blocks.len() > 0 && sel.len() < max {
        let b = blocks[0];
        let bp = block_prices(avail, b);
        let hs = hours_of(bp);
        assert(blocks_inside(avail, blocks.drop_first())) by {
            assert forall|k: int| 0 <= k < blocks.drop_first().len() implies (#[trigger] blocks.drop_first()[k]).start
                < avail.len() && blocks.drop_first()[k].len <= avail.len() by {
                assert(blocks.drop_first()[k] == blocks[k + 1]);
            }
        }
        if !overlaps(hs, sel) && sel.len() + hs.len() <= max {
            assert(blocks[0].start < avail.len());
            assert forall|x: u8| #[trigger] (sel + hs).contains(x) implies hour_of_some(avail, x) by {
                let i = choose|i: int| 0 <= i < (sel + hs).len() && (sel + hs)[i] == x;
                if i >= sel.len() {
                    let t = i - sel.len();
                    let j = (b.start + t) % (avail.len() as int);
                    assert(hs[t] == avail[j].hour);
                    assert(0 <= j < avail.len());
                } else {
                    assert(sel.contains(x));
                }
            }
            lemma_greedy_hours_from(avail, blocks.drop_first(), max, sel + hs, total + sum_prices(bp));
            assert(greedy(avail, blocks, max, sel, total) == greedy(avail, blocks.drop_first(), max, sel + hs, total + sum_prices(bp)));
        } else {
            lemma_greedy_hours_from(avail, blocks.drop_first(), max, sel, total);
            assert(greedy(avail, blocks, max, sel, total) == greedy(avail, blocks.drop_first(), max, sel, total));
        }
    } else {
        assert(greedy(avail, blocks, max, sel, total) == (sel, total));
    }
}

proof fn lemma_ranked_blocks_inside(f: Seq<HourlyPrice>, min: nat)
    requires
        prices_wf(f),
    ensures
        blocks_inside(available(f), ranked_blocks(f, min)),
        forall|k: int|
            0 <= k < ranked_blocks(f, min).len() ==> {
                let c = #[trigger] ranked_blocks(f, min)[k];
                &&& c.len >= shortest_block(min)
                &&& c.len <= run_len(available(f), c.start as int)
            },
{
    lemma_orders_total();
    lemma_average_order_total();
    lemma_sorted_entries_bounded(f, by_hour());
    let avail = available(f);
    let cands = candidates(avail, min, avail.len() as int);
    lemma_candidates_valid(avail, min, avail.len() as int);
    cands.lemma_sort_by_ensures(by_average());
    let rb = ranked_blocks(f, min);
    assert forall|k: int| 0 <= k < rb.len() implies (#[trigger] rb[k]).start < avail.len()
        && rb[k].len <= avail.len() && rb[k].len >= shortest_block(min) && rb[k].len <= run_len(avail, rb[k].start as int) by {
        assert(rb.contains(rb[k]));
        assert(cands.contains(rb[k]));
    }
}

/// Every chosen hour is the hour of a given price and lies in the time
/// window, and no more hours are chosen than the rule allows.
pub proof fn lemma_selection_within_limits(
    prices: Seq<HourlyPrice>,
    max_hours: int,
    min_continuous_hours: int,
    start: Option<TimeOfDay>,
    end: Option<TimeOfDay>,
)
    requires
        prices_wf(prices),
        0 <= max_hours,
    ensures
        ({
            let h = optimal_spec(prices, max_hours, min_continuous_hours, start, end).0;
            &&& h.len() <= max_hours
            &&& forall|i: int| 0 <= i < h.len() ==> hour_in_window(#[trigger] h[i] as int, start, end)
            &&& forall|i: int| 0 <= i < h.len() ==> hour_of_some(prices, #[trigger] h[i])
        }),
{
    lemma_selection_len(prices, max_hours, min_continuous_hours, start, end);
    lemma_filter_wf(prices, start, end);
    let f = filter_window(prices, start, end);
    let h = optimal_spec(prices, max_hours, min_continuous_hours, start, end).0;
    if f.len() > 0 {
        lemma_orders_total();
        if min_continuous_hours <= 1 {
            let c = cheapest(f, max_hours as nat);
            let s = f.sort_by(by_price());
            lemma_sorted_entries_bounded(f, by_price());
            lemma_chronological(hours_of(c));
            assert forall|i: int| 0 <= i < h.len() implies hour_in_window(#[trigger] h[i] as int, start, end)
                && hour_of_some(prices, h[i]) by {
                assert(h.contains(h[i]));
                assert(hours_of(c).contains(h[i]));
                let j = choose|j: int| 0 <= j < hours_of(c).len() && hours_of(c)[j] == h[i];
                assert(c[j] == s[j]);
                assert(f.contains(s[j]));
                assert(prices.contains(s[j]));
                let a = choose|a: int| 0 <= a < prices.len() && prices[a] == s[j];
                assert(prices[a].hour == h[i]);
            }
        } else {
            let avail = available(f);
            let rb = ranked_blocks(f, min_continuous_hours as nat);
            let g = greedy(avail, rb, max_hours as nat, Seq::empty(), 0);
            lemma_ranked_blocks_inside(f, min_continuous_hours as nat);
            lemma_greedy_hours_from(avail, rb, max_hours as nat, Seq::empty(), 0);
            lemma_chronological(g.0);
            lemma_sorted_entries_bounded(f, by_hour());
            assert forall|i: int| 0 <= i < h.len() implies hour_in_window(#[trigger] h[i] as int, start, end)
                && hour_of_some(prices, h[i]) by {
                assert(h.contains(h[i]));
                assert(g.0.contains(h[i]));
                assert(hour_of_some(avail, h[i]));
                let j = choose|j: int| 0 <= j < avail.len() && avail[j].hour == h[i];
                assert(f.contains(avail[j]));
                assert(prices.contains(avail[j]));
                let a = choose|a: int| 0 <= a < prices.len() && prices[a] == avail[j];
                assert(prices[a].hour == h[i]);
            }
        }
    }
}

/// The hours `a .. a + len`, counted round the clock (hour 0 following hour
/// 23), are all in `hours`.
pub open spec fn run_covered(hours: Seq<u8>, a: int, len: int) -> bool {
    forall|x: int| a <= x < a + len ==> #[trigger] hours.contains((x % 24) as u8)
}

/// Hour `h` lies in a run of at least `min` hours of `hours` that follow one
/// another round the clock.
pub open spec fn in_long_run(hours: Seq<u8>, h: int, min: int) -> bool {
    exists|a: int, len: int|
        len >= min && (a <= h < a + len || a <= h + 24 < a + len) && run_covered(hours, a, len)
}

/// Inside a run, each hour is the one before plus one, round the clock.
proof fn lemma_run_hours(avail: Seq<HourlyPrice>, i: int, len: int, t: int)
    requires
        forall|k: int| 0 <= k < avail.len() ==> #[trigger] avail[k].hour < 24,
        0 <= i < avail.len(),
        0 <= t < len <= run_len(avail, i),
    ensures
        cyclic(avail, i, t).hour as int == (cyclic(avail, i, 0).hour + t) % 24,
    decreases t,
{
    let n = avail.len() as int;
    if t > 0 {
        lemma_run_hours(avail, i, len, t - 1);
        lemma_run_chain(avail, i, 1, t - 1);
        let p = cyclic(avail, i, t - 1).hour as int;
        let q = cyclic(avail, i, t).hour as int;
        assert(0 <= (i + t - 1) % n < n);
        assert(0 <= (i + t) % n < n);
        assert(p < 24 && q < 24);
        assert(q == (p + 1) % 24);
        let h0 = cyclic(avail, i, 0).hour as int;
        assert(p == (h0 + t - 1) % 24);
        assert(((h0 + t - 1) % 24 + 1) % 24 == (h0 + t) % 24) by {
            vstd::arithmetic::div_mod::lemma_add_mod_noop(h0 + t - 1, 1, 24);
        }
    }
}

proof fn lemma_greedy_long_runs(
    avail: Seq<HourlyPrice>,
    blocks: Seq<Block>,
    max: nat,
    min: int,
    sel: Seq<u8>,
    total: int,
)
    requires
        avail.len() <= 24,
        forall|k: int| 0 <= k < avail.len() ==> #[trigger] avail[k].hour < 24,
        blocks_inside(avail, blocks),
        forall|k: int|
            0 <= k < blocks.len() ==> #[trigger] blocks[k].len >= min && blocks[k].len <= run_len(
                avail,
                blocks[k].start as int,
            ),
        forall|x: u8| #[trigger] sel.contains(x) ==> in_long_run(sel, x as int, min),
    ensures
        forall|x: u8| #[trigger] greedy(avail, blocks, max, sel, total).0.contains(x) ==> in_long_run(
            greedy(avail, blocks, max, sel, total).0,
            x as int,
            min,
        ),
    decreases blocks.len(),
{
    if blocks.len() > 0 && sel.len() < max {
        let b = blocks[0];
        let bp = block_prices(avail, b);
        let hs = hours_of(bp);
        let rest = blocks.drop_first();
        assert(blocks_inside(avail, rest)) by {
            assert forall|k: int| 0 <= k < rest.len() implies (#[trigger] rest[k]).start < avail.len()
                && rest[k].len <= avail.len() by {
                assert(rest[k] == blocks[k + 1]);
            }
        }
        assert forall|k: int| 0 <= k < rest.len() implies #[trigger] rest[k].len >= min && rest[k].len
            <= run_len(avail, rest[k].start as int) by {
            assert(rest[k] == blocks[k + 1]);
        }
        if !overlaps(hs, sel) && sel.len() + hs.len() <= max {
            assert(blocks[0].start < avail.len() && blocks[0].len <= avail.len());
            assert(blocks[0].len >= min && blocks[0].len <= run_len(avail, blocks[0].start as int));
            let ns = sel + hs;
            let n = avail.len() as int;
            vstd::arithmetic::div_mod::lemma_small_mod(b.start as nat, n as nat);
            assert((b.start + 0) % n == b.start);
            let a = avail[b.start as int].hour as int;
            assert(a < 24);
            assert forall|t: int| 0 <= t < b.len implies #[trigger] hs[t] as int == (a + t) % 24 by {
                lemma_run_hours(avail, b.start as int, b.len as int, t);
            }
            assert forall|x: u8| #[trigger] ns.contains(x) implies in_long_run(ns, x as int, min) by {
                let i = choose|i: int| 0 <= i < ns.len() && ns[i] == x;
                if i >= sel.len() {
                    let t = i - sel.len();
                    assert(hs[t] == x);
                    assert(x as int == (a + t) % 24);
                    assert(b.len <= 24);
                    assert(a <= x < a + b.len || a <= x + 24 < a + b.len);
                    assert forall|y: int| a <= y < a + b.len implies #[trigger] ns.contains((y % 24) as u8) by {
                        assert(hs[y - a] as int == y % 24);
                        assert(ns[sel.len() + (y - a)] == hs[y - a]);
                    }
                    assert(run_covered(ns, a, b.len as int));
                } else {
                    assert(sel.contains(x));
                    assert(in_long_run(sel, x as int, min));
                    let (a0, l0) = choose|a0: int, l0: int|
                        l0 >= min && (a0 <= x < a0 + l0 || a0 <= x + 24 < a0 + l0) && run_covered(
                            sel,
                            a0,
                            l0,
                        );
                    assert forall|y: int| a0 <= y < a0 + l0 implies #[trigger] ns.contains((y % 24) as u8) by {
                        assert(sel.contains((y % 24) as u8));
                        let j = choose|j: int| 0 <= j < sel.len() && sel[j] == (y % 24) as u8;
                        assert(ns[j] == sel[j]);
                    }
                    assert(run_covered(ns, a0, l0));
                }
            }
            lemma_greedy_long_runs(avail, rest, max, min, ns, total + sum_prices(bp));
            assert(greedy(avail, blocks, max, sel, total) == greedy(avail, rest, max, ns, total + sum_prices(bp)));
        } else {
            lemma_greedy_long_runs(avail, rest, max, min, sel, total);
            assert(greedy(avail, blocks, max, sel, total) == greedy(avail, rest, max, sel, total));
        }
    } else {
        assert(greedy(avail, blocks, max, sel, total) == (sel, total));
    }
}

/// With a minimum run of two hours or more, every chosen hour lies in a run
/// of at least that many chosen hours that follow one another round the
/// clock (hour 0 following hour 23): no block is left shorter than the
/// minimum.
pub proof fn lemma_runs_meet_minimum(
    prices: Seq<HourlyPrice>,
    max_hours: int,
    min_continuous_hours: int,
    start: Option<TimeOfDay>,
    end: Option<TimeOfDay>,
)
    requires
        prices_wf(prices),
        0 <= max_hours,
        min_continuous_hours >= 2,
    ensures
        ({
            let h = optimal_spec(prices, max_hours, min_continuous_hours, start, end).0;
            forall|i: int| 0 <= i < h.len() ==> in_long_run(h, #[trigger] h[i] as int, min_continuous_hours)
        }),
{
    lemma_filter_wf(prices, start, end);
    let f = filter_window(prices, start, end);
    let h = optimal_spec(prices, max_hours, min_continuous_hours, start, end).0;
    if f.len() > 0 {
        lemma_orders_total();
        let min = min_continuous_hours as nat;
        let avail = available(f);
        let rb = ranked_blocks(f, min);
        let g = greedy(avail, rb, max_hours as nat, Seq::empty(), 0);
        lemma_sorted_entries_bounded(f, by_hour());
        assert forall|k: int| 0 <= k < avail.len() implies #[trigger] avail[k].hour < 24 by {
            assert(-MAX_PRICE <= avail[k].price <= MAX_PRICE && avail[k].hour < 24);
        }
        lemma_ranked_blocks_inside(f, min);
        assert forall|k: int| 0 <= k < rb.len() implies #[trigger] rb[k].len >= min_continuous_hours
            && rb[k].len <= run_len(avail, rb[k].start as int) by {
            assert(rb[k].len >= shortest_block(min));
        }
        lemma_greedy_long_runs(avail, rb, max_hours as nat, min_continuous_hours, Seq::empty(), 0);
        lemma_chronological(g.0);
        assert forall|i: int| 0 <= i < h.len() implies in_long_run(h, #[trigger] h[i] as int, min_continuous_hours) by {
            assert(h.contains(h[i]));
            assert(g.0.contains(h[i]));
            assert(in_long_run(g.0, h[i] as int, min_continuous_hours));
            let (a0, l0) = choose|a0: int, l0: int|
                l0 >= min_continuous_hours && (a0 <= h[i] < a0 + l0 || a0 <= h[i] + 24 < a0 + l0)
                    && run_covered(g.0, a0, l0);
            assert forall|y: int| a0 <= y < a0 + l0 implies #[trigger] h.contains((y % 24) as u8) by {
                assert(g.0.contains((y % 24) as u8));
            }
            assert(run_covered(h, a0, l0));
        }
    }
}

proof fn lemma_sorted_distinct_hours(f: Seq<HourlyPrice>, leq: spec_fn(HourlyPrice, HourlyPrice) -> bool)
    requires
        prices_wf(f),
        total_ordering(leq),
    ensures
        forall|i: int, j: int|
            0 <= i < j < f.sort_by(leq).len() ==> #[trigger] f.sort_by(leq)[i].hour
                != #[trigger] f.sort_by(leq)[j].hour,
{
    let s = f.sort_by(leq);
    f.lemma_sort_by_ensures(leq);
    lemma_sorted_entries_bounded(f, leq);
    broadcast use group_to_multiset_ensures;
    assert(f.no_duplicates()) by {
        assert forall|i: int, j: int| 0 <= i < f.len() && 0 <= j < f.len() && i != j implies f[i] != f[j] by {
            if i < j {
                assert(f[i].hour != f[j].hour);
            } else {
                assert(f[j].hour != f[i].hour);
            }
        }
    }
    f.lemma_multiset_has_no_duplicates();
    assert forall|x: HourlyPrice| s.to_multiset().contains(x) implies s.to_multiset().count(x) == 1 by {
    }
    s.lemma_multiset_has_no_duplicates_conv();
    assert forall|i: int, j: int| 0 <= i < j < s.len() implies #[trigger] s[i].hour != #[trigger] s[j].hour by {
        assert(s[i] != s[j]);
        assert(f.contains(s[i]));
        assert(f.contains(s[j]));
        let a = choose|a: int| 0 <= a < f.len() && f[a] == s[i];
        let b = choose|b: int| 0 <= b < f.len() && f[b] == s[j];
        assert(a != b);
        if a < b {
            assert(f[a].hour != f[b].hour);
        } else {
            assert(f[b].hour != f[a].hour);
        }
    }
}

/// The scattered strategy takes the cheapest hours: as many as allowed (or
/// all there are), each for an available entry, and every entry taken is
/// cheaper than every entry left, or as cheap and earlier. The cost is the
/// exact sum of the prices taken.
pub proof fn lemma_scattered_takes_cheapest(f: Seq<HourlyPrice>, max: nat)
    requires
        prices_wf(f),
    ensures
        ({
            let (h, total) = scattered_spec(f, max);
            &&& h.len() == if max < f.len() {
                max as int
            } else {
                f.len() as int
            }
            &&& total == sum_prices(cheapest(f, max))
            &&& forall|x: u8| #[trigger] h.contains(x) ==> hour_of_some(f, x)
            &&& forall|p: HourlyPrice, q: HourlyPrice|
                #![trigger f.contains(p), f.contains(q)]
                f.contains(p) && f.contains(q) && h.contains(p.hour) && !h.contains(q.hour)
                    ==> by_price()(p, q)
        }),
{
    lemma_orders_total();
    let s = f.sort_by(by_price());
    let c = cheapest(f, max);
    let h = scattered_spec(f, max).0;
    lemma_sorted_entries_bounded(f, by_price());
    lemma_sorted_distinct_hours(f, by_price());
    f.lemma_sort_by_ensures(by_price());
    lemma_chronological(hours_of(c));
    let k = c.len() as int;
    assert(c =~= s.take(k));
    assert forall|x: u8| #[trigger] h.contains(x) implies hour_of_some(f, x) by {
        assert(hours_of(c).contains(x));
        let j = choose|j: int| 0 <= j < hours_of(c).len() && hours_of(c)[j] == x;
        assert(f.contains(s[j]));
        let a = choose|a: int| 0 <= a < f.len() && f[a] == s[j];
    }
    assert forall|p: HourlyPrice, q: HourlyPrice|
        #![trigger f.contains(p), f.contains(q)]
        f.contains(p) && f.contains(q) && h.contains(p.hour) && !h.contains(q.hour)
            implies by_price()(p, q) by {
        broadcast use group_to_multiset_ensures;
        assert(s.contains(p) && s.contains(q)) by {
            assert(f.to_multiset().count(p) > 0);
            assert(f.to_multiset().count(q) > 0);
        }
        let ip = choose|i: int| 0 <= i < s.len() && s[i] == p;
        let iq = choose|i: int| 0 <= i < s.len() && s[i] == q;
        assert(hours_of(c).contains(p.hour));
        let jp = choose|j: int| 0 <= j < hours_of(c).len() && hours_of(c)[j] == p.hour;
        assert(s[jp].hour == p.hour);
        if jp != ip {
            if jp < ip {
                assert(s[jp].hour != s[ip].hour);
            } else {
                assert(s[ip].hour != s[jp].hour);
            }
        }
        assert(ip < k);
        if iq < k {
            assert(hours_of(c)[iq] == q.hour);
            assert(hours_of(c).contains(q.hour));
        }
        assert(ip < iq);
    }
}

/// No two entries share an hour.
pub open spec fn hours_distinct(s: Seq<HourlyPrice>) -> bool {
    forall|i: int, j: int| 0 <= i < j < s.len() ==> #[trigger] s[i].hour != #[trigger] s[j].hour
}

/// Entries whose hour is among `h`.
pub open spec fn hour_chosen(h: Seq<u8>) -> spec_fn(HourlyPrice) -> bool {
    |p: HourlyPrice| h.contains(p.hour)
}

proof fn lemma_sum_remove(y: Seq<HourlyPrice>, j: int)
    requires
        0 <= j < y.len(),
    ensures
        sum_prices(y) == sum_prices(y.remove(j)) + y[j].price,
    decreases y.len(),
{
    if j == y.len() - 1 {
        assert(y.remove(j) =~= y.drop_last());
    } else {
        lemma_sum_remove(y.drop_last(), j);
        assert(y.drop_last().remove(j) =~= y.remove(j).drop_last());
        assert(y.remove(j).last() == y.last());
    }
}

/// Two sequences with the same elements have the same sum.
proof fn lemma_sum_perm(x: Seq<HourlyPrice>, y: Seq<HourlyPrice>)
    requires
        x.to_multiset() == y.to_multiset(),
    ensures
        sum_prices(x) == sum_prices(y),
    decreases x.len(),
{
    broadcast use group_to_multiset_ensures;
    broadcast use vstd::multiset::group_multiset_axioms;
    if x.len() == 0 {
        to_multiset_len(y);
        assert(y =~= Seq::<HourlyPrice>::empty());
    } else {
        let e = x.last();
        assert(x.drop_last().push(e) =~= x);
        assert(x.to_multiset().count(e) > 0);
        assert(y.contains(e));
        let j = choose|j: int| 0 <= j < y.len() && y[j] == e;
        to_multiset_remove(y, j);
        assert(x.drop_last().to_multiset() =~= x.to_multiset().remove(e));
        lemma_sum_perm(x.drop_last(), y.remove(j));
        lemma_sum_remove(y, j);
    }
}

proof fn lemma_filter_distinct(s: Seq<HourlyPrice>, pred: spec_fn(HourlyPrice) -> bool)
    requires
        hours_distinct(s),
    ensures
        hours_distinct(s.filter(pred)),
        forall|p: HourlyPrice| #[trigger] s.filter(pred).contains(p) ==> s.contains(p) && pred(p),
    decreases s.len(),
{
    reveal(Seq::filter);
    if s.len() > 0 {
        let init = s.drop_last();
        lemma_filter_distinct(init, pred);
        let fi = init.filter(pred);
        assert forall|p: HourlyPrice| #[trigger] fi.contains(p) implies s.contains(p) by {
            let a = choose|a: int| 0 <= a < init.len() && init[a] == p;
            assert(s[a] == p);
        }
        if pred(s.last()) {
            let f = fi.push(s.last());
            assert(s.filter(pred) == f);
            assert forall|i: int, j: int| 0 <= i < j < f.len() implies #[trigger] f[i].hour
                != #[trigger] f[j].hour by {
                if j == f.len() - 1 {
                    assert(fi.contains(f[i]));
                    let a = choose|a: int| 0 <= a < init.len() && init[a] == f[i];
                    assert(s[a] == f[i]);
                    assert(s[s.len() - 1] == f[j]);
                } else {
                    assert(f[i] == fi[i] && f[j] == fi[j]);
                }
            }
            assert forall|p: HourlyPrice| #[trigger] f.contains(p) implies s.contains(p) && pred(p) by {
                let i = choose|i: int| 0 <= i < f.len() && f[i] == p;
                if i < fi.len() {
                    assert(fi.contains(p));
                } else {
                    assert(s[s.len() - 1] == p);
                }
            }
        }
    }
}

proof fn lemma_same_elements(x: Seq<HourlyPrice>, y: Seq<HourlyPrice>)
    requires
        x.no_duplicates(),
        y.no_duplicates(),
        forall|e: HourlyPrice| x.contains(e) <==> y.contains(e),
    ensures
        x.to_multiset() == y.to_multiset(),
{
    broadcast use group_to_multiset_ensures;
    x.lemma_multiset_has_no_duplicates();
    y.lemma_multiset_has_no_duplicates();
    assert forall|e: HourlyPrice| x.to_multiset().count(e) == y.to_multiset().count(e) by {
        if x.contains(e) {
            assert(x.to_multiset().contains(e));
            assert(y.to_multiset().contains(e));
        }
    }
    assert(x.to_multiset() =~= y.to_multiset());
}

/// The scattered strategy's hours strictly increase, and its cost is the sum
/// of the prices of exactly those entries whose hour was chosen.
pub proof fn lemma_scattered_total_and_order(f: Seq<HourlyPrice>, max: nat)
    requires
        prices_wf(f),
    ensures
        ({
            let (h, total) = scattered_spec(f, max);
            &&& forall|i: int, j: int| 0 <= i < j < h.len() ==> #[trigger] h[i] < #[trigger] h[j]
            &&& total == sum_prices(f.filter(hour_chosen(h)))
        }),
{
    broadcast use group_to_multiset_ensures;
    lemma_orders_total();
    let s = f.sort_by(by_price());
    let c = cheapest(f, max);
    let hc = hours_of(c);
    let h = scattered_spec(f, max).0;
    lemma_sorted_entries_bounded(f, by_price());
    lemma_sorted_distinct_hours(f, by_price());
    f.lemma_sort_by_ensures(by_price());
    lemma_chronological(hc);
    let k = c.len() as int;
    assert(c =~= s.take(k));
    // The hours of `c` are distinct, and so are those of `h`.
    assert(hc.no_duplicates()) by {
        assert forall|i: int, j: int| 0 <= i < hc.len() && 0 <= j < hc.len() && i != j implies hc[i]
            != hc[j] by {
            if i < j {
                assert(s[i].hour != s[j].hour);
            } else {
                assert(s[j].hour != s[i].hour);
            }
        }
    }
    hc.lemma_sort_by_ensures(ascending());
    hc.lemma_multiset_has_no_duplicates();
    assert forall|x: u8| h.to_multiset().contains(x) implies h.to_multiset().count(x) == 1 by {
    }
    h.lemma_multiset_has_no_duplicates_conv();
    assert forall|i: int, j: int| 0 <= i < j < h.len() implies #[trigger] h[i] < #[trigger] h[j] by {
        assert(ascending()(h[i], h[j]));
        assert(h[i] != h[j]);
    }
    // The chosen entries are exactly those of `f` whose hour is in `h`.
    let fl = f.filter(hour_chosen(h));
    assert(hours_distinct(f));
    lemma_filter_distinct(f, hour_chosen(h));
    assert(c.no_duplicates()) by {
        assert forall|i: int, j: int| 0 <= i < c.len() && 0 <= j < c.len() && i != j implies c[i]
            != c[j] by {
            if i < j {
                assert(s[i].hour != s[j].hour);
            } else {
                assert(s[j].hour != s[i].hour);
            }
        }
    }
    assert(fl.no_duplicates()) by {
        assert forall|i: int, j: int| 0 <= i < fl.len() && 0 <= j < fl.len() && i != j implies fl[i]
            != fl[j] by {
            if i < j {
                assert(fl[i].hour != fl[j].hour);
            } else {
                assert(fl[j].hour != fl[i].hour);
            }
        }
    }
    assert forall|e: HourlyPrice| c.contains(e) <==> fl.contains(e) by {
        if c.contains(e) {
            let j = choose|j: int| 0 <= j < c.len() && c[j] == e;
            assert(f.contains(s[j]));
            assert(hc[j] == e.hour);
            assert(hc.contains(e.hour));
            assert(h.contains(e.hour));
            let a = choose|a: int| 0 <= a < f.len() && f[a] == e;
            f.lemma_filter_contains(hour_chosen(h), a);
        }
        if fl.contains(e) {
            assert(f.contains(e) && h.contains(e.hour));
            assert(hc.contains(e.hour));
            let j = choose|j: int| 0 <= j < hc.len() && hc[j] == e.hour;
            assert(f.contains(s[j]));
            let a = choose|a: int| 0 <= a < f.len() && f[a] == e;
            let b = choose|b: int| 0 <= b < f.len() && f[b] == s[j];
            if a != b {
                if a < b {
                    assert(f[a].hour != f[b].hour);
                } else {
                    assert(f[b].hour != f[a].hour);
                }
            }
            assert(c[j] == e);
        }
    }
    lemma_same_elements(c, fl);
    lemma_sum_perm(c, fl);
}

} // verus!
