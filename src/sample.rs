//! Block-bootstrap resampling of a daily history.
//!
//! The history is cut into year-long blocks of `DAYS_IN_YEAR` consecutive
//! days. For each requested year one block start is drawn, uniformly and with
//! replacement, from a seeded generator; the chosen blocks are laid end to end
//! and the result is dated one day apart from a given start. The draws are
//! shared by every symbol, so each year keeps the history's cross-asset
//! structure.

use vstd::prelude::*;
use alator::broker::Quote;
use rand::distributions::Distribution;
use rand::SeedableRng;

verus! {

/// Days in one resampled block.
pub const DAYS_IN_YEAR: usize = 365;

/// Seconds between two consecutive synthetic dates.
pub const SECS_IN_DAY: i64 = 86_400;

/// Why a resampling was refused. No partial output is ever produced.
#[derive(Clone, Copy, Debug, PartialEq, Eq, Structural)]
pub enum SampleError {
    /// The history holds fewer than `DAYS_IN_YEAR` days.
    InsufficientData,
    /// A negative number of years, an output too long to index, synthetic
    /// dates beyond `i64`, or per-symbol columns of different lengths.
    InvalidInput,
}

#[verifier::external_type_specification]
#[verifier::external_body]
pub struct ExQuote(Quote);

/// alator's `Quote` derives `Clone`, which copies every field.
pub assume_specification[ <Quote as Clone>::clone ](q: &Quote) -> (r: Quote)
    ensures
        r == *q,
;

/// The `count` values that a `StdRng` seeded with `seed` yields through
/// `Uniform::new(0, bound)`.
pub uninterp spec fn seeded_uniform_draws(seed: u64, bound: u64, count: nat) -> Seq<u64>;

/// Relies on rand's `StdRng::seed_from_u64` and `Uniform::new(0, bound)`:
/// `count` draws, each below `bound`, fixed by the seed. `Uniform::new`
/// panics on an empty range, hence `bound > 0`.
#[verifier::external_body]
fn uniform_draws(seed: u64, bound: u64, count: usize) -> (r: Vec<u64>)
    requires
        bound > 0,
    ensures
        r@ == seeded_uniform_draws(seed, bound, count as nat),
        r@.len() == count,
        forall|k: int| 0 <= k < r@.len() ==> #[trigger] r@[k] < bound,
{
    let mut rng = rand::rngs::StdRng::seed_from_u64(seed);
    let dist = rand::distributions::Uniform::new(0u64, bound);
    (0..count).map(|_| dist.sample(&mut rng)).collect()
}

/// Block starts are drawn from `[0, days - DAYS_IN_YEAR)`; a history of
/// exactly one year has the single start 0.
pub open spec fn offset_bound(days: int) -> int {
    if days > DAYS_IN_YEAR {
        days - DAYS_IN_YEAR
    } else {
        1
    }
}

/// The block starts drawn for `years` years of a `days`-day history.
pub open spec fn year_offsets(days: int, years: int, seed: u64) -> Seq<u64> {
    seeded_uniform_draws(seed, offset_bound(days) as u64, years as nat)
}

/// The history position of each output day: the blocks at `offsets`, in
/// draw order, each `DAYS_IN_YEAR` consecutive days long.
pub open spec fn block_positions(offsets: Seq<u64>) -> Seq<int> {
    Seq::new(
        (offsets.len() * DAYS_IN_YEAR) as nat,
        |k: int| offsets[k / DAYS_IN_YEAR as int] + k % DAYS_IN_YEAR as int,
    )
}

/// Positions as integers.
pub open spec fn positions_of(plan: Seq<usize>) -> Seq<int> {
    plan.map_values(|p: usize| p as int)
}

/// The date of output day `k`.
pub open spec fn synthetic_date(start_date: int, k: int) -> int {
    start_date + k * SECS_IN_DAY
}

/// The requested length can be produced: years not negative and the number
/// of output days fits a `usize`.
pub open spec fn length_ok(years: int) -> bool {
    0 <= years && years * DAYS_IN_YEAR <= usize::MAX
}

/// Every synthetic date of a `years`-year output fits an `i64`.
pub open spec fn dates_ok(start_date: int, years: int) -> bool {
    years == 0 || synthetic_date(start_date, years * DAYS_IN_YEAR - 1) <= i64::MAX
}

/// The history position of each output day for the block starts `offsets`:
/// block `y` covers history days `offsets[y]` to `offsets[y] + DAYS_IN_YEAR - 1`,
/// in order. Every block must lie inside the `days`-day history.
pub fn block_plan(offsets: &Vec<u64>, days: usize) -> (plan: Vec<usize>)
    requires
        offsets@.len() * DAYS_IN_YEAR <= usize::MAX,
        forall|y: int| 0 <= y < offsets@.len() ==> #[trigger] offsets@[y] + DAYS_IN_YEAR <= days,
    ensures
        positions_of(plan@) == block_positions(offsets@),
        forall|k: int| 0 <= k < plan@.len() ==> #[trigger] plan@[k] < days,
{
    let ghost expected = block_positions(offsets@);
    let mut plan: Vec<usize> = Vec::new();
    let mut y: usize = 0;
    while y < offsets.len()
        invariant
            0 <= y <= offsets@.len(),
            offsets@.len() * DAYS_IN_YEAR <= usize::MAX,
            forall|k: int| 0 <= k < offsets@.len() ==> #[trigger] offsets@[k] + DAYS_IN_YEAR <= days,
            plan@.len() == y * DAYS_IN_YEAR,
            forall|a: int, d: int|
                0 <= a < y && 0 <= d < DAYS_IN_YEAR ==> #[trigger] plan@[a * DAYS_IN_YEAR + d]
                    == offsets@[a] + d,
            forall|k: int| 0 <= k < plan@.len() ==> #[trigger] plan@[k] < days,
        decreases offsets@.len() - y,
    {
        let start = offsets[y] as usize;
        let mut d: usize = 0;
        while d < DAYS_IN_YEAR
            invariant
                0 <= y < offsets@.len(),
                0 <= d <= DAYS_IN_YEAR,
                start == offsets@[y as int],
                start + DAYS_IN_YEAR <= days,
                plan@.len() == y * DAYS_IN_YEAR + d,
                forall|a: int, e: int|
                    0 <= a < y && 0 <= e < DAYS_IN_YEAR ==> #[trigger] plan@[a * DAYS_IN_YEAR + e]
                        == offsets@[a] + e,
                forall|e: int| 0 <= e < d ==> #[trigger] plan@[y * DAYS_IN_YEAR + e] == start + e,
                forall|k: int| 0 <= k < plan@.len() ==> #[trigger] plan@[k] < days,
            decreases DAYS_IN_YEAR - d,
        {
            plan.push(start + d);
            d = d + 1;
        }
        y = y + 1;
    }
    proof {
        assert forall|k: int| 0 <= k < plan@.len() implies #[trigger] positions_of(plan@)[k]
            == expected[k] by {
            let a = k / DAYS_IN_YEAR as int;
            let d = k % DAYS_IN_YEAR as int;
            assert(k == a * DAYS_IN_YEAR + d && 0 <= d < DAYS_IN_YEAR && 0 <= a < y);
            assert(plan@[a * DAYS_IN_YEAR + d] == offsets@[a] + d);
        }
        assert(positions_of(plan@) =~= expected);
    }
    plan
}

/// The history positions of a resampling of `days` days into `years` years,
/// with block starts drawn from a generator seeded with `seed`. Fails with
/// `InsufficientData` on less than a year of history, before any draw.
pub fn sample_positions(days: usize, years: i64, seed: u64) -> (out: Result<Vec<usize>, SampleError>)
    ensures
        out matches Err(SampleError::InsufficientData) <==> days < DAYS_IN_YEAR,
        out matches Err(SampleError::InvalidInput) <==> (days >= DAYS_IN_YEAR && !length_ok(
            years as int,
        )),
        out matches Ok(plan) ==> {
            &&& plan@.len() == years * DAYS_IN_YEAR
            &&& positions_of(plan@) == block_positions(
                year_offsets(days as int, years as int, seed),
            )
            &&& forall|k: int| 0 <= k < plan@.len() ==> #[trigger] plan@[k] < days
            &&& year_offsets(days as int, years as int, seed).len() == years
            &&& forall|y: int|
                0 <= y < years ==> #[trigger] year_offsets(days as int, years as int, seed)[y]
                    < offset_bound(days as int)
        },
{
    if days < DAYS_IN_YEAR {
        return Err(SampleError::InsufficientData);
    }
    if years < 0 {
        return Err(SampleError::InvalidInput);
    }
    let wide_years: u128 = years as u128;
    assert(wide_years == years);
    if wide_years * (DAYS_IN_YEAR as u128) > usize::MAX as u128 {
        return Err(SampleError::InvalidInput);
    }
    let bound: u64 = if days > DAYS_IN_YEAR {
        (days - DAYS_IN_YEAR) as u64
    } else {
        1
    };
    let offsets = uniform_draws(seed, bound, years as usize);
    assert(bound == offset_bound(days as int));
    assert(offsets@ == year_offsets(days as int, years as int, seed));
    let plan = block_plan(&offsets, days);
    assert(positions_of(plan@).len() == plan@.len());
    Ok(plan)
}

/// Whether a `years`-year output starting at `start_date` can be produced.
fn length_and_dates_ok(start_date: i64, years: i64) -> (ok: bool)
    ensures
        ok == (length_ok(years as int) && dates_ok(start_date as int, years as int)),
{
    if years < 0 {
        return false;
    }
    let wide_years: i128 = years as i128;
    assert(0 <= wide_years * 365 <= 0x8000_0000_0000_0000 * 365) by (nonlinear_arith)
        requires
            0 <= wide_years <= 0x8000_0000_0000_0000,
    ;
    let total: i128 = wide_years * 365;
    if total > usize::MAX as i128 {
        return false;
    }
    if total == 0 {
        return true;
    }
    assert(0 <= (total - 1) * 86_400 <= 0x8000_0000_0000_0000 * 365 * 86_400) by (nonlinear_arith)
        requires
            0 < total <= 0x8000_0000_0000_0000 * 365,
    ;
    start_date as i128 + (total - 1) * 86_400 <= i64::MAX as i128
}

/// The dates of `count` consecutive days from `start_date`.
fn synthetic_dates(start_date: i64, count: usize) -> (dates: Vec<i64>)
    requires
        count == 0 || synthetic_date(start_date as int, count - 1) <= i64::MAX,
    ensures
        dates@.len() == count,
        forall|k: int| 0 <= k < count ==> #[trigger] dates@[k] == synthetic_date(start_date as int, k),
{
    let mut dates: Vec<i64> = Vec::new();
    let mut date: i64 = start_date;
    let mut k: usize = 0;
    while k < count
        invariant
            0 <= k <= count,
            count == 0 || synthetic_date(start_date as int, count - 1) <= i64::MAX,
            dates@.len() == k,
            k < count ==> date == synthetic_date(start_date as int, k as int),
            forall|j: int| 0 <= j < k ==> #[trigger] dates@[j] == synthetic_date(start_date as int, j),
        decreases count - k,
    {
        dates.push(date);
        if k + 1 < count {
            date = date + SECS_IN_DAY;
        }
        k = k + 1;
    }
    dates
}

/// `days` is the resampling of `history` into `years` years with block starts
/// drawn from the generator seeded by `seed`, dated from `start_date`.
pub open spec fn is_block_sample(
    start_date: int,
    years: int,
    history: Seq<Vec<Quote>>,
    seed: u64,
    days: Seq<(i64, Vec<Quote>)>,
) -> bool {
    &&& days.len() == years * DAYS_IN_YEAR
    &&& forall|k: int|
        0 <= k < days.len() ==> (#[trigger] days[k]).0 == synthetic_date(start_date, k)
            && days[k].1@ == history[block_positions(
            year_offsets(history.len() as int, years, seed),
        )[k]]@
}

/// Resamples a history of quote days (`raw_data[i]` holds the quotes of day
/// `i`, in time order) into `sim_length_yrs` years of year-long blocks drawn
/// with the generator seeded by `seed`. Output day `k` is dated
/// `start_date + k * SECS_IN_DAY` and holds the quotes of the history day
/// that its block maps it to.
pub fn build_sample(
    start_date: i64,
    sim_length_yrs: i64,
    raw_data: &Vec<Vec<Quote>>,
    seed: u64,
) -> (out: Result<Vec<(i64, Vec<Quote>)>, SampleError>)
    ensures
        out matches Err(SampleError::InsufficientData) <==> raw_data@.len() < DAYS_IN_YEAR,
        out matches Err(SampleError::InvalidInput) <==> (raw_data@.len() >= DAYS_IN_YEAR && !(
        length_ok(sim_length_yrs as int) && dates_ok(start_date as int, sim_length_yrs as int))),
        out matches Ok(days) ==> is_block_sample(
            start_date as int,
            sim_length_yrs as int,
            raw_data@,
            seed,
            days@,
        ),
{
    if raw_data.len() < DAYS_IN_YEAR {
        return Err(SampleError::InsufficientData);
    }
    if !length_and_dates_ok(start_date, sim_length_yrs) {
        return Err(SampleError::InvalidInput);
    }
    let plan = match sample_positions(raw_data.len(), sim_length_yrs, seed) {
        Ok(plan) => plan,
        Err(e) => return Err(e),
    };
    let dates = synthetic_dates(start_date, plan.len());
    let ghost expected = block_positions(year_offsets(raw_data@.len() as int, sim_length_yrs as int, seed));
    let mut days: Vec<(i64, Vec<Quote>)> = Vec::new();
    let mut k: usize = 0;
    while k < plan.len()
        invariant
            0 <= k <= plan@.len(),
            plan@.len() == sim_length_yrs * DAYS_IN_YEAR,
            dates@.len() == plan@.len(),
            positions_of(plan@) == expected,
            forall|j: int| 0 <= j < plan@.len() ==> #[trigger] plan@[j] < raw_data@.len(),
            forall|j: int| 0 <= j < plan@.len() ==> #[trigger] dates@[j] == synthetic_date(start_date as int, j),
            days@.len() == k,
            forall|j: int|
                0 <= j < k ==> (#[trigger] days@[j]).0 == synthetic_date(start_date as int, j)
                    && days@[j].1@ == raw_data@[expected[j]]@,
        decreases plan@.len() - k,
    {
        let quotes = raw_data[plan[k]].clone();
        proof {
            assert(positions_of(plan@)[k as int] == plan@[k as int] as int);
            assert(quotes@ =~= raw_data@[plan@[k as int] as int]@);
        }
        days.push((dates[k], quotes));
        k = k + 1;
    }
    Ok(days)
}

/// The number of days of a per-symbol price history: the length of its
/// columns, or 0 with no symbol.
pub open spec fn column_days<T>(closes: Seq<Vec<T>>) -> int {
    if closes.len() == 0 {
        0
    } else {
        closes[0]@.len() as int
    }
}

/// Every symbol's column covers the same days.
pub open spec fn columns_even<T>(closes: Seq<Vec<T>>) -> bool {
    forall|c: int| 0 <= c < closes.len() ==> (#[trigger] closes[c])@.len() == column_days(closes)
}

/// Resamples per-symbol columns (`closes[c][i]` is the price of symbol `c`
/// on day `i`) into `sim_length_yrs` years, with one draw per year shared by
/// every symbol. Returns the synthetic dates, one day apart from
/// `start_date`, and the resampled columns.
pub fn resample_closes<T: Copy>(
    start_date: i64,
    sim_length_yrs: i64,
    closes: &Vec<Vec<T>>,
    seed: u64,
) -> (out: Result<(Vec<i64>, Vec<Vec<T>>), SampleError>)
    ensures
        out matches Err(SampleError::InvalidInput) <==> (!columns_even(closes@) || (column_days(
            closes@,
        ) >= DAYS_IN_YEAR && !(length_ok(sim_length_yrs as int) && dates_ok(
            start_date as int,
            sim_length_yrs as int,
        )))),
        out matches Err(SampleError::InsufficientData) <==> (columns_even(closes@) && column_days(
            closes@,
        ) < DAYS_IN_YEAR),
        out matches Ok(sampled) ==> {
            let plan = block_positions(
                year_offsets(column_days(closes@), sim_length_yrs as int, seed),
            );
            &&& sampled.0@.len() == sim_length_yrs * DAYS_IN_YEAR
            &&& forall|k: int|
                0 <= k < sampled.0@.len() ==> #[trigger] sampled.0@[k] == synthetic_date(
                    start_date as int,
                    k,
                )
            &&& sampled.1@.len() == closes@.len()
            &&& forall|c: int|
                0 <= c < closes@.len() ==> (#[trigger] sampled.1@[c])@.len() == sampled.0@.len()
            &&& forall|c: int, k: int|
                0 <= c < closes@.len() && 0 <= k < sampled.0@.len() ==> #[trigger] sampled.1@[c]@[k]
                    == closes@[c]@[plan[k]]
        },
{
    let days: usize = if closes.len() == 0 {
        0
    } else {
        closes[0].len()
    };
    let mut c: usize = 0;
    while c < closes.len()
        invariant
            0 <= c <= closes@.len(),
            days == column_days(closes@),
            forall|b: int| 0 <= b < c ==> (#[trigger] closes@[b])@.len() == days,
        decreases closes@.len() - c,
    {
        if closes[c].len() != days {
            return Err(SampleError::InvalidInput);
        }
        c = c + 1;
    }
    if days < DAYS_IN_YEAR {
        return Err(SampleError::InsufficientData);
    }
    if !length_and_dates_ok(start_date, sim_length_yrs) {
        return Err(SampleError::InvalidInput);
    }
    let plan = match sample_positions(days, sim_length_yrs, seed) {
        Ok(plan) => plan,
        Err(e) => return Err(e),
    };
    let dates = synthetic_dates(start_date, plan.len());
    let ghost expected = block_positions(year_offsets(days as int, sim_length_yrs as int, seed));
    let mut sampled: Vec<Vec<T>> = Vec::new();
    let mut c: usize = 0;
    while c < closes.len()
        invariant
            0 <= c <= closes@.len(),
            plan@.len() == sim_length_yrs * DAYS_IN_YEAR,
            dates@.len() == plan@.len(),
            forall|j: int| 0 <= j < plan@.len() ==> #[trigger] dates@[j] == synthetic_date(start_date as int, j),
            columns_even(closes@),
            days == column_days(closes@),
            positions_of(plan@) == expected,
            forall|j: int| 0 <= j < plan@.len() ==> #[trigger] plan@[j] < days,
            sampled@.len() == c,
            forall|b: int| 0 <= b < c ==> (#[trigger] sampled@[b])@.len() == plan@.len(),
            forall|b: int, k: int|
                0 <= b < c && 0 <= k < plan@.len() ==> #[trigger] sampled@[b]@[k]
                    == closes@[b]@[expected[k]],
        decreases closes@.len() - c,
    {
        let column = &closes[c];
        let mut resampled: Vec<T> = Vec::new();
        let mut k: usize = 0;
        while k < plan.len()
            invariant
                0 <= c < closes@.len(),
                0 <= k <= plan@.len(),
                column@ == closes@[c as int]@,
                column@.len() == days,
                positions_of(plan@) == expected,
                forall|j: int| 0 <= j < plan@.len() ==> #[trigger] plan@[j] < days,
                resampled@.len() == k,
                forall|j: int| 0 <= j < k ==> #[trigger] resampled@[j] == column@[expected[j]],
            decreases plan@.len() - k,
        {
            proof {
                assert(positions_of(plan@)[k as int] == plan@[k as int] as int);
            }
            let value: T = column[plan[k]];
            resampled.push(value);
            k = k + 1;
        }
        sampled.push(resampled);
        c = c + 1;
    }
    Ok((dates, sampled))
}

/// Each output block copies consecutive history days in their original
/// order: within a block, the next output day comes from the next history day.
pub proof fn lemma_blocks_contiguous(offsets: Seq<u64>, k: int)
    requires
        0 <= k,
        k + 1 < offsets.len() * DAYS_IN_YEAR,
        (k + 1) % (DAYS_IN_YEAR as int) != 0,
    ensures
        block_positions(offsets)[k + 1] == block_positions(offsets)[k] + 1,
{
    assert((k + 1) / (DAYS_IN_YEAR as int) == k / (DAYS_IN_YEAR as int));
    assert((k + 1) % (DAYS_IN_YEAR as int) == k % (DAYS_IN_YEAR as int) + 1);
}

/// Two resamplings of the same history with the same length, start date and
/// seed are the same, day for day.
pub proof fn lemma_same_seed_same_sample(
    start_date: int,
    years: int,
    history: Seq<Vec<Quote>>,
    seed: u64,
    first: Seq<(i64, Vec<Quote>)>,
    second: Seq<(i64, Vec<Quote>)>,
)
    requires
        is_block_sample(start_date, years, history, seed, first),
        is_block_sample(start_date, years, history, seed, second),
    ensures
        first.len() == second.len(),
        forall|k: int|
            0 <= k < first.len() ==> (#[trigger] first[k]).0 == second[k].0 && first[k].1@
                == second[k].1@,
{
    assert forall|k: int| 0 <= k < first.len() implies (#[trigger] first[k]).0 == second[k].0
        && first[k].1@ == second[k].1@ by {
        assert(second[k].0 == synthetic_date(start_date, k));
    }
}

/// The dates of a resampling start at `start_date` and go up by exactly one
/// day at each step: strictly increasing, with no gap and no repeat.
pub proof fn lemma_sample_dates_consecutive(
    start_date: int,
    years: int,
    history: Seq<Vec<Quote>>,
    seed: u64,
    days: Seq<(i64, Vec<Quote>)>,
)
    requires
        is_block_sample(start_date, years, history, seed, days),
    ensures
        days.len() > 0 ==> days[0].0 == start_date,
        forall|k: int| 0 <= k < days.len() - 1 ==> #[trigger] days[k + 1].0 == days[k].0 + SECS_IN_DAY,
        forall|i: int, j: int| 0 <= i < j < days.len() ==> #[trigger] days[i].0 < #[trigger] days[j].0,
{
    if days.len() > 0 {
        assert(days[0].0 == synthetic_date(start_date, 0));
    }
    assert forall|k: int| 0 <= k < days.len() - 1 implies #[trigger] days[k + 1].0 == days[k].0
        + SECS_IN_DAY by {
        assert(days[k].0 == synthetic_date(start_date, k));
        assert(days[k + 1].0 == synthetic_date(start_date, k + 1));
    }
    assert forall|i: int, j: int| 0 <= i < j < days.len() implies #[trigger] days[i].0
        < #[trigger] days[j].0 by {
        assert(days[i].0 == synthetic_date(start_date, i));
        assert(days[j].0 == synthetic_date(start_date, j));
    }
}

} // verus!
