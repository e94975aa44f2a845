use alator::broker::Quote;
use panacea::sample::{block_plan, build_sample, resample_closes, sample_positions, SampleError, DAYS_IN_YEAR, SECS_IN_DAY};
use rand::distributions::{Distribution, Uniform};
use rand::thread_rng;

fn quote_days(first: i64, last_exclusive: i64) -> Vec<Vec<Quote>> {
    let price_dist = Uniform::new(98.0, 102.0);
    let mut rng = thread_rng();
    let mut raw_data: Vec<Vec<Quote>> = Vec::new();
    for date in first..last_exclusive {
        let price: f64 = price_dist.sample(&mut rng);
        let quote = Quote {
            bid: price.into(),
            ask: price.into(),
            date: date.into(),
            symbol: "ABC".to_string(),
        };
        raw_data.push(vec![quote]);
    }
    raw_data
}

fn same_quote(a: &Quote, b: &Quote) -> bool {
    *a.bid == *b.bid && *a.ask == *b.ask && *a.date == *b.date && a.symbol == b.symbol
}

#[test]
fn test_sample_generator() {
    let raw_data = quote_days(1, 400);
    let res = build_sample(1, 10, &raw_data, 42);
    let new_sample_len = res.unwrap().len();
    assert!(new_sample_len == 3650);
}

#[test]
fn test_sample_generator_with_insufficient_data() {
    let raw_data = quote_days(1, 10);
    let res = build_sample(1, 10, &raw_data, 42);
    assert!(res.is_err() == true);
}

#[test]
fn one_day_short_of_a_year_fails() {
    let raw_data = quote_days(0, 364);
    assert_eq!(build_sample(0, 1, &raw_data, 7).unwrap_err(), SampleError::InsufficientData);
    assert_eq!(sample_positions(364, 1, 7), Err(SampleError::InsufficientData));
}

#[test]
fn exactly_one_year_succeeds() {
    let raw_data = quote_days(0, 365);
    let out = build_sample(1_000, 1, &raw_data, 7).unwrap();
    assert_eq!(out.len(), 365);
    for (k, (date, quotes)) in out.iter().enumerate() {
        assert_eq!(*date, 1_000 + k as i64 * 86_400);
        assert!(same_quote(&quotes[0], &raw_data[k][0]));
    }
}

#[test]
fn output_length_is_years_times_days() {
    let raw_data = quote_days(0, 500);
    for years in [0i64, 1, 2, 7] {
        let out = build_sample(0, years, &raw_data, 99).unwrap();
        assert_eq!(out.len() as i64, years * 365);
    }
    assert_eq!(sample_positions(500, 3, 1).unwrap().len(), 3 * DAYS_IN_YEAR);
}

#[test]
fn same_seed_same_sample() {
    let raw_data = quote_days(0, 800);
    let a = build_sample(5, 4, &raw_data, 2024).unwrap();
    let b = build_sample(5, 4, &raw_data, 2024).unwrap();
    assert_eq!(a.len(), b.len());
    for (x, y) in a.iter().zip(b.iter()) {
        assert_eq!(x.0, y.0);
        assert_eq!(x.1.len(), y.1.len());
        assert!(same_quote(&x.1[0], &y.1[0]));
    }
    assert_eq!(sample_positions(800, 4, 11), sample_positions(800, 4, 11));
}

#[test]
fn dates_go_up_one_day_at_a_time() {
    let raw_data = quote_days(0, 600);
    let out = build_sample(1_600_000_000, 3, &raw_data, 3).unwrap();
    assert_eq!(out[0].0, 1_600_000_000);
    for w in out.windows(2) {
        assert_eq!(w[1].0 - w[0].0, SECS_IN_DAY);
        assert_eq!(w[1].0 - w[0].0, 86_400);
    }
}

#[test]
fn blocks_are_whole_years_of_history() {
    let days: usize = 1_000;
    let plan = sample_positions(days, 6, 123).unwrap();
    assert_eq!(plan.len(), 6 * 365);
    let mut starts = Vec::new();
    for block in plan.chunks(365) {
        assert!(block[0] < days - 365);
        for d in 0..365 {
            assert_eq!(block[d], block[0] + d);
        }
        starts.push(block[0]);
    }
    // the draws are not all the same start
    assert!(starts.iter().any(|s| *s != starts[0]));
}

#[test]
fn sampled_quotes_come_from_their_history_day() {
    let raw_data = quote_days(0, 700);
    let out = build_sample(0, 2, &raw_data, 555).unwrap();
    let plan = sample_positions(700, 2, 555).unwrap();
    for (k, (_, quotes)) in out.iter().enumerate() {
        assert!(same_quote(&quotes[0], &raw_data[plan[k]][0]));
    }
}

#[test]
fn negative_years_are_refused() {
    let raw_data = quote_days(0, 400);
    assert_eq!(build_sample(0, -1, &raw_data, 1).unwrap_err(), SampleError::InvalidInput);
    assert_eq!(sample_positions(400, -3, 1), Err(SampleError::InvalidInput));
}

#[test]
fn insufficient_data_comes_before_invalid_years() {
    let raw_data = quote_days(0, 10);
    assert_eq!(build_sample(0, -1, &raw_data, 1).unwrap_err(), SampleError::InsufficientData);
}

#[test]
fn dates_beyond_i64_are_refused() {
    let raw_data = quote_days(0, 400);
    assert_eq!(build_sample(i64::MAX - 86_400, 1, &raw_data, 1).unwrap_err(), SampleError::InvalidInput);
    let last_ok = i64::MAX - 364 * 86_400;
    let out = build_sample(last_ok, 1, &raw_data, 1).unwrap();
    assert_eq!(out[364].0, i64::MAX);
}

#[test]
fn closes_share_one_draw_per_year() {
    let col_a: Vec<f64> = (0..450).map(|i| i as f64).collect();
    let col_b: Vec<f64> = (0..450).map(|i| 1_000.0 + i as f64).collect();
    let (dates, cols) = resample_closes(10, 3, &vec![col_a, col_b], 77).unwrap();
    assert_eq!(dates.len(), 3 * 365);
    assert_eq!(cols.len(), 2);
    let plan = sample_positions(450, 3, 77).unwrap();
    for k in 0..dates.len() {
        assert_eq!(dates[k], 10 + k as i64 * 86_400);
        assert_eq!(cols[0][k], plan[k] as f64);
        assert_eq!(cols[1][k], cols[0][k] + 1_000.0);
    }
}

#[test]
fn closes_of_uneven_length_are_refused() {
    let col_a: Vec<f64> = vec![1.0; 400];
    let col_b: Vec<f64> = vec![1.0; 399];
    assert_eq!(resample_closes(0, 1, &vec![col_a, col_b], 1), Err(SampleError::InvalidInput));
}

#[test]
fn short_closes_are_insufficient() {
    let col: Vec<f64> = vec![1.0; 364];
    assert_eq!(resample_closes(0, 1, &vec![col], 1), Err(SampleError::InsufficientData));
    let none: Vec<Vec<f64>> = Vec::new();
    assert_eq!(resample_closes(0, 1, &none, 1), Err(SampleError::InsufficientData));
}

#[test]
fn block_plan_lays_blocks_end_to_end() {
    let plan = block_plan(&vec![3, 0, 3], 400);
    assert_eq!(plan.len(), 3 * 365);
    assert_eq!(plan[0], 3);
    assert_eq!(plan[364], 367);
    assert_eq!(plan[365], 0);
    assert_eq!(plan[729], 364);
    assert_eq!(plan[730], 3);
    assert_eq!(plan[1094], 367);
    assert!(block_plan(&vec![], 400).is_empty());
}

#[test]
fn block_plan_last_block_may_end_on_last_day() {
    let plan = block_plan(&vec![35], 400);
    assert_eq!(plan[0], 35);
    assert_eq!(plan[364], 399);
}
