use panacea::drawdown::{max_dd_threshold_position, scan_drawdowns, DrawdownEpisode, DrawdownError};
use panacea::growth::{cum_returns, GROWTH_UNIT};

fn units(factors_in_thousandths: &[i64]) -> Vec<i64> {
    factors_in_thousandths.iter().map(|f| f * 1_000_000).collect()
}

#[test]
fn run_threshold() {
    // 0.1, -0.1, 0.2, 0.3, -0.15 percent; a threshold of +0.05 is refused.
    let rets: Vec<i64> = vec![10, -10, 20, 30, -15];
    let res = max_dd_threshold_position(&rets, 500);
    assert_eq!(res, Err(DrawdownError::InvalidInput));
}

#[test]
fn empty_returns_give_unit_path() {
    assert_eq!(cum_returns(&vec![]), Some(vec![GROWTH_UNIT]));
}

#[test]
fn up_then_down_ten_percent() {
    let path = cum_returns(&vec![1_000, -1_000]).unwrap();
    assert_eq!(path, vec![1_000_000_000, 1_100_000_000, 990_000_000]);
}

#[test]
fn growth_rounds_toward_zero() {
    // 1.0 -> 1.0 -> 0.3333
    let path = cum_returns(&vec![0, -6_667]).unwrap();
    assert_eq!(path, vec![1_000_000_000, 1_000_000_000, 333_300_000]);
    let below = cum_returns(&vec![-30_000]).unwrap();
    assert_eq!(below, vec![1_000_000_000, -2_000_000_000]);
    // -10 * 1.3333 = -13.333, rounded toward zero to -13
    let odd = cum_returns(&vec![-10_001, -9_999, 3_333]).unwrap();
    assert_eq!(odd, vec![1_000_000_000, -100_000, -10, -13]);
    // 0.001 of a unit, rounded toward zero to 0
    let tiny = cum_returns(&vec![-9_999, -9_999, -9_999]).unwrap();
    assert_eq!(tiny, vec![1_000_000_000, 100_000, 10, 0]);
}

#[test]
fn growth_beyond_i64_is_refused() {
    let rets: Vec<i64> = vec![i64::MAX];
    assert_eq!(cum_returns(&rets), None);
    assert_eq!(max_dd_threshold_position(&rets, -500), Err(DrawdownError::InvalidInput));
}

#[test]
fn rising_path_has_no_episode() {
    let path = units(&[1000, 1000, 1010, 1200, 1200, 1500]);
    assert!(scan_drawdowns(&path, 0).is_empty());
    assert!(scan_drawdowns(&path, -500).is_empty());
    let rets: Vec<i64> = vec![0, 50, 10, 0, 700];
    assert_eq!(max_dd_threshold_position(&rets, 0), Ok(vec![]));
}

#[test]
fn scenario_two_recovered_episodes() {
    let path = units(&[1000, 900, 950, 1050, 800, 850, 1100]);
    let eps = scan_drawdowns(&path, -500);
    assert_eq!(
        eps,
        vec![
            DrawdownEpisode { start: 0, end: 3, trough: 900_000_000, peak: 1_000_000_000 },
            DrawdownEpisode { start: 4, end: 6, trough: 800_000_000, peak: 1_050_000_000 },
        ]
    );
    let first = eps[0].trough as f64 / eps[0].peak as f64 - 1.0;
    let second = eps[1].trough as f64 / eps[1].peak as f64 - 1.0;
    assert!((first - -0.10).abs() < 1e-12);
    assert!((second - -0.2381).abs() < 1e-4);
}

#[test]
fn magnitude_equal_to_threshold_is_not_reported() {
    let path = units(&[1000, 950, 1010]);
    assert!(scan_drawdowns(&path, -500).is_empty());
    let eps = scan_drawdowns(&path, -499);
    assert_eq!(eps, vec![DrawdownEpisode { start: 0, end: 2, trough: 950_000_000, peak: 1_000_000_000 }]);
}

#[test]
fn shallow_episode_is_skipped() {
    let path = units(&[1000, 980, 1020, 700, 1030]);
    let eps = scan_drawdowns(&path, -500);
    assert_eq!(eps, vec![DrawdownEpisode { start: 3, end: 4, trough: 700_000_000, peak: 1_020_000_000 }]);
}

#[test]
fn open_drawdown_at_end_is_not_reported() {
    let path = units(&[1000, 1100, 500, 600]);
    assert!(scan_drawdowns(&path, -500).is_empty());
}

#[test]
fn new_high_without_fall_moves_start() {
    let path = units(&[1000, 1200, 1300, 1100, 1400]);
    let eps = scan_drawdowns(&path, 0);
    assert_eq!(eps, vec![DrawdownEpisode { start: 3, end: 4, trough: 1_100_000_000, peak: 1_300_000_000 }]);
}

#[test]
fn drawdowns_from_returns() {
    // 1.0 -> 0.9 -> 0.99 -> 1.089
    let rets: Vec<i64> = vec![-1_000, 1_000, 1_000];
    let eps = max_dd_threshold_position(&rets, -500).unwrap();
    assert_eq!(eps, vec![DrawdownEpisode { start: 0, end: 3, trough: 900_000_000, peak: 1_000_000_000 }]);
}

#[test]
fn empty_path_has_no_episode() {
    assert!(scan_drawdowns(&vec![], -500).is_empty());
    assert_eq!(max_dd_threshold_position(&vec![], -500), Ok(vec![]));
}
