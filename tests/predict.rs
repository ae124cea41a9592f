use period_predictor::date::{date, Date};
use period_predictor::predict::{DateDiffDistribution, PredictError};
use statrs::distribution::{Discrete, Poisson};

#[test]
fn mean_divides_by_log_length() {
    let log = [date(2020, 1, 1), date(2020, 1, 11), date(2020, 2, 10)];
    let m = DateDiffDistribution::new(&log, 3).unwrap();
    assert_eq!(m.total_gap_days(), 40);
    assert_eq!(m.log_len(), 3);
    assert_eq!(m.rate_floor(), 13);
    assert_eq!(m.most_recent(), date(2020, 2, 10));
    assert_eq!(m.cycles_to_predict(), 3);
}

#[test]
fn short_log_is_insufficient() {
    assert_eq!(
        DateDiffDistribution::new(&[], 2).err(),
        Some(PredictError::InsufficientData)
    );
    assert_eq!(
        DateDiffDistribution::new(&[date(2020, 1, 10)], 2).err(),
        Some(PredictError::InsufficientData)
    );
}

#[test]
fn decreasing_log_has_non_positive_rate() {
    let log = [date(2020, 1, 10), date(2020, 1, 5)];
    assert_eq!(
        DateDiffDistribution::new(&log, 2).err(),
        Some(PredictError::NonPositiveRate)
    );
    let same = [date(2020, 1, 10), date(2020, 1, 10)];
    assert_eq!(
        DateDiffDistribution::new(&same, 2).err(),
        Some(PredictError::NonPositiveRate)
    );
}

#[test]
fn offsets_are_shifted_by_whole_intervals() {
    let log = [date(2022, 1, 1), date(2022, 1, 29), date(2022, 2, 26)];
    let m = DateDiffDistribution::new(&log, 2).unwrap();
    assert_eq!(m.total_gap_days(), 56);
    assert_eq!(m.rate_floor(), 18);
    let anchor = m.most_recent().days;
    assert_eq!(m.cycle_offsets(Date { days: anchor + 19 }), vec![19, 1]);
    assert_eq!(m.cycle_offsets(Date { days: anchor + 100 }), vec![100, 82]);
    assert_eq!(m.cycle_offsets(Date { days: anchor + 10 }), vec![10, 0]);
}

#[test]
fn offsets_clamp_on_and_before_anchor() {
    let log = [date(2022, 1, 1), date(2022, 1, 29), date(2022, 2, 26)];
    let m = DateDiffDistribution::new(&log, 4).unwrap();
    assert_eq!(m.cycle_offsets(m.most_recent()), vec![0, 0, 0, 0]);
    assert_eq!(m.cycle_offsets(date(2021, 6, 1)), vec![0, 0, 0, 0]);
    let lambda = m.total_gap_days() as f64 / m.log_len() as f64;
    let poisson = Poisson::new(lambda).unwrap();
    let density: f64 = m
        .cycle_offsets(m.most_recent())
        .iter()
        .map(|&d| poisson.pmf(d))
        .sum();
    assert!((density - 4.0 * poisson.pmf(0)).abs() < 1e-15);
}

#[test]
fn queries_are_deterministic() {
    let log = [date(2022, 1, 1), date(2022, 1, 29), date(2022, 2, 26)];
    let m = DateDiffDistribution::new(&log, 3).unwrap();
    let d = date(2022, 3, 20);
    assert_eq!(m.cycle_offsets(d), m.cycle_offsets(d));
}

#[test]
fn zero_cycles_give_no_offsets() {
    let log = [date(2022, 1, 1), date(2022, 1, 29)];
    let m = DateDiffDistribution::new(&log, 0).unwrap();
    assert_eq!(m.cycle_offsets(date(2022, 3, 1)), Vec::<u64>::new());
}

#[test]
fn density_peaks_near_projected_cycles() {
    let log = [date(2022, 1, 1), date(2022, 1, 29), date(2022, 2, 26)];
    let m = DateDiffDistribution::new(&log, 2).unwrap();
    let lambda = m.total_gap_days() as f64 / m.log_len() as f64;
    assert!((lambda - 56.0 / 3.0).abs() < 1e-12);
    let poisson = Poisson::new(lambda).unwrap();
    let anchor = m.most_recent().days;
    let density = |days: i32| -> f64 {
        m.cycle_offsets(Date { days })
            .iter()
            .map(|&d| poisson.pmf(d))
            .sum()
    };
    let near = density(anchor + 19);
    let far = density(anchor + 100);
    assert!(near > far);
    assert!(far >= 0.0);
}

#[test]
fn extreme_dates_do_not_overflow() {
    let log = [Date { days: i32::MIN }, Date { days: i32::MAX }];
    let m = DateDiffDistribution::new(&log, u32::MAX).unwrap();
    assert_eq!(m.total_gap_days(), u32::MAX as i64);
    assert_eq!(m.rate_floor(), (u32::MAX / 2) as u64);
}
