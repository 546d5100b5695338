use percolation::random::{SiteRng, INCREMENT, MULTIPLIER};
use percolation::stats::{run_trial, PercolationStats};

#[test]
fn generator_steps_linearly() {
    let mut rng = SiteRng::new(0);
    assert_eq!(rng.next_u64(), INCREMENT);
    let expected = INCREMENT.wrapping_mul(MULTIPLIER).wrapping_add(INCREMENT);
    assert_eq!(rng.next_u64(), expected);
}

#[test]
fn positions_stay_on_the_grid() {
    let mut rng = SiteRng::new(7);
    for _ in 0..1000 {
        let k = rng.next_position(30);
        assert!(1 <= k && k <= 30);
    }
    let mut one = SiteRng::new(99);
    assert_eq!(one.next_position(1), 1);
}

#[test]
fn position_uses_high_bits() {
    let mut rng = SiteRng::new(0);
    let k = rng.next_position(1000);
    assert_eq!(k, ((INCREMENT >> 33) % 1000) as usize + 1);
}

#[test]
fn trial_ends_percolating() {
    let mut rng = SiteRng::new(3);
    let c = run_trial(10, &mut rng, 1_000_000).unwrap();
    assert!(c >= 10 && c <= 100);
}

#[test]
fn single_site_trial_opens_one_site_with_one_draw() {
    let mut rng = SiteRng::new(8);
    assert_eq!(run_trial(1, &mut rng, 5), Some(1));
    let mut fresh = SiteRng::new(8);
    fresh.next_u64();
    fresh.next_u64();
    assert_eq!(rng.next_u64(), fresh.next_u64());
}

#[test]
fn trial_without_draws_does_not_percolate() {
    let mut rng = SiteRng::new(3);
    assert_eq!(run_trial(4, &mut rng, 0), None);
    assert_eq!(rng.next_u64(), SiteRng::new(3).next_u64());
}

#[test]
fn trials_follow_one_another_on_the_generator() {
    let mut rng = SiteRng::new(77);
    let first = run_trial(6, &mut rng, 1_000_000).unwrap();
    let second = run_trial(6, &mut rng, 1_000_000).unwrap();
    let mut stats = PercolationStats::new(6, 2);
    assert!(stats.run(&mut SiteRng::new(77), 1_000_000));
    assert_eq!(stats.opened_counts(), vec![first, second]);
}

#[test]
fn run_records_one_count_per_trial() {
    let mut rng = SiteRng::new(11);
    let mut stats = PercolationStats::new(5, 20);
    assert!(stats.run(&mut rng, 1_000_000));
    let counts = stats.opened_counts();
    assert_eq!(counts.len(), 20);
    assert_eq!(stats.size(), 5);
    assert_eq!(stats.number_of_trials(), 20);
    for c in counts {
        assert!(c >= 5 && c <= 25);
    }
}

#[test]
fn single_site_trials_open_one_site() {
    let mut rng = SiteRng::new(5);
    let mut stats = PercolationStats::new(1, 4);
    assert!(stats.run(&mut rng, 10));
    assert_eq!(stats.opened_counts(), vec![1, 1, 1, 1]);
}

#[test]
fn run_stops_when_draws_run_out() {
    let mut rng = SiteRng::new(5);
    let mut stats = PercolationStats::new(3, 4);
    assert!(!stats.run(&mut rng, 0));
    assert!(stats.opened_counts().is_empty());
}

#[test]
fn same_seed_same_counts() {
    let mut a = PercolationStats::new(6, 10);
    let mut b = PercolationStats::new(6, 10);
    assert!(a.run(&mut SiteRng::new(42), 1_000_000));
    assert!(b.run(&mut SiteRng::new(42), 1_000_000));
    assert_eq!(a.opened_counts(), b.opened_counts());
}

#[test]
fn threshold_mean_is_near_known_constant() {
    let n: usize = 30;
    let t: usize = 1000;
    let mut stats = PercolationStats::new(n, t);
    assert!(stats.run(&mut SiteRng::new(2024), 10_000_000));
    let xs: Vec<f64> = stats
        .opened_counts()
        .iter()
        .map(|&c| c as f64 / (n * n) as f64)
        .collect();
    let mean = xs.iter().sum::<f64>() / t as f64;
    let var = xs.iter().map(|x| (x - mean) * (x - mean)).sum::<f64>() / (t - 1) as f64;
    let half = 1.96 * var.sqrt() / (t as f64).sqrt();
    assert!(mean > 0.55 && mean < 0.63, "mean {}", mean);
    assert!(mean - half < mean && mean < mean + half);
}
