use bucket_sim::error::SimError;
use bucket_sim::pool::{Entity, RandomPool};
use bucket_sim::sim::{RoundReport, Sim, SimConfig};

fn config(entities: usize, key_max: u64, margin: u64) -> SimConfig {
    SimConfig {
        entity_count: entities,
        chunk_size: 3,
        rounds: 2,
        num_buckets: 4,
        key_max,
        margin,
    }
}

#[test]
fn pool_runs_out_after_its_size() {
    let n = 5;
    let mut pool = RandomPool::from_values(vec![1, 2, 3, 4, 5]);
    for i in 0..n {
        assert_eq!(pool.next(), Ok((i + 1) as u8));
    }
    assert_eq!(pool.next(), Err(SimError::Exhausted));
}

#[test]
fn random_pool_draws_requested_count() {
    let mut pool = RandomPool::new(7);
    assert_eq!(pool.len(), 7);
    for _ in 0..7 {
        assert!(pool.next().is_ok());
    }
    assert_eq!(pool.next(), Err(SimError::Exhausted));
    pool.reset();
    assert_eq!(pool.remaining_count(), 7);
}

#[test]
fn reset_rewinds_without_redrawing() {
    let mut pool = RandomPool::from_values(vec![9, 8]);
    assert_eq!(pool.next(), Ok(9));
    pool.reset();
    assert_eq!(pool.next(), Ok(9));
    assert_eq!(pool.next(), Ok(8));
}

#[test]
fn entity_takes_key_from_pool() {
    let mut pool = RandomPool::from_values(vec![42]);
    assert_eq!(Entity::new(&mut pool), Ok(Entity { time: 42 }));
    assert_eq!(Entity::new(&mut pool), Err(SimError::Exhausted));
}

#[test]
fn draws_needed_counts_entities_and_steps() {
    assert_eq!(config(4, 1000, 10).draws_needed(), Some(4 + 2 * 3));
    let mut big = config(4, 1000, 10);
    big.rounds = usize::MAX;
    assert_eq!(big.draws_needed(), None);
    assert_eq!(config(4, 1000, 10).time_cap(), 990);
}

#[test]
fn setup_rejects_bad_config() {
    let mut pool = RandomPool::from_values(vec![1, 2, 3]);
    assert!(matches!(Sim::setup(config(3, 100, 100), &mut pool), Err(SimError::InvalidConfig)));
    assert!(matches!(Sim::setup(config(0, 100, 1), &mut pool), Err(SimError::InvalidConfig)));
    let mut no_buckets = config(3, 100, 1);
    no_buckets.num_buckets = 0;
    assert!(matches!(Sim::setup(no_buckets, &mut pool), Err(SimError::InvalidConfig)));
}

#[test]
fn setup_needs_enough_values() {
    let mut pool = RandomPool::from_values(vec![1, 2]);
    assert!(matches!(Sim::setup(config(3, 100, 1), &mut pool), Err(SimError::Exhausted)));
}

#[test]
fn setup_rejects_key_over_width() {
    let mut pool = RandomPool::from_values(vec![1, 200, 3]);
    assert!(matches!(Sim::setup(config(3, 100, 1), &mut pool), Err(SimError::RangeExhausted)));
}

#[test]
fn step_advances_smallest_entity() {
    let mut pool = RandomPool::from_values(vec![5, 1, 9, 10]);
    let mut sim = Sim::setup(config(3, 1000, 10), &mut pool).unwrap();
    assert_eq!(sim.times_vec(), vec![5, 1, 9]);
    assert_eq!(sim.step(&mut pool), Ok(()));
    assert_eq!(sim.times_vec(), vec![5, 11, 9]);
    assert_eq!(sim.step(&mut pool), Err(SimError::Exhausted));
    assert_eq!(sim.times_vec(), vec![5, 11, 9]);
}

#[test]
fn step_refuses_key_past_width() {
    let mut pool = RandomPool::from_values(vec![5, 6, 255]);
    let mut sim = Sim::setup(config(2, 259, 1), &mut pool).unwrap();
    assert_eq!(sim.step(&mut pool), Err(SimError::RangeExhausted));
    assert_eq!(sim.times_vec(), vec![5, 6]);
}

#[test]
fn end_round_below_cap_leaves_keys() {
    let mut pool = RandomPool::from_values(vec![5, 1, 9]);
    let mut sim = Sim::setup(config(3, 100, 10), &mut pool).unwrap();
    assert_eq!(sim.end_round(), Ok(RoundReport { max: 9, rebased_by: None }));
    assert_eq!(sim.times_vec(), vec![5, 1, 9]);
}

#[test]
fn end_round_rebase_exactly_at_cap_succeeds() {
    // cap = 100 - 95 = 5; max 9 > cap; after rebase by 4, max is 5 == cap
    let mut pool = RandomPool::from_values(vec![5, 4, 9]);
    let mut sim = Sim::setup(config(3, 100, 95), &mut pool).unwrap();
    assert_eq!(sim.end_round(), Ok(RoundReport { max: 9, rebased_by: Some(4) }));
    assert_eq!(sim.times_vec(), vec![1, 0, 5]);
}

#[test]
fn end_round_rebase_over_cap_aborts() {
    // cap = 100 - 96 = 4; after rebase by 4, max is 5 > cap
    let mut pool = RandomPool::from_values(vec![5, 4, 9]);
    let mut sim = Sim::setup(config(3, 100, 96), &mut pool).unwrap();
    assert_eq!(sim.end_round(), Err(SimError::RangeExhausted));
}

#[test]
fn full_run_reports_each_round() {
    let mut values = vec![3, 7, 1, 8];
    values.extend(vec![2; 6]);
    let mut pool = RandomPool::from_values(values);
    let mut sim = Sim::setup(config(4, 1000, 10), &mut pool).unwrap();
    let reports = sim.run_rounds(&mut pool).unwrap();
    assert_eq!(reports.len(), 2);
    assert_eq!(pool.remaining_count(), 0);
    // every step adds 2 to the current smallest key
    let mut times = sim.times_vec();
    times.sort();
    assert_eq!(times, vec![7, 7, 8, 9]);
}

#[test]
fn run_stops_when_pool_is_short() {
    let mut pool = RandomPool::from_values(vec![3, 7, 1, 8, 2, 2]);
    let mut sim = Sim::setup(config(4, 1000, 10), &mut pool).unwrap();
    assert_eq!(sim.run_rounds(&mut pool), Err(SimError::Exhausted));
}

fn one_step_config(margin: u64) -> SimConfig {
    SimConfig {
        entity_count: 3,
        chunk_size: 1,
        rounds: 1,
        num_buckets: 2,
        key_max: 100,
        margin,
    }
}

#[test]
fn run_exactly_at_cap_succeeds() {
    // keys 5, 4, 9; one step moves 4 to 5; max 9, min 5, cap 4: 9 - 5 == 4
    let mut pool = RandomPool::from_values(vec![5, 4, 9, 1]);
    let mut sim = Sim::setup(one_step_config(96), &mut pool).unwrap();
    let reports = sim.run_rounds(&mut pool).unwrap();
    assert_eq!(reports, vec![RoundReport { max: 9, rebased_by: Some(5) }]);
    assert_eq!(sim.times_vec(), vec![0, 0, 4]);
}

#[test]
fn run_just_over_cap_aborts() {
    // same run with cap 3: after the rebase the largest key is 4 > 3
    let mut pool = RandomPool::from_values(vec![5, 4, 9, 1]);
    let mut sim = Sim::setup(one_step_config(97), &mut pool).unwrap();
    assert_eq!(sim.run_rounds(&mut pool), Err(SimError::RangeExhausted));
}
