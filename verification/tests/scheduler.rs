use tagtime::schedule::{MAX_TICK, TICK_MS};
use tagtime::scheduler::{
    ScheduleError, State, DEFAULT_GAP, DEFAULT_MODULUS, DEFAULT_MULTIPLIER, DEFAULT_SEED, LCG,
};

const INIT_TIME: i64 = 1533812000000;
const IA: u64 = 3125;
const IM: u64 = 34359738337;
const GAP: u64 = 45 * 60;
const SEED: u64 = 20180809;

const IDEAL: [i64; 4] = [15338123839, 15338127440, 15338175871, 15338193911];
const IDEAL_RNG: [i64; 4] = [28705289788, 25113527930, 2132419542, 32381569709];

fn create_lcg() -> LCG {
    LCG {
        multiplier: IA,
        modulus: IM,
        state: SEED,
    }
}

fn create_state() -> State {
    State::new(INIT_TIME, GAP, create_lcg())
}

/// `multiplier^n * state mod modulus`, one multiplication at a time.
fn expected_state(lcg: &LCG, n: u64) -> u64 {
    let mut state = lcg.state as u128;
    for _ in 0..n {
        state = state * lcg.multiplier as u128 % lcg.modulus as u128;
    }
    state as u64
}

#[test]
fn test_correct_times() {
    let s = create_state();

    assert_eq!(
        s.take(4).into_iter().map(|x| x / 100).collect::<Vec<_>>(),
        IDEAL.to_vec()
    );
}

#[test]
fn test_correct_times_ff() {
    let s = create_state();

    for i in 0..4 {
        let mut s = s.clone();
        assert_eq!(s.nth(i).unwrap() / 100, IDEAL[i]);
    }
}

#[test]
fn test_correct_rng() {
    let mut lcg = create_lcg();

    for i in 0..4 {
        lcg.next();
        assert_eq!(lcg.state as i64, IDEAL_RNG[i]);
    }
}

#[test]
fn test_correct_rng_pow() {
    let lcg = create_lcg();

    for i in 0..4 {
        let mut lcg = lcg.clone();
        lcg.pow(i as u64 + 1);
        assert_eq!(lcg.state as i64, IDEAL_RNG[i]);
    }
}

#[test]
fn default_generator_has_the_shared_constants() {
    let lcg = LCG::default();
    assert_eq!(lcg.multiplier, 3125);
    assert_eq!(lcg.modulus, 34359738337);
    assert_eq!(lcg.state, 20180809);
    assert_eq!(DEFAULT_MULTIPLIER, 3125);
    assert_eq!(DEFAULT_MODULUS, 34359738337);
    assert_eq!(DEFAULT_SEED, 20180809);
    assert_eq!(DEFAULT_GAP, 2700);
    assert_eq!(TICK_MS, 100);
    assert_eq!(MAX_TICK, i64::MAX / 100);
}

#[test]
fn pow_keeps_the_constants() {
    let mut lcg = create_lcg();
    lcg.pow(12345);
    assert_eq!(lcg.multiplier, IA);
    assert_eq!(lcg.modulus, IM);
    assert!(lcg.state < IM);
}

#[test]
fn pow_by_zero_leaves_a_reduced_state_alone() {
    let mut lcg = create_lcg();
    lcg.pow(0);
    assert_eq!(lcg, create_lcg());
}

#[test]
fn pow_by_zero_reduces_an_unreduced_state() {
    let mut lcg = LCG {
        multiplier: 5,
        modulus: 7,
        state: 23,
    };
    lcg.pow(0);
    assert_eq!(lcg.state, 2);
}

#[test]
fn pow_small_exact_values() {
    // 3^4 * 5 mod 11 = 405 mod 11 = 9
    let mut lcg = LCG {
        multiplier: 3,
        modulus: 11,
        state: 5,
    };
    lcg.pow(4);
    assert_eq!(lcg.state, 9);
    // one more step: 3 * 9 mod 11 = 5
    lcg.next();
    assert_eq!(lcg.state, 5);
}

#[test]
fn pow_with_modulus_one_is_zero() {
    let mut lcg = LCG {
        multiplier: 3125,
        modulus: 1,
        state: 0,
    };
    lcg.pow(0);
    assert_eq!(lcg.state, 0);
    lcg.pow(17);
    assert_eq!(lcg.state, 0);
}

#[test]
fn pow_does_not_overflow_on_wide_values() {
    let start = LCG {
        multiplier: u64::MAX - 2,
        modulus: u64::MAX,
        state: u64::MAX - 1,
    };
    let mut lcg = start;
    lcg.pow(3);
    assert_eq!(lcg.state, expected_state(&start, 3));
    // (-2)^3 * (-1) = 8 modulo 2^64 - 1
    assert_eq!(lcg.state, 8);
    let mut lcg = start;
    lcg.pow(u64::MAX);
    assert!(lcg.state < u64::MAX);
}

#[test]
fn jump_equals_single_steps() {
    let start = create_lcg();
    let mut stepped = start;
    for n in 0..300u64 {
        let mut jumped = start;
        jumped.pow(n);
        assert_eq!(jumped, stepped);
        assert_eq!(jumped.state, expected_state(&start, n));
        stepped.next();
    }
}

#[test]
fn jump_splits_anywhere() {
    let start = create_lcg();
    for (p, q) in [(0u64, 0u64), (0, 5), (5, 0), (1, 1), (17, 4000), (123456789, 987654321)] {
        let mut whole = start;
        whole.pow(p + q);
        let mut parts = start;
        parts.pow(p);
        parts.pow(q);
        assert_eq!(whole, parts);
    }
}

#[test]
fn new_keeps_its_arguments() {
    let s = create_state();
    assert_eq!(s.time(), INIT_TIME);
    assert_eq!(s.gap(), GAP);
    assert_eq!(*s.lcg(), create_lcg());
}

#[test]
fn from_millis_uses_the_defaults() {
    let s = State::from_millis(INIT_TIME);
    assert_eq!(s.time(), INIT_TIME);
    assert_eq!(s.gap(), 2700);
    assert_eq!(*s.lcg(), LCG::default());
    assert_eq!(
        s.take(4).into_iter().map(|x| x / 100).collect::<Vec<_>>(),
        IDEAL.to_vec()
    );
}

#[test]
fn threshold_is_modulus_over_ticks_per_gap() {
    // 34359738337 / 27000 = 1272582.9...
    assert_eq!(create_state().threshold(), 1272582);
    assert_eq!(State::new(0, 1, create_lcg()).threshold(), 3435973833);
    assert_eq!(State::new(0, 3435973833, create_lcg()).threshold(), 1);
    assert_eq!(State::new(0, 3435973834, create_lcg()).threshold(), 0);
    assert_eq!(State::new(0, u64::MAX, create_lcg()).threshold(), 0);
}

#[test]
fn next_time_moves_to_the_first_ping_and_its_generator_state() {
    let mut s = create_state();
    assert_eq!(s.next_time(INIT_TIME), Ok(()));
    assert_eq!(s.time(), IDEAL[0] * 100);
    assert_eq!(s.gap(), GAP);
    let mut lcg = create_lcg();
    lcg.pow((IDEAL[0] - INIT_TIME / 100) as u64);
    assert_eq!(*s.lcg(), lcg);
    assert!(s.lcg().state < s.threshold());
}

#[test]
fn next_time_before_the_stored_time_changes_nothing() {
    let mut s = create_state();
    assert_eq!(s.next_time(INIT_TIME - 1), Ok(()));
    assert_eq!(s.time(), INIT_TIME);
    assert_eq!(*s.lcg(), create_lcg());

    assert_eq!(s.next_time(INIT_TIME), Ok(()));
    let first = s;
    assert_eq!(s.next_time(INIT_TIME), Ok(()));
    assert_eq!(s.time(), first.time());
    assert_eq!(*s.lcg(), *first.lcg());
    assert_eq!(s.next_time(i64::MIN), Ok(()));
    assert_eq!(s.time(), first.time());
}

#[test]
fn next_time_takes_no_ping_in_the_tick_of_the_request() {
    // the request falls in the tick of the first ping: the second is due
    let mut s = create_state();
    assert_eq!(s.next_time(IDEAL[0] * 100), Ok(()));
    assert_eq!(s.time(), IDEAL[1] * 100);
    let mut s = create_state();
    assert_eq!(s.next_time(IDEAL[0] * 100 + 99), Ok(()));
    assert_eq!(s.time(), IDEAL[1] * 100);
    // one millisecond earlier the request falls in the tick before
    let mut s = create_state();
    assert_eq!(s.next_time(IDEAL[0] * 100 - 1), Ok(()));
    assert_eq!(s.time(), IDEAL[0] * 100);
}

#[test]
fn next_time_with_a_zero_threshold_is_exhausted() {
    let mut s = State::new(INIT_TIME, 3435973834, create_lcg());
    assert_eq!(s.next_time(INIT_TIME), Err(ScheduleError::Exhausted));
    assert_eq!(s.time(), INIT_TIME);
    assert_eq!(*s.lcg(), create_lcg());
    assert_eq!(s.next_time(INIT_TIME + 5000), Err(ScheduleError::Exhausted));
    assert_eq!(s.time(), INIT_TIME);
    assert_eq!(*s.lcg(), create_lcg());
    assert_eq!(s.next(), None);
    assert_eq!(s.nth(3), None);
    assert_eq!(s.take(3), Vec::<i64>::new());
}

#[test]
fn next_time_at_the_end_of_time_is_exhausted() {
    let mut s = State::new(i64::MAX, 1, create_lcg());
    assert_eq!(s.next_time(i64::MAX), Err(ScheduleError::Exhausted));
    assert_eq!(s.time(), i64::MAX);
    assert_eq!(*s.lcg(), create_lcg());
    let mut s = State::new(0, 1, create_lcg());
    assert_eq!(s.next_time(MAX_TICK * 100), Err(ScheduleError::Exhausted));
    assert_eq!(s.time(), 0);
    assert_eq!(*s.lcg(), create_lcg());
}

#[test]
fn last_tick_can_be_a_ping() {
    // a generator that rests at zero accepts every tick
    let lcg = LCG {
        multiplier: 3125,
        modulus: 34359738337,
        state: 0,
    };
    let mut s = State::new((MAX_TICK - 1) * 100 + 7, 2700, lcg);
    assert_eq!(s.next(), Some(MAX_TICK * 100));
    assert_eq!(s.time(), MAX_TICK * 100);
    assert_eq!(s.next(), None);
    assert_eq!(s.time(), MAX_TICK * 100);
}

#[test]
fn ticks_round_toward_zero() {
    // a generator that rests at zero accepts every tick
    let lcg = LCG {
        multiplier: 3125,
        modulus: 34359738337,
        state: 0,
    };
    // -150 ms lies in tick -1, the next tick is 0
    let mut s = State::new(-150, 2700, lcg);
    assert_eq!(s.next(), Some(0));
    // -50 ms lies in tick 0, the next tick is 1
    let mut s = State::new(-50, 2700, lcg);
    assert_eq!(s.next(), Some(100));
    // 50 ms lies in tick 0 as well
    let mut s = State::new(50, 2700, lcg);
    assert_eq!(s.next(), Some(100));
    let mut s = State::new(-1000, 2700, lcg);
    assert_eq!(s.next_time(-250), Ok(()));
    assert_eq!(s.time(), -100);
}

#[test]
fn next_returns_the_new_time() {
    let mut s = create_state();
    for i in 0..4 {
        let ping = s.next();
        assert_eq!(ping, Some(IDEAL[i] * 100));
        assert_eq!(s.time(), IDEAL[i] * 100);
    }
}

#[test]
fn nth_rests_at_the_returned_ping() {
    let mut s = create_state();
    assert_eq!(s.nth(1), Some(IDEAL[1] * 100));
    assert_eq!(s.time(), IDEAL[1] * 100);
    assert_eq!(s.nth(1), Some(IDEAL[3] * 100));
    assert_eq!(s.time(), IDEAL[3] * 100);
}

#[test]
fn take_nothing_is_empty() {
    assert_eq!(create_state().take(0), Vec::<i64>::new());
}

#[test]
fn take_stops_where_pings_end() {
    let lcg = LCG {
        multiplier: 3125,
        modulus: 34359738337,
        state: 0,
    };
    let s = State::new((MAX_TICK - 3) * 100, 2700, lcg);
    assert_eq!(
        s.take(10),
        vec![(MAX_TICK - 2) * 100, (MAX_TICK - 1) * 100, MAX_TICK * 100]
    );
    let mut s = State::new((MAX_TICK - 3) * 100, 2700, lcg);
    assert_eq!(s.nth(2), Some(MAX_TICK * 100));
    let mut s = State::new((MAX_TICK - 3) * 100, 2700, lcg);
    assert_eq!(s.nth(3), None);
    assert_eq!(s.time(), MAX_TICK * 100);
}

#[test]
fn same_start_gives_the_same_pings() {
    let a = create_state();
    let b = State::new(INIT_TIME, GAP, create_lcg());
    assert_eq!(a.take(20), b.take(20));
    assert_eq!(a.take(20), a.take(20));
}

#[test]
fn pings_strictly_increase() {
    let s = State::new(INIT_TIME, 60, create_lcg());
    let times = s.take(300);
    assert_eq!(times.len(), 300);
    assert!(times[0] > INIT_TIME);
    for pair in times.windows(2) {
        assert!(pair[0] < pair[1]);
    }
    for t in times {
        assert_eq!(t % 100, 0);
    }
}

#[test]
fn every_ping_is_below_the_threshold_and_no_tick_between_is() {
    let s = State::new(INIT_TIME, 30, create_lcg());
    let threshold = s.threshold();
    let times = s.take(40);
    let mut lcg = create_lcg();
    let mut tick = INIT_TIME / 100;
    for t in times {
        loop {
            tick += 1;
            lcg.next();
            if tick == t / 100 {
                assert!(lcg.state < threshold);
                break;
            }
            assert!(lcg.state >= threshold);
        }
    }
}

#[test]
fn shorter_gap_has_every_ping_of_the_longer() {
    let end = INIT_TIME + 4 * 3600 * 1000;
    for (a, b) in [(60u64, 61u64), (60, 300), (300, 2700), (45, 2700), (1, 60)] {
        let mut dense = Vec::new();
        let mut s = State::new(INIT_TIME, a, create_lcg());
        while let Some(t) = s.next() {
            if t > end {
                break;
            }
            dense.push(t);
        }
        let mut sparse = Vec::new();
        let mut s = State::new(INIT_TIME, b, create_lcg());
        while let Some(t) = s.next() {
            if t > end {
                break;
            }
            sparse.push(t);
        }
        assert!(sparse.len() <= dense.len());
        for t in &sparse {
            assert!(dense.binary_search(t).is_ok());
        }
    }
}

#[test]
fn default_gap_pings_appear_under_a_shorter_gap() {
    let s = State::new(INIT_TIME, 600, create_lcg());
    let mut found = 0;
    let mut s = s;
    while let Some(t) = s.next() {
        if t / 100 > IDEAL[3] {
            break;
        }
        if IDEAL.contains(&(t / 100)) {
            found += 1;
        }
    }
    assert_eq!(found, 4);
}

#[test]
fn nth_equals_repeated_next_and_take() {
    let start = State::new(INIT_TIME, 60, create_lcg());
    let times = start.take(300);
    let mut stepped = start;
    for n in 0..300 {
        assert_eq!(stepped.next(), Some(times[n]));
        if n % 37 == 0 || n == 299 {
            let mut direct = start.clone();
            assert_eq!(direct.nth(n), Some(times[n]));
            assert_eq!(direct.time(), stepped.time());
            assert_eq!(*direct.lcg(), *stepped.lcg());
        }
    }
}

#[test]
fn skipping_ahead_equals_walking_there() {
    let start = State::new(INIT_TIME, 60, create_lcg());
    let times = start.take(50);
    for k in [0usize, 1, 7, 48] {
        for cur in [times[k], times[k] + 99, times[k] + 100, times[k + 1] - 1] {
            let mut jumped = start;
            assert_eq!(jumped.next_time(cur), Ok(()));
            let mut walked = start;
            assert_eq!(walked.nth(k), Some(times[k]));
            assert_eq!(walked.next_time(cur), Ok(()));
            assert_eq!(jumped.time(), times[k + 1]);
            assert_eq!(walked.time(), times[k + 1]);
            assert_eq!(*jumped.lcg(), *walked.lcg());
        }
    }
    // a request before the first ping's tick is answered with the first ping
    for cur in [INIT_TIME, INIT_TIME + 1, times[0] - 1] {
        let mut s = start;
        assert_eq!(s.next_time(cur), Ok(()));
        assert_eq!(s.time(), times[0]);
    }
}

#[test]
fn long_idle_jump_matches_the_generator() {
    // a month later: one jump of 25,920,000 ticks, then a scan
    let cur = INIT_TIME + 30 * 24 * 3600 * 1000;
    let mut s = create_state();
    assert_eq!(s.next_time(cur), Ok(()));
    assert!(s.time() > cur);
    let mut lcg = create_lcg();
    lcg.pow(((s.time() - INIT_TIME) / 100) as u64);
    assert_eq!(*s.lcg(), lcg);
    assert!(lcg.state < s.threshold());
    // no tick between the request and the ping qualifies
    let mut scan = create_lcg();
    scan.pow(((cur - INIT_TIME) / 100) as u64);
    let mut tick = cur / 100;
    loop {
        tick += 1;
        scan.next();
        if scan.state < s.threshold() {
            break;
        }
    }
    assert_eq!(tick * 100, s.time());
}
