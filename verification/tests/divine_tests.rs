use divine::common::DivineError;
use divine::divine::{
    bound_of_count, candidate_wins, divine, divine_corruption_bound_and_base_len,
    divine_fragment_count, is_map_complete, narrow,
};
use divine::random::RngState;
use divine::sim::SimOracle;

fn scenario_base() -> Vec<u16> {
    (0..100u16).collect()
}

fn scenario_fragments() -> Vec<Vec<u16>> {
    vec![
        (100..108u16).collect(),
        (500..507u16).collect(),
        (500..505u16).collect(),
        (500..507u16).collect(),
        (102..108u16).collect(),
        vec![400],
        vec![887, 400],
    ]
}

fn scenario_oracle(i: u64, corruption_bound: usize) -> SimOracle {
    SimOracle::new(
        0x0123_4567_89ab_cdef,
        1337 * i,
        scenario_base(),
        corruption_bound,
        scenario_fragments(),
    )
}

/// The full round trip: for a hundred seeds, divining against the simulated
/// oracle returns its fragment array exactly, element for element.
#[test]
fn divine_recovers_fragments_over_many_seeds() {
    for i in 0..100u64 {
        let mut env = scenario_oracle(i, 4);
        assert_eq!(divine(&mut env), Ok(scenario_fragments()), "seed index {}", i);
    }
}

/// A corruption bound of 1 is reported as insufficient.
#[test]
fn corruption_bound_one_is_insufficient() {
    let mut env = scenario_oracle(0, 1);
    assert_eq!(divine(&mut env), Err(DivineError::InsufficientCorruption));
}

/// Phase 1 recovers the corruption bound and the base length exactly.
#[test]
fn phase_one_recovers_parameters() {
    for (i, bound) in [(1u64, 2usize), (2, 3), (3, 4), (4, 7), (5, 10)] {
        let mut env = scenario_oracle(i, bound);
        let mut predictor = RngState::lock_random(&mut env).expect("lock should succeed");
        let params = divine_corruption_bound_and_base_len(&mut predictor, &mut env);
        assert_eq!(params, Ok((bound, 100)));
    }
}

/// Phase 2 recovers the fragment count for every count in `[1, 15]`.
#[test]
fn phase_two_recovers_every_count() {
    for n in 1..=15usize {
        // n distinct fragments, so that no two share their bytes
        let fragments: Vec<Vec<u16>> = (0..n as u16).map(|j| vec![1000 + j, 2000 + j]).collect();
        let mut env = SimOracle::new(0x0123_4567_89ab_cdef, 4242, scenario_base(), 4, fragments);
        let mut predictor = RngState::lock_random(&mut env).expect("lock should succeed");
        let (bound, base_len) =
            divine_corruption_bound_and_base_len(&mut predictor, &mut env).expect("phase 1");
        let count = divine_fragment_count(&mut predictor, &mut env, bound, base_len);
        assert_eq!(count, Ok(n), "fragment count {}", n);
    }
}

/// With a fixed seed the whole protocol is deterministic: two runs return
/// identical output.
#[test]
fn divine_is_deterministic() {
    let mut first = scenario_oracle(17, 4);
    let mut second = scenario_oracle(17, 4);
    let a = divine(&mut first);
    let b = divine(&mut second);
    assert_eq!(a, b);
    assert_eq!(a, Ok(scenario_fragments()));
}

/// Repeated fragments are recovered in their positions: the scenario array
/// holds one fragment twice and the round trip keeps both copies in order.
#[test]
fn divine_keeps_duplicate_fragments_in_order() {
    let mut env = scenario_oracle(3, 4);
    let out = divine(&mut env).expect("divination should succeed");
    assert_eq!(out[1], out[3]);
    assert_eq!(out[1], (500..507u16).collect::<Vec<u16>>());
    assert_eq!(out[2], (500..505u16).collect::<Vec<u16>>());
}

/// A one-element fragment and a two-element fragment are measured exactly.
#[test]
fn divine_measures_short_fragments() {
    let mut env = scenario_oracle(9, 4);
    let out = divine(&mut env).expect("divination should succeed");
    assert_eq!(out[5], vec![400]);
    assert_eq!(out[6], vec![887, 400]);
}

/// Completeness of a consistency map: every index below the candidate must
/// hold a recorded sample.
#[test]
fn is_map_complete_checks_every_index() {
    let full: Vec<Option<Vec<u16>>> = vec![Some(vec![1]), Some(vec![2]), Some(vec![3])];
    let holed: Vec<Option<Vec<u16>>> = vec![Some(vec![1]), None, Some(vec![3])];
    assert!(is_map_complete(&full, 3));
    assert!(is_map_complete(&full, 2));
    assert!(is_map_complete(&holed, 1));
    assert!(!is_map_complete(&holed, 2));
    assert!(!is_map_complete(&holed, 3));
    // a candidate larger than the map can never be complete
    assert!(!is_map_complete(&full, 4));
    let empty: Vec<Option<Vec<u16>>> = Vec::new();
    assert!(is_map_complete(&empty, 0));
}

/// Sixteen fragments lie outside the candidate range `[1, 15]`: the bounded
/// search of phase 2 must fail rather than return a wrong count.
#[test]
fn sixteen_fragments_fail_the_bounded_search() {
    let fragments: Vec<Vec<u16>> = (0..16u16).map(|j| vec![1000 + j, 2000 + j]).collect();
    let mut env = SimOracle::new(0x0123_4567_89ab_cdef, 99, scenario_base(), 4, fragments);
    assert_eq!(divine(&mut env), Err(DivineError::Desync));
}

/// A stream with no xorshift structure, shared by no oracle.
struct Shapeless {
    counter: u64,
}

impl divine::common::Oracle for Shapeless {
    fn random(&mut self) -> u64 {
        self.counter = self.counter.wrapping_mul(6_364_136_223_846_793_005).wrapping_add(1);
        self.counter >> 12
    }

    fn target(&mut self) -> Vec<u16> {
        Vec::new()
    }
}

/// A stream the predictor cannot lock onto is reported as a desync.
#[test]
fn unlockable_stream_is_a_desync() {
    let mut env = Shapeless { counter: 7 };
    assert_eq!(divine(&mut env), Err(DivineError::Desync));
}

/// The measured corruption bound is half the draw count, and a count that
/// measures to at most 1 is insufficient.
#[test]
fn bound_of_count_thresholds() {
    for low in [0usize, 1, 2, 3] {
        assert_eq!(bound_of_count(low), Err(DivineError::InsufficientCorruption));
    }
    assert_eq!(bound_of_count(4), Ok(2));
    assert_eq!(bound_of_count(5), Ok(2));
    assert_eq!(bound_of_count(8), Ok(4));
    assert_eq!(bound_of_count(100), Ok(50));
}

/// One experiment narrows the interval to the correct side of the placement.
#[test]
fn narrow_picks_the_correct_side() {
    assert_eq!(narrow(0, 100, 40, true), (0, 40));
    assert_eq!(narrow(0, 100, 40, false), (41, 100));
    assert_eq!(narrow(7, 9, 8, true), (7, 8));
    assert_eq!(narrow(7, 9, 8, false), (9, 9));
}

/// The winner rule: a candidate wins exactly when it is alive and every
/// surviving candidate is one of its multiples with a complete map.
#[test]
fn candidate_wins_follows_the_survivor_rule() {
    let full =
        |k: usize| -> Vec<Option<Vec<u16>>> { (0..k).map(|i| Some(vec![i as u16])).collect() };
    let holed = |k: usize| -> Vec<Option<Vec<u16>>> {
        (0..k).map(|i| if i == 0 { None } else { Some(vec![i as u16]) }).collect()
    };

    // only candidate 2 alive, with a complete map: it wins; 1 and 3 do not
    let mut alive = vec![false; 15];
    alive[1] = true;
    let maps: Vec<Vec<Option<Vec<u16>>>> = (1..=15).map(full).collect();
    assert!(candidate_wins(&alive, &maps, 2));
    assert!(!candidate_wins(&alive, &maps, 1));
    assert!(!candidate_wins(&alive, &maps, 3));

    // a surviving non-multiple blocks the win
    let mut alive2 = vec![false; 15];
    alive2[0] = true;
    alive2[1] = true;
    alive2[2] = true;
    assert!(!candidate_wins(&alive2, &maps, 2));
    // but 1 divides every survivor, so 1 wins while they are complete
    assert!(candidate_wins(&alive2, &maps, 1));
    // a dead candidate can never win
    let mut alive4 = vec![false; 15];
    alive4[1] = true;
    assert!(!candidate_wins(&alive4, &maps, 1));

    // an incomplete survivor blocks every win
    let mut maps3: Vec<Vec<Option<Vec<u16>>>> = (1..=15).map(full).collect();
    maps3[2] = holed(3);
    let mut alive3 = vec![false; 15];
    alive3[0] = true;
    alive3[2] = true;
    assert!(!candidate_wins(&alive3, &maps3, 1));
}
