use divine::common::{corruption_symbol, rand_under, Oracle};
use divine::random::RngState;
use divine::sim::{sim_fragment_script, SimOracle};

/// The simulator consumes exactly the documented draws, in the documented
/// order: corruption count, two per corruption write, fragment selector,
/// placement. A mirror generator replaying that order reproduces the sample
/// and stays aligned with the simulator's generator afterwards.
#[test]
fn sim_follows_the_documented_draw_order() {
    for seed in [1u64, 77, 4096, 0xdead_beef] {
        let mut rng = RngState::from_state(0x0123_4567_89ab_cdef, seed);
        let mut mirror = RngState::from_state(0x0123_4567_89ab_cdef, seed);
        let base: Vec<u16> = (0..50u16).collect();
        let frags: Vec<Vec<u16>> = vec![vec![500, 501, 502], vec![800]];

        let out = sim_fragment_script(&mut rng, &base, 4, &frags);
        assert_eq!(out.len(), 50);

        let mut expected = base.clone();
        let num = rand_under(mirror.next_random(), 4);
        for _ in 0..num {
            let idx = rand_under(mirror.next_random(), 50);
            let sym = corruption_symbol(rand_under(mirror.next_random(), 10));
            expected[idx] = sym;
        }
        let f = &frags[rand_under(mirror.next_random(), 2)];
        let start = rand_under(mirror.next_random(), 50 - f.len());
        expected[start..start + f.len()].copy_from_slice(f);
        assert_eq!(out, expected);

        // no draw was consumed beyond the documented ones
        for _ in 0..200 {
            assert_eq!(rng.next_random(), mirror.next_random());
        }
    }
}

/// With a fragment as long as the base, placement can only be 0 and the
/// sample is the fragment itself wherever no corruption survived on top.
#[test]
fn sim_places_full_length_fragment_at_start() {
    let mut rng = RngState::from_state(5, 6);
    let base: Vec<u16> = vec![1, 2, 3];
    let frags: Vec<Vec<u16>> = vec![vec![9, 8, 7]];
    let out = sim_fragment_script(&mut rng, &base, 1, &frags);
    // a corruption bound of 1 floors every count draw to zero corruption
    assert_eq!(out, vec![9, 8, 7]);
}

/// A malformed simulated oracle answers with empty samples instead of
/// drawing from the stream.
#[test]
fn malformed_sim_returns_empty_samples() {
    let mut no_base = SimOracle::new(1, 2, Vec::new(), 4, vec![vec![7]]);
    assert!(no_base.target().is_empty());

    let mut no_fragments = SimOracle::new(1, 2, vec![1, 2, 3], 4, Vec::new());
    assert!(no_fragments.target().is_empty());

    let mut oversized = SimOracle::new(1, 2, vec![1, 2], 4, vec![vec![5, 6, 7]]);
    assert!(oversized.target().is_empty());
}
