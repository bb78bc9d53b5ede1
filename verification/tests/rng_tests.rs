use divine::common::{contains_corruption, corruption_symbol, rand_under, Oracle};
use divine::random::{back, derive_unknown, lock_guess, next, RngState};

/// Stepping forward and then back returns the original word, for a spread of
/// state pairs.
#[test]
fn back_inverts_next_on_samples() {
    let pairs: [(u64, u64); 6] = [
        (0x0123_4567_89ab_cdef, 1337),
        (1, 2),
        (u64::MAX, u64::MAX),
        (0xdead_beef_dead_beef, 0x0bad_cafe_0bad_cafe),
        (42, 0),
        (0, 42),
    ];
    for (s0, s1) in pairs {
        let s2 = next(s0, s1);
        assert_eq!(back(s2, s1), s0);
        // and the pair round trip: (s1, s2) stepped back is (s0, s1)
        let prev = back(s2, s1);
        assert_eq!((prev, s1), (s0, s1));
    }
}

/// The hidden 12 bits of a state word are recovered exactly from the three
/// observable draws of consecutive states.
#[test]
fn derive_unknown_recovers_hidden_bits() {
    let pairs: [(u64, u64); 4] = [
        (0x0123_4567_89ab_cdef, 1337),
        (0xffff_ffff_ffff_ffff, 0x8000_0000_0000_0001),
        (0x1111_2222_3333_4444, 0x5555_6666_7777_8888),
        (3, 7),
    ];
    for (s0, s1) in pairs {
        let s2 = next(s0, s1);
        let s3 = next(s1, s2);
        let k0 = s0 >> 12;
        let k1 = s1 >> 12;
        let k2 = s2 >> 12;
        let k3 = s3 >> 12;
        assert_eq!((k0 << 12) | derive_unknown(k0, k1, k2), s0);
        assert_eq!((k1 << 12) | derive_unknown(k1, k2, k3), s1);
    }
}

/// `rand_under` is exactly `floor(k * n / 2^52)`.
#[test]
fn rand_under_exact_values() {
    assert_eq!(rand_under(0, 5), 0);
    assert_eq!(rand_under(1 << 51, 4), 2);
    assert_eq!(rand_under(1 << 51, 2), 1);
    assert_eq!(rand_under((1 << 52) - 1, 7), 6);
    assert_eq!(rand_under((1 << 52) - 1, 1), 0);
    assert_eq!(rand_under(1, 1 << 20), 0);
    // 2^47 / 2^52 is 1/32, and 100/32 floors to 3
    assert_eq!(rand_under(0x8000_0000_0000, 100), 3);
    // k/2^52 == 3/10 exactly is impossible; just below 0.3 * 10 floors to 2
    let k = (3u128 << 52) / 10;
    assert_eq!(rand_under(k as u64, 10), 2);
    assert_eq!(rand_under(k as u64 + 1, 10), 3);
}

/// The corruption alphabet, in order, and membership detection.
#[test]
fn corruption_alphabet() {
    let expected: [u16; 10] = [161, 162, 193, 164, 195, 166, 167, 168, 169, 170];
    for (i, &sym) in expected.iter().enumerate() {
        assert_eq!(corruption_symbol(i), sym);
        assert!(contains_corruption(&vec![0, sym, 7]));
    }
    assert!(!contains_corruption(&vec![]));
    assert!(!contains_corruption(&vec![160, 163, 165, 171, 192, 194, 0, 9999]));
}

/// An oracle that only shares its random stream: `target` is never used.
struct StreamOracle {
    rng: RngState,
}

impl Oracle for StreamOracle {
    fn random(&mut self) -> u64 {
        self.rng.next_random()
    }

    fn target(&mut self) -> Vec<u16> {
        Vec::new()
    }
}

/// Locking onto a stream leaves a predictor that mirrors it draw for draw,
/// for many seeds and indefinitely many draws.
#[test]
fn lock_random_mirrors_stream() {
    for i in 0..20u64 {
        let mut env = StreamOracle { rng: RngState::from_state(0x0123_4567_89ab_cdef, 1337 * i + 1) };
        let mut predictor = RngState::lock_random(&mut env).expect("lock should succeed");
        for _ in 0..1000 {
            assert_eq!(predictor.next_random(), env.rng.next_random());
        }
    }
}

/// A stream with no xorshift structure can never be locked onto.
struct ShapelessOracle {
    counter: u64,
}

impl Oracle for ShapelessOracle {
    fn random(&mut self) -> u64 {
        self.counter = self.counter.wrapping_add(0x9e37_79b9_7f4a_7c15);
        self.counter & 0x000f_ffff_ffff_ffff
    }

    fn target(&mut self) -> Vec<u16> {
        Vec::new()
    }
}

#[test]
fn lock_random_rejects_shapeless_stream() {
    let mut env = ShapelessOracle { counter: 12345 };
    assert!(RngState::lock_random(&mut env).is_err());
}

/// The lock decision accepts a true window of four consecutive states,
/// newest observed last, and returns exactly that state pair.
#[test]
fn lock_guess_accepts_true_windows() {
    let pairs: [(u64, u64); 3] = [
        (0x0123_4567_89ab_cdef, 1337),
        (0xfeed_f00d_dead_c0de, 0x1234_5678_9abc_def0),
        (1, u64::MAX),
    ];
    for (s0, s1) in pairs {
        let s2 = next(s0, s1);
        let s3 = next(s1, s2);
        assert_eq!(
            lock_guess(s3 >> 12, s2 >> 12, s1 >> 12, s0 >> 12),
            Some((s0, s1))
        );
    }
}

/// The lock decision rejects draws that no state window produces.
#[test]
fn lock_guess_rejects_unrelated_draws() {
    assert_eq!(lock_guess(1, 2, 3, 4), None);
    assert_eq!(lock_guess(0xabcdef, 0x123456, 0x654321, 0xfedcba), None);
}
