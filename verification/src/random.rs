//! The xorshift128+-style generator kernel and the attacker-side predictor.
//!
//! The generator keeps a pair of 64-bit words and steps by
//! `(s0, s1) <- (s1, next(s0, s1))`. A draw exposes the top 52 bits of the
//! pair's first word. The observable stream is drained from a 64-entry cache
//! that is refilled in state order and consumed from its tail, so the draw
//! seen first within a block belongs to the newest of its 64 states.

use vstd::prelude::*;

use crate::common::DivineError;
use crate::common::Oracle;
use crate::common::DRAW_ONE;

verus! {

/// The forward step: the second word of the next state pair.
pub open spec fn spec_next(s0: u64, s1: u64) -> u64 {
    let x = s0 ^ (s0 << 23);
    let y = x ^ (x >> 17);
    s1 ^ (s1 >> 26) ^ y
}

/// The reverse step: from the pair `(s1, s2)` it recovers the word `s0`
/// that preceded `s1`, undoing the two shift-xor stages of the forward step.
pub open spec fn spec_back(s2: u64, s1: u64) -> u64 {
    let x0 = s2 ^ s1 ^ (s1 >> 26);
    let x1 = x0 ^ (x0 >> 17);
    let x2 = x1 ^ (x1 >> 34);
    let x3 = x2 ^ (x2 << 23);
    x3 ^ (x3 << 46)
}

/// The guess of the 12 bits that a draw hides, from three consecutive
/// observed draws `k0`, `k1`, `k2` (oldest state first).
pub open spec fn spec_derive_unknown(k0: u64, k1: u64, k2: u64) -> u64 {
    let x0 = k2 ^ (k1 >> 26) ^ k1;
    let x1 = x0 ^ (x0 >> 17);
    let x2 = x1 ^ (x1 >> 34);
    ((x2 ^ k0 ^ (k0 << 23)) >> 11) & 0x0fff
}

/// The 52 observable bits of a state word: the numerator of the draw's value.
pub open spec fn draw_of_state(s: u64) -> u64 {
    s >> 12
}

/// One step of the state pair.
pub open spec fn spec_step(s: (u64, u64)) -> (u64, u64) {
    (s.1, spec_next(s.0, s.1))
}

/// The state pair after `n` steps.
pub open spec fn nth_state(s: (u64, u64), n: nat) -> (u64, u64)
    decreases n,
{
    if n == 0 {
        s
    } else {
        spec_step(nth_state(s, (n - 1) as nat))
    }
}

/// The `m`-th draw of the observable stream of a generator whose cache is
/// empty and whose state pair is `s`. Each block of 64 draws is produced
/// from 64 consecutive states and handed out newest state first.
pub open spec fn fresh_draw(s: (u64, u64), m: nat) -> u64
    decreases m,
{
    if m < 64 {
        draw_of_state(nth_state(s, (63 - m) as nat).0)
    } else {
        fresh_draw(nth_state(s, 64), (m - 64) as nat)
    }
}

/// A draw is confined to its 52 observable bits.
pub proof fn lemma_draw_bound(s: u64)
    ensures
        draw_of_state(s) < DRAW_ONE,
{
    assert(s >> 12 < 0x0010_0000_0000_0000u64) by (bit_vector);
}

/// Every draw of the observable stream is confined to its 52 bits.
pub proof fn lemma_fresh_draw_bound(s: (u64, u64), m: nat)
    ensures
        fresh_draw(s, m) < DRAW_ONE,
    decreases m,
{
    if m < 64 {
        lemma_draw_bound(nth_state(s, (63 - m) as nat).0);
    } else {
        lemma_fresh_draw_bound(nth_state(s, 64), (m - 64) as nat);
    }
}

/// Law: one reverse step undoes one forward step. From the pair that a
/// forward step produces, `spec_back` recovers the word that was dropped,
/// so stepping forward and then back returns the original pair.
pub proof fn lemma_back_inverts_next(s0: u64, s1: u64)
    ensures
        spec_back(spec_next(s0, s1), s1) == s0,
        (spec_back(spec_step((s0, s1)).1, spec_step((s0, s1)).0), spec_step((s0, s1)).0) == (
            s0,
            s1,
        ),
{
    assert(spec_back(spec_next(s0, s1), s1) == s0) by (bit_vector);
}

/// Law: state recovery from observed draws is exact. For any state pair
/// `(s0, s1)`, the 52-bit draws of `s0`, of `s1` and of the stepped word
/// `spec_next(s0, s1)` determine `s0` completely: the 12 hidden bits are
/// `spec_derive_unknown` of the three draws.
pub proof fn lemma_lock_recovery(s0: u64, s1: u64)
    ensures
        ((draw_of_state(s0) << 12) | spec_derive_unknown(
            draw_of_state(s0),
            draw_of_state(s1),
            draw_of_state(spec_next(s0, s1)),
        )) == s0,
{
    assert((((s0 >> 12) << 12) | spec_derive_unknown(
        s0 >> 12,
        s1 >> 12,
        spec_next(s0, s1) >> 12,
    )) == s0) by (bit_vector);
}

/// Law: a lock window of four consecutive draws pins the whole state pair.
/// With `s2` and `s3` the words that stepping `(s0, s1)` twice produces,
/// both hidden words are rebuilt exactly from the four observable draws,
/// each from the three draws that start at its own position.
pub proof fn lemma_lock_recovery_pair(s0: u64, s1: u64)
    ensures
        ({
            let s2 = spec_next(s0, s1);
            let s3 = spec_next(s1, s2);
            &&& ((draw_of_state(s0) << 12) | spec_derive_unknown(
                draw_of_state(s0),
                draw_of_state(s1),
                draw_of_state(s2),
            )) == s0
            &&& ((draw_of_state(s1) << 12) | spec_derive_unknown(
                draw_of_state(s1),
                draw_of_state(s2),
                draw_of_state(s3),
            )) == s1
        }),
{
    lemma_lock_recovery(s0, s1);
    lemma_lock_recovery(s1, spec_next(s0, s1));
}

/// The forward step of the generator.
pub fn next(s0: u64, s1: u64) -> (r: u64)
    ensures
        r == spec_next(s0, s1),
{
    let mut x = s0;
    x ^= x << 23;
    x ^= x >> 17;
    s1 ^ (s1 >> 26) ^ x
}

/// The reverse step of the generator.
pub fn back(s2: u64, s1: u64) -> (r: u64)
    ensures
        r == spec_back(s2, s1),
{
    let mut x = s2 ^ s1 ^ (s1 >> 26);
    x ^= x >> 17;
    x ^= x >> 34;
    x ^= x << 23;
    x ^= x << 46;
    x
}

/// The guess of the 12 hidden bits from three consecutive observed draws.
pub fn derive_unknown(k0: u64, k1: u64, k2: u64) -> (r: u64)
    ensures
        r == spec_derive_unknown(k0, k1, k2),
{
    let mut x = k2 ^ (k1 >> 26) ^ k1;
    x ^= x >> 17;
    x ^= x >> 34;
    ((x ^ k0 ^ (k0 << 23)) >> 11) & 0x0fff
}

/// Whether the predictor `p` mirrors a generator freshly seeded with the
/// state pair `s`, the staged first draw already consumed: every future
/// draw of `p` is the corresponding draw of that generator's stream.
pub open spec fn mirrors(p: RngState, s: (u64, u64)) -> bool {
    forall|n: nat| #[trigger] p.future(n) == fresh_draw(s, n + 1)
}

/// A draw of the shared stream, reduced to its 52 observable bits.
pub(crate) fn draw<O: Oracle>(env: &mut O) -> (r: u64)
    ensures
        r < DRAW_ONE,
{
    let d = env.random();
    let m = d & 0x000f_ffff_ffff_ffff;
    proof {
        assert((d & 0x000f_ffff_ffff_ffffu64) < 0x0010_0000_0000_0000u64) by (bit_vector);
    }
    m
}

/// The attacker-side replica of the generator: a state pair and the cache of
/// draws already produced from it but not yet handed out.
pub struct RngState {
    state: (u64, u64),
    cache: Vec<u64>,
}

impl RngState {
    #[verifier::type_invariant]
    spec fn wf(self) -> bool {
        &&& self.cache@.len() <= 64
        &&& forall|i: int| 0 <= i < self.cache@.len() ==> self.cache@[i] < DRAW_ONE
    }

    /// The draw that the `n`-th future call of `next_random` will return:
    /// first the cache, tail first, then fresh blocks from the state pair.
    pub closed spec fn future(self, n: nat) -> u64 {
        if n < self.cache@.len() {
            self.cache@[self.cache@.len() - 1 - n]
        } else {
            fresh_draw(self.state, (n - self.cache@.len()) as nat)
        }
    }

    /// A predictor mirroring a generator freshly seeded with `(s0, s1)`,
    /// with the first staged draw already consumed.
    pub fn from_state(s0: u64, s1: u64) -> (r: RngState)
        ensures
            mirrors(r, (s0, s1)),
            forall|n: nat| #[trigger] r.future(n) == fresh_draw((s0, s1), n + 1),
            forall|n: nat| #[trigger] r.future(n) < DRAW_ONE,
    {
        let mut out = RngState { state: (s0, s1), cache: Vec::new() };
        let ghost fresh = out;
        out.next_random();
        proof {
            assert forall|n: nat| #[trigger] out.future(n) == fresh_draw((s0, s1), n + 1) by {
                assert(out.future(n) == fresh.future(n + 1));
            }
            assert forall|n: nat| #[trigger] out.future(n) < DRAW_ONE by {
                lemma_fresh_draw_bound((s0, s1), n + 1);
            }
        }
        out
    }

    /// The next draw of the mirrored stream, in the order the oracle's own
    /// draws would observe it.
    pub fn next_random(&mut self) -> (r: u64)
        ensures
            r == old(self).future(0),
            r < DRAW_ONE,
            forall|n: nat| #[trigger] final(self).future(n) == old(self).future(n + 1),
            forall|n: nat| #[trigger] final(self).future(n) < DRAW_ONE,
    {
        if self.cache.len() == 0 {
            self.refill_cache();
        }
        proof {
            use_type_invariant(&*self);
        }
        let ghost full = *self;
        let mut cache: Vec<u64> = Vec::new();
        std::mem::swap(&mut cache, &mut self.cache);
        let r = cache.pop().unwrap();
        std::mem::swap(&mut cache, &mut self.cache);
        proof {
            assert(full.cache@.len() > 0);
            assert(r == full.cache@[full.cache@.len() - 1]);
            assert(full.future(0) == r);
            assert(full.future(0) == old(self).future(0));
            assert forall|n: nat| #[trigger] self.future(n) == old(self).future(n + 1) by {
                assert(self.future(n) == full.future(n + 1));
            }
            use_type_invariant(&*self);
            assert forall|n: nat| #[trigger] self.future(n) < DRAW_ONE by {
                if n >= self.cache@.len() {
                    lemma_fresh_draw_bound(self.state, (n - self.cache@.len()) as nat);
                }
            }
        }
        r
    }

    /// Produce the next 64 draws from the state pair and advance it past
    /// them. The cache is filled in state order and consumed from the tail.
    fn refill_cache(&mut self)
        requires
            old(self).cache@.len() == 0,
        ensures
            final(self).cache@.len() == 64,
            forall|n: nat| #[trigger] final(self).future(n) == old(self).future(n),
    {
        proof {
            use_type_invariant(&*self);
        }
        let ghost orig: (u64, u64) = self.state;
        let (mut a, mut b) = self.state;
        let mut cache: Vec<u64> = Vec::new();
        let mut i: usize = 0;
        while i < 64
            invariant
                i <= 64,
                cache@.len() == i,
                (a, b) == nth_state(orig, i as nat),
                forall|j: int| 0 <= j < i ==> cache@[j] == draw_of_state(
                    nth_state(orig, j as nat).0,
                ),
                forall|j: int| 0 <= j < i ==> cache@[j] < DRAW_ONE,
            decreases 64 - i,
        {
            let d = a >> 12;
            proof {
                lemma_draw_bound(a);
            }
            cache.push(d);
            let t = next(a, b);
            a = b;
            b = t;
            i += 1;
        }
        self.cache = cache;
        self.state = (a, b);
        proof {
            assert forall|n: nat| #[trigger] self.future(n) == old(self).future(n) by {
                assert(old(self).future(n) == fresh_draw(orig, n));
                if n < 64 {
                    assert(self.future(n) == self.cache@[63 - n as int]);
                    assert(self.cache@[63 - n as int] == draw_of_state(
                        nth_state(orig, (63 - n) as nat).0,
                    ));
                } else {
                    assert(self.state == nth_state(orig, 64));
                    assert(self.future(n) == fresh_draw(nth_state(orig, 64), (n - 64) as nat));
                }
            }
        }
    }

    /// Recover the generator's state from four consecutive draws of the
    /// shared stream, validate the guess against all four, re-anchor
    /// backwards over draws that precede the locked window, and burn the
    /// 64-step cache offset, leaving a predictor aligned with the stream.
    pub fn lock_random<O: Oracle>(env: &mut O) -> (r: Result<RngState, DivineError>)
        ensures
            r matches Err(e) ==> e == DivineError::Desync,
            r matches Ok(p) ==> exists|s: (u64, u64)| #[trigger] mirrors(p, s),
            r matches Ok(p) ==> forall|n: nat| #[trigger] p.future(n) < DRAW_ONE,
    {
        let mut locked: Option<(u64, u64)> = None;
        let mut attempts: u64 = 1024;
        while locked.is_none() && attempts > 0
            decreases attempts,
        {
            attempts -= 1;
            locked = try_lock_random(env);
        }
        let (mut s_back, mut s_forwards) = match locked {
            Some(p) => p,
            None => {
                return Err(DivineError::Desync);
            },
        };
        // Peel backwards: while the next shared draw equals the draw of the
        // state before the locked window, that draw was part of the same
        // already-produced block, and the window moves one state back.
        let mut peeling = true;
        let mut peel_fuel: u64 = 4096;
        while peeling && peel_fuel > 0
            decreases peel_fuel,
        {
            peel_fuel -= 1;
            let prior = back(s_forwards, s_back);
            if draw(env) == prior >> 12 {
                s_forwards = s_back;
                s_back = prior;
            } else {
                peeling = false;
            }
        }
        if peeling {
            // the budget ran out while the stream still matched: the window
            // never reached the stream's first unseen draw
            return Err(DivineError::Desync);
        }
        // The first observable draw belongs to state 64, not state 0: the
        // generator fills a 64-entry cache and drains it newest state first.
        let mut i: usize = 0;
        while i < 64
            invariant
                i <= 64,
            decreases 64 - i,
        {
            let t = next(s_back, s_forwards);
            s_back = s_forwards;
            s_forwards = t;
            i += 1;
        }
        let out = RngState::from_state(s_back, s_forwards);
        let res: Result<RngState, DivineError> = Ok(out);
        proof {
            assert(res matches Ok(p) ==> exists|s: (u64, u64)| #[trigger] mirrors(p, s)) by {
                assert(res matches Ok(p) ==> mirrors(p, (s_back, s_forwards)));
            }
        }
        res
    }
}

/// The lock decision on four observed draws, `f3` seen first and `f0` most
/// recent: guess the hidden bits of the two oldest underlying states, and
/// accept the guess only if stepping it twice reproduces all four draws.
///
/// Sound: an accepted pair reproduces the four draws exactly. Complete: if
/// the draws really are four consecutive states of the generator, observed
/// newest state last, that state pair and no other is returned
/// ([`lemma_lock_recovery_pair`]); a true window is never rejected.
pub fn lock_guess(f3: u64, f2: u64, f1: u64, f0: u64) -> (r: Option<(u64, u64)>)
    ensures
        r matches Some(p) ==> {
            let s2 = spec_next(p.0, p.1);
            &&& draw_of_state(p.0) == f0
            &&& draw_of_state(p.1) == f1
            &&& draw_of_state(s2) == f2
            &&& draw_of_state(spec_next(p.1, s2)) == f3
        },
        forall|s0: u64, s1: u64|
            {
                &&& f0 == draw_of_state(s0)
                &&& f1 == draw_of_state(s1)
                &&& f2 == draw_of_state(#[trigger] spec_next(s0, s1))
                &&& f3 == draw_of_state(spec_next(s1, spec_next(s0, s1)))
            } ==> r == Some((s0, s1)),
{
    let c0 = (f0 << 12) | derive_unknown(f0, f1, f2);
    let c1 = (f1 << 12) | derive_unknown(f1, f2, f3);
    let c2 = next(c0, c1);
    let c3 = next(c1, c2);
    let accept = c0 >> 12 == f0 && c1 >> 12 == f1 && c2 >> 12 == f2 && c3 >> 12 == f3;
    let r: Option<(u64, u64)> = if accept {
        Some((c0, c1))
    } else {
        None
    };
    proof {
        assert forall|s0: u64, s1: u64|
            {
                &&& f0 == draw_of_state(s0)
                &&& f1 == draw_of_state(s1)
                &&& f2 == draw_of_state(#[trigger] spec_next(s0, s1))
                &&& f3 == draw_of_state(spec_next(s1, spec_next(s0, s1)))
            } implies r == Some((s0, s1)) by {
            lemma_lock_recovery_pair(s0, s1);
        }
    }
    r
}

/// One lock attempt: consume four draws of the shared stream and run the
/// lock decision on them. An attempt on a true window always succeeds; one
/// that straddles a cache refill is rejected and its draws are discarded.
fn try_lock_random<O: Oracle>(env: &mut O) -> (r: Option<(u64, u64)>)
{
    let f3 = draw(env);
    let f2 = draw(env);
    let f1 = draw(env);
    let f0 = draw(env);
    lock_guess(f3, f2, f1, f0)
}

} // verus!
