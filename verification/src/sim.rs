//! A deterministic reference oracle for self-testing: it corrupts a base
//! sequence and overlays one fragment, drawing from a shared generator
//! exactly as a real target does.

use vstd::prelude::*;

use crate::common::corruption_symbol;
use crate::common::prefix;
use crate::common::rand_under;
use crate::common::spec_corruption_symbol;
use crate::common::spec_rand_under;
use crate::common::Oracle;
use crate::random::RngState;

verus! {

/// The base after the first `j` corruption writes of a sample whose draws
/// come from the stream of `r`: write number `j` uses draw `2j - 1` for its
/// index and draw `2j` for its symbol, and later writes win at a shared index.
pub open spec fn sim_corrupted(base: Seq<u16>, r: RngState, j: nat) -> Seq<u16>
    decreases j,
{
    if j == 0 {
        base
    } else {
        let prev = sim_corrupted(base, r, (j - 1) as nat);
        let idx = spec_rand_under(r.future((2 * j - 1) as nat), base.len());
        let sym = spec_corruption_symbol(spec_rand_under(r.future(2 * j), 10) as int);
        prev.update(idx as int, sym)
    }
}

/// The number of corruption writes of a sample: `floor(v * bound)` for the
/// value `v` of the stream's first draw.
pub open spec fn sim_num_corruption(r: RngState, corruption_bound: nat) -> nat {
    spec_rand_under(r.future(0), corruption_bound)
}

/// The sample that an oracle with the given base, corruption bound and
/// fragment array returns when its draws come from the stream of `r`: the
/// corrupted base, with the drawn fragment overlaid at the drawn start.
pub open spec fn sim_output(
    base: Seq<u16>,
    corruption_bound: nat,
    fragments: Seq<Seq<u16>>,
    r: RngState,
) -> Seq<u16> {
    let nc = sim_num_corruption(r, corruption_bound);
    let corrupted = sim_corrupted(base, r, nc);
    let f = fragments[spec_rand_under(r.future(2 * nc + 1), fragments.len()) as int];
    let p = spec_rand_under(r.future(2 * nc + 2), (base.len() - f.len()) as nat);
    Seq::new(
        base.len(),
        |i: int|
            if p <= i < p + f.len() {
                f[i - p]
            } else {
                corrupted[i]
            },
    )
}

/// One oracle sample drawn from `rng`. Draw order: one draw for the
/// corruption count, two draws per corruption write, one draw selecting the
/// fragment, one draw placing it.
pub fn sim_fragment_script(
    rng: &mut RngState,
    base: &Vec<u16>,
    corruption_bound: usize,
    fragments: &Vec<Vec<u16>>,
) -> (out: Vec<u16>)
    requires
        base@.len() > 0,
        fragments@.len() > 0,
        forall|i: int| 0 <= i < fragments@.len() ==> fragments@[i]@.len() <= base@.len(),
    ensures
        out@ == sim_output(
            base@,
            corruption_bound as nat,
            fragments@.map_values(|v: Vec<u16>| v@),
            *old(rng),
        ),
        forall|n: nat| #[trigger] final(rng).future(n) == old(rng).future(
            n + 3 + 2 * sim_num_corruption(*old(rng), corruption_bound as nat),
        ),
{
    let ghost r0 = *rng;
    let d0 = rng.next_random();
    let num_corruption = rand_under(d0, corruption_bound);
    proof {
        assert(num_corruption == sim_num_corruption(r0, corruption_bound as nat));
    }
    let mut out = prefix(base, base.len());
    proof {
        assert(out@ =~= base@);
    }
    let mut j: usize = 0;
    while j < num_corruption
        invariant
            j <= num_corruption,
            num_corruption == sim_num_corruption(r0, corruption_bound as nat),
            base@.len() > 0,
            out@.len() == base@.len(),
            out@ == sim_corrupted(base@, r0, j as nat),
            forall|n: nat| #[trigger] rng.future(n) == r0.future(n + 1 + 2 * (j as nat)),
        decreases num_corruption - j,
    {
        let di = rng.next_random();
        let index = rand_under(di, base.len());
        let ds = rng.next_random();
        let c = corruption_symbol(rand_under(ds, 10));
        out[index] = c;
        j += 1;
        proof {
            assert(di == r0.future((2 * (j as nat) - 1) as nat));
            assert(ds == r0.future(2 * (j as nat)));
            assert(out@ == sim_corrupted(base@, r0, j as nat));
            assert forall|n: nat| #[trigger] rng.future(n) == r0.future(n + 1 + 2 * (j as nat)) by {
                assert(rng.future(n) == r0.future((n + 2) + 1 + 2 * ((j - 1) as nat)));
            }
        }
    }
    let df = rng.next_random();
    let fi = rand_under(df, fragments.len());
    let f = &fragments[fi];
    let dp = rng.next_random();
    let start = rand_under(dp, base.len() - f.len());
    proof {
        assert(df == r0.future(2 * (num_corruption as nat) + 1));
        assert(dp == r0.future(2 * (num_corruption as nat) + 2));
        assert(start + f@.len() <= base@.len());
    }
    let ghost corrupted = sim_corrupted(base@, r0, num_corruption as nat);
    let mut t: usize = 0;
    while t < f.len()
        invariant
            t <= f@.len(),
            fi < fragments@.len(),
            f@ == fragments@[fi as int]@,
            start + f@.len() <= base@.len(),
            base@.len() <= usize::MAX,
            out@.len() == base@.len(),
            forall|i: int|
                0 <= i < out@.len() ==> out@[i] == (if start <= i < start + t {
                    f@[i - start]
                } else {
                    corrupted[i]
                }),
        decreases f@.len() - t,
    {
        out[start + t] = f[t];
        t += 1;
    }
    proof {
        assert(out@ =~= sim_output(
            base@,
            corruption_bound as nat,
            fragments@.map_values(|v: Vec<u16>| v@),
            r0,
        ));
        assert forall|n: nat| #[trigger] rng.future(n) == r0.future(
            n + 3 + 2 * sim_num_corruption(r0, corruption_bound as nat),
        ) by {
            assert(rng.future(n) == r0.future((n + 2) + 1 + 2 * (num_corruption as nat)));
        }
    }
    out
}

/// A self-contained target for testing: a generator seeded with a known
/// state, a base, a corruption bound and a fragment array. Both callables of
/// [`Oracle`] draw from the one generator, exactly as a real oracle and the
/// host that shares its random source do.
pub struct SimOracle {
    rng: RngState,
    base: Vec<u16>,
    corruption_bound: usize,
    fragments: Vec<Vec<u16>>,
}

impl SimOracle {
    /// The base sequence this oracle corrupts and overlays.
    pub closed spec fn base_view(self) -> Seq<u16> {
        self.base@
    }

    /// The exclusive upper bound of corruption writes per sample.
    pub closed spec fn bound_view(self) -> nat {
        self.corruption_bound as nat
    }

    /// The hidden fragment array this oracle overlays samples from: what a
    /// divination against this oracle is meant to recover.
    pub closed spec fn fragments_view(self) -> Seq<Seq<u16>> {
        self.fragments@.map_values(|v: Vec<u16>| v@)
    }

    /// The generator both of this oracle's callables draw from.
    pub closed spec fn rng_view(self) -> RngState {
        self.rng
    }

    /// A simulated oracle over a freshly seeded generator. A well-formed
    /// oracle has a nonempty base, at least one fragment, and no fragment
    /// longer than the base; a malformed one answers every `target` call
    /// with an empty sample.
    pub fn new(
        s0: u64,
        s1: u64,
        base: Vec<u16>,
        corruption_bound: usize,
        fragments: Vec<Vec<u16>>,
    ) -> (r: SimOracle)
        ensures
            r.base_view() == base@,
            r.bound_view() == corruption_bound as nat,
            r.fragments_view() == fragments@.map_values(|v: Vec<u16>| v@),
            crate::random::mirrors(r.rng_view(), (s0, s1)),
    {
        SimOracle { rng: RngState::from_state(s0, s1), base, corruption_bound, fragments }
    }
}

impl Oracle for SimOracle {
    fn random(&mut self) -> u64 {
        self.rng.next_random()
    }

    fn target(&mut self) -> Vec<u16> {
        if self.base.len() == 0 || self.fragments.len() == 0 {
            return Vec::new();
        }
        let mut i: usize = 0;
        let mut fit = true;
        while i < self.fragments.len()
            invariant
                i <= self.fragments@.len(),
                fit ==> forall|j: int|
                    0 <= j < i ==> self.fragments@[j]@.len() <= self.base@.len(),
            decreases self.fragments@.len() - i,
        {
            if self.fragments[i].len() > self.base.len() {
                fit = false;
            }
            i += 1;
        }
        if !fit {
            return Vec::new();
        }
        sim_fragment_script(&mut self.rng, &self.base, self.corruption_bound, &self.fragments)
    }
}

} // verus!
