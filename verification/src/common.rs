//! Shared vocabulary: the corruption alphabet, the exact meaning of
//! `floor(draw * n)` on 52-bit draws, and the error surface.

use vstd::prelude::*;

verus! {

/// Every draw is the 52-bit numerator of a value in `[0, 1)`: the draw's
/// value is `k / DRAW_ONE`.
pub const DRAW_ONE: u64 = 0x0010_0000_0000_0000;

/// How a run can fail.
#[derive(Clone, Copy, Debug, PartialEq, Eq, Structural)]
pub enum DivineError {
    /// The oracle's corruption bound is at most 1, so no single-corruption
    /// experiment can ever be forced and fragment lengths cannot be measured.
    InsufficientCorruption,
    /// The predicted stream and the observed stream no longer agree, or the
    /// oracle returned output that no conforming oracle produces.
    Desync,
}

/// The shared random stream and the oracle drawing from it, as the attacker
/// sees them. `random` hands out the next draw of the shared generator as its
/// 52-bit numerator; `target` invokes the oracle, which consumes draws from
/// the same stream and returns one corrupted sample.
pub trait Oracle {
    fn random(&mut self) -> u64;

    fn target(&mut self) -> Vec<u16>;
}

/// `floor(v * n)` for a draw with value `v == k / DRAW_ONE`.
pub open spec fn spec_rand_under(k: u64, n: nat) -> nat {
    (k as nat * n) / 0x0010_0000_0000_0000
}

/// `floor(v * under)` where `v` is the value of the draw `rng_out`.
///
/// The oracle scales a draw by `under` and truncates to pick an index below
/// `under`; this is that computation, exactly, on the draw's numerator.
pub fn rand_under(rng_out: u64, under: usize) -> (r: usize)
    requires
        rng_out < DRAW_ONE,
    ensures
        r == spec_rand_under(rng_out, under as nat),
        under > 0 ==> r < under,
        under == 0 ==> r == 0,
{
    proof {
        assert((rng_out as int) * (under as int) < 0x0010_0000_0000_0000int * 0x1_0000_0000_0000_0000int)
            by (nonlinear_arith)
            requires
                rng_out < 0x0010_0000_0000_0000u64,
                under <= 0xffff_ffff_ffff_ffffu64,
        ;
        assert(under > 0 ==> (rng_out as int) * (under as int) / 0x0010_0000_0000_0000int < under as int)
            by (nonlinear_arith)
            requires
                rng_out < 0x0010_0000_0000_0000u64,
        ;
    }
    let prod: u128 = (rng_out as u128) * (under as u128);
    let q: u128 = prod / 0x0010_0000_0000_0000u128;
    q as usize
}

/// The fixed ten-symbol corruption alphabet, by position.
pub open spec fn spec_corruption_symbol(i: int) -> u16 {
    if i == 0 {
        161
    } else if i == 1 {
        162
    } else if i == 2 {
        193
    } else if i == 3 {
        164
    } else if i == 4 {
        195
    } else if i == 5 {
        166
    } else if i == 6 {
        167
    } else if i == 7 {
        168
    } else if i == 8 {
        169
    } else {
        170
    }
}

/// Whether a symbol belongs to the corruption alphabet.
pub open spec fn is_corruption_symbol(x: u16) -> bool {
    exists|i: int| 0 <= i < 10 && x == spec_corruption_symbol(i)
}

/// The corruption symbol at position `i` of the alphabet.
pub fn corruption_symbol(i: usize) -> (r: u16)
    requires
        i < 10,
    ensures
        r == spec_corruption_symbol(i as int),
        is_corruption_symbol(r),
{
    let r: u16 = if i == 0 {
        161
    } else if i == 1 {
        162
    } else if i == 2 {
        193
    } else if i == 3 {
        164
    } else if i == 4 {
        195
    } else if i == 5 {
        166
    } else if i == 6 {
        167
    } else if i == 7 {
        168
    } else if i == 8 {
        169
    } else {
        170
    };
    proof {
        // the position witnesses membership in the alphabet
        assert(r == spec_corruption_symbol(i as int));
    }
    r
}

fn is_corruption(x: u16) -> (r: bool)
    ensures
        r == is_corruption_symbol(x),
{
    let r = x == 161 || x == 162 || x == 193 || x == 164 || x == 195 || x == 166 || x == 167
        || x == 168 || x == 169 || x == 170;
    proof {
        if r {
            if x == 161 {
                assert(x == spec_corruption_symbol(0));
            } else if x == 162 {
                assert(x == spec_corruption_symbol(1));
            } else if x == 193 {
                assert(x == spec_corruption_symbol(2));
            } else if x == 164 {
                assert(x == spec_corruption_symbol(3));
            } else if x == 195 {
                assert(x == spec_corruption_symbol(4));
            } else if x == 166 {
                assert(x == spec_corruption_symbol(5));
            } else if x == 167 {
                assert(x == spec_corruption_symbol(6));
            } else if x == 168 {
                assert(x == spec_corruption_symbol(7));
            } else if x == 169 {
                assert(x == spec_corruption_symbol(8));
            } else {
                assert(x == spec_corruption_symbol(9));
            }
        }
    }
    r
}

/// Whether any element of `slice` is a corruption symbol. A corruption
/// symbol in an oracle sample is the beacon that the length search reads.
pub fn contains_corruption(slice: &Vec<u16>) -> (r: bool)
    ensures
        r == exists|i: int| 0 <= i < slice@.len() && is_corruption_symbol(slice@[i]),
{
    let mut j: usize = 0;
    while j < slice.len()
        invariant
            j <= slice@.len(),
            forall|i: int| 0 <= i < j ==> !is_corruption_symbol(slice@[i]),
        decreases slice@.len() - j,
    {
        if is_corruption(slice[j]) {
            return true;
        }
        j += 1;
    }
    false
}

/// A copy of `v`'s first `n` elements.
pub(crate) fn prefix(v: &Vec<u16>, n: usize) -> (r: Vec<u16>)
    requires
        n <= v@.len(),
    ensures
        r@ == v@.take(n as int),
{
    let mut r: Vec<u16> = Vec::new();
    let mut j: usize = 0;
    while j < n
        invariant
            j <= n,
            n <= v@.len(),
            r@.len() == j,
            forall|i: int| 0 <= i < j ==> r@[i] == v@[i],
        decreases n - j,
    {
        r.push(v[j]);
        j += 1;
    }
    proof {
        assert(r@ =~= v@.take(n as int));
    }
    r
}

/// Whether two sequences hold the same symbols.
pub(crate) fn vec_eq(a: &Vec<u16>, b: &Vec<u16>) -> (r: bool)
    ensures
        r == (a@ == b@),
{
    if a.len() != b.len() {
        proof {
            assert(a@ != b@);
        }
        return false;
    }
    let mut j: usize = 0;
    while j < a.len()
        invariant
            j <= a@.len(),
            a@.len() == b@.len(),
            forall|i: int| 0 <= i < j ==> a@[i] == b@[i],
        decreases a@.len() - j,
    {
        if a[j] != b[j] {
            proof {
                assert(a@ != b@);
            }
            return false;
        }
        j += 1;
    }
    proof {
        assert(a@ =~= b@);
    }
    true
}

} // verus!
