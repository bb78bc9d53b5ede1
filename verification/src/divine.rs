//! The three-phase divination protocol: lock onto the shared stream, then
//! steer the oracle into favourable configurations and read its secrets.
//!
//! Every stream-driven loop carries a draw budget. A conforming oracle stays
//! far below it; exhausting a budget means the predicted and the observed
//! streams no longer agree, which is surfaced as [`DivineError::Desync`].

use vstd::prelude::*;

use crate::common::contains_corruption;
use crate::common::is_corruption_symbol;
use crate::common::prefix;
use crate::common::rand_under;
use crate::common::spec_rand_under;
use crate::common::vec_eq;
use crate::common::DivineError;
use crate::common::Oracle;
use crate::common::DRAW_ONE;
use crate::random::draw;
use crate::random::RngState;

verus! {

/// Budget of predicted or shared draws that one phase may consume.
pub const DRAW_BUDGET: u64 = 0x0100_0000;

/// Whether the value of the draw `k` is at least 99/100: `k / 2^52 >= 99/100`
/// exactly when `100 k >= 99 * 2^52`.
fn at_least_99_hundredths(k: u64) -> (r: bool)
    requires
        k < DRAW_ONE,
    ensures
        r == (100 * (k as nat) >= 99 * 0x0010_0000_0000_0000),
{
    100 * k >= 99 * 0x0010_0000_0000_0000u64
}

/// Consume `count` draws of the shared stream without using their values,
/// standing in for draws the oracle was predicted to make but will not.
fn spin_random<O: Oracle>(env: &mut O, count: usize)
{
    let mut i: usize = 0;
    while i < count
        decreases count - i,
    {
        env.random();
        i += 1;
    }
}

/// The corruption bound measured from the draws one forced oracle call
/// consumed: once for the corruption count, twice per corruption character,
/// and twice to place the fragment, so with maximum corruption
/// `1 + 2 (bound - 1) + 2 == 2 * bound` draws in all. A measured bound of at
/// most 1 admits no single-corruption experiment and is insufficient.
pub fn bound_of_count(count: usize) -> (r: Result<usize, DivineError>)
    ensures
        count / 2 <= 1 <==> r == Err::<usize, DivineError>(DivineError::InsufficientCorruption),
        count / 2 >= 2 ==> r == Ok::<usize, DivineError>(count / 2),
{
    let bound = count / 2;
    if bound <= 1 {
        Err(DivineError::InsufficientCorruption)
    } else {
        Ok(bound)
    }
}

/// What phase 1 reads off the predicted stream `p`: the first prediction at
/// or above 99/100 stands at position `j`; past it, `count` further
/// predictions differ from the barrier draw `b` before one equals it; and
/// the predictor `q` left behind has consumed exactly those `j + 2 + count`
/// predictions.
pub open spec fn phase_one_measurement(
    p: RngState,
    q: RngState,
    j: nat,
    b: u64,
    count: nat,
) -> bool {
    &&& forall|i: nat|
        i < j ==> 100 * ((#[trigger] p.future(i)) as nat) < 99 * 0x0010_0000_0000_0000
    &&& 100 * (p.future(j) as nat) >= 99 * 0x0010_0000_0000_0000
    &&& forall|m: nat| m < count ==> (#[trigger] p.future(j + 1 + m)) != b
    &&& p.future(j + 1 + count) == b
    &&& forall|n: nat| (#[trigger] q.future(n)) == p.future(n + j + 2 + count)
}

/// Phase 1: force maximum corruption, read the base length off one sample,
/// and count the draws that the oracle call consumed; that count is twice
/// the corruption bound. On success, the bound is `count / 2` for a draw
/// count measured on the predicted stream as [`phase_one_measurement`]
/// says, against a barrier draw taken from the shared stream right after
/// the oracle returned. Fails with `InsufficientCorruption` exactly when
/// the measured bound is at most 1 -- the insufficient-corruption ensures
/// binds that error to a measurement too -- since no single-corruption
/// experiment can then ever be forced.
pub fn divine_corruption_bound_and_base_len<O: Oracle>(
    predicted: &mut RngState,
    env: &mut O,
) -> (r: Result<(usize, usize), DivineError>)
    ensures
        r matches Ok(p) ==> p.0 >= 2,
        r matches Ok(p) ==> exists|j: nat, b: u64, count: nat|
            {
                &&& #[trigger] phase_one_measurement(
                    *old(predicted),
                    *final(predicted),
                    j,
                    b,
                    count,
                )
                &&& p.0 == count / 2
            },
        r == Err::<(usize, usize), DivineError>(DivineError::InsufficientCorruption)
            ==> exists|j: nat, b: u64, count: nat|
            {
                &&& #[trigger] phase_one_measurement(
                    *old(predicted),
                    *final(predicted),
                    j,
                    b,
                    count,
                )
                &&& count / 2 <= 1
            },
{
    let ghost p0 = *predicted;
    // Manipulate the stream so that the oracle's first draw yields the
    // maximum corruption count: spin until the staged prediction is >= 99/100.
    let mut fuel: u64 = DRAW_BUDGET;
    let mut forced = false;
    while !forced && fuel > 0
        invariant
            fuel <= DRAW_BUDGET,
            !forced ==> forall|i: nat|
                i < DRAW_BUDGET - fuel ==> 100 * ((#[trigger] p0.future(i)) as nat) < 99
                    * 0x0010_0000_0000_0000,
            forced ==> DRAW_BUDGET - fuel >= 1,
            forced ==> forall|i: nat|
                i < DRAW_BUDGET - fuel - 1 ==> 100 * ((#[trigger] p0.future(i)) as nat) < 99
                    * 0x0010_0000_0000_0000,
            forced ==> 100 * (p0.future((DRAW_BUDGET - fuel - 1) as nat) as nat) >= 99
                * 0x0010_0000_0000_0000,
            forall|n: nat| (#[trigger] predicted.future(n)) == p0.future(
                n + ((DRAW_BUDGET - fuel) as nat),
            ),
        decreases fuel,
    {
        fuel -= 1;
        let v = predicted.next_random();
        if at_least_99_hundredths(v) {
            forced = true;
        } else {
            spin_random(env, 1);
        }
    }
    if !forced {
        return Err(DivineError::Desync);
    }
    let ghost j: nat = (DRAW_BUDGET - fuel - 1) as nat;
    let base_len = env.target().len();
    // Count the draws the oracle consumed: take a barrier draw right after
    // the oracle returned, and step the prediction until it reaches it.
    let barrier = draw(env);
    let ghost q0 = *predicted;
    let mut count_fuel: u64 = DRAW_BUDGET;
    let mut count: usize = 0;
    let mut found = false;
    while !found && count_fuel > 0
        invariant
            count as u64 + count_fuel <= DRAW_BUDGET,
            forall|m: nat| m < count ==> (#[trigger] q0.future(m)) != barrier,
            !found ==> forall|n: nat| (#[trigger] predicted.future(n)) == q0.future(
                n + count as nat,
            ),
            found ==> q0.future(count as nat) == barrier,
            found ==> forall|n: nat| (#[trigger] predicted.future(n)) == q0.future(
                n + count as nat + 1,
            ),
        decreases count_fuel,
    {
        count_fuel -= 1;
        let v = predicted.next_random();
        if v == barrier {
            found = true;
        } else {
            count += 1;
        }
    }
    if !found {
        return Err(DivineError::Desync);
    }
    proof {
        assert(phase_one_measurement(p0, *predicted, j, barrier, count as nat)) by {
            assert forall|m: nat| m < count implies (#[trigger] p0.future(j + 1 + m)) != barrier by {
                assert(q0.future(m) == p0.future(m + j + 1));
            }
            assert(q0.future(count as nat) == p0.future(count as nat + j + 1));
            assert forall|n: nat| (#[trigger] predicted.future(n)) == p0.future(
                n + j + 2 + count as nat,
            ) by {
                assert(predicted.future(n) == q0.future(n + count as nat + 1));
                assert(q0.future(n + count as nat + 1) == p0.future((n + count as nat + 1) + j + 1));
            }
        }
    }
    let res: Result<(usize, usize), DivineError> = match bound_of_count(count) {
        Ok(b) => Ok((b, base_len)),
        Err(e) => Err(e),
    };
    proof {
        assert(res matches Ok(p) ==> exists|jw: nat, bw: u64, cw: nat|
            {
                &&& #[trigger] phase_one_measurement(p0, *predicted, jw, bw, cw)
                &&& p.0 == cw / 2
            }) by {
            assert(res matches Ok(p) ==> {
                &&& phase_one_measurement(p0, *predicted, j, barrier, count as nat)
                &&& p.0 == count as nat / 2
            });
        }
        assert(res == Err::<(usize, usize), DivineError>(DivineError::InsufficientCorruption)
            ==> exists|jw: nat, bw: u64, cw: nat|
            {
                &&& #[trigger] phase_one_measurement(p0, *predicted, jw, bw, cw)
                &&& cw / 2 <= 1
            }) by {
            assert(res == Err::<(usize, usize), DivineError>(DivineError::InsufficientCorruption)
                ==> {
                &&& phase_one_measurement(p0, *predicted, j, barrier, count as nat)
                &&& count as nat / 2 <= 1
            });
        }
    }
    res
}

/// A consistency map as the contracts see it: each slot either empty or the
/// symbols of the recorded sample.
pub open spec fn map_view(map: Seq<Option<Vec<u16>>>) -> Seq<Option<Seq<u16>>> {
    map.map_values(
        |o: Option<Vec<u16>>|
            match o {
                Option::Some(v) => Option::Some(v@),
                Option::None => Option::None,
            },
    )
}

/// All fifteen candidate maps, as the contracts see them.
pub open spec fn tables_view(maps: Seq<Vec<Option<Vec<u16>>>>) -> Seq<Seq<Option<Seq<u16>>>> {
    maps.map_values(|v: Vec<Option<Vec<u16>>>| map_view(v@))
}

/// A consistency map is complete when it holds a recorded sample for every
/// selector index of the candidate count.
pub open spec fn spec_map_complete(map: Seq<Option<Seq<u16>>>, candidate: nat) -> bool {
    candidate <= map.len() && forall|i: int| 0 <= i < candidate ==> map[i] is Some
}

/// Whether the consistency map holds a recorded sample for every selector
/// index of the candidate count.
pub fn is_map_complete(map: &Vec<Option<Vec<u16>>>, candidate: usize) -> (r: bool)
    ensures
        r == spec_map_complete(map_view(map@), candidate as nat),
{
    proof {
        assert(map_view(map@).len() == map@.len());
    }
    if candidate > map.len() {
        return false;
    }
    let mut i: usize = 0;
    while i < candidate
        invariant
            i <= candidate,
            candidate <= map@.len(),
            forall|j: int| 0 <= j < i ==> (#[trigger] map_view(map@)[j]) is Some,
        decreases candidate - i,
    {
        if map[i].is_none() {
            proof {
                assert(map_view(map@)[i as int] is None);
            }
            return false;
        }
        proof {
            assert(map_view(map@)[i as int] is Some);
        }
        i += 1;
    }
    true
}

/// The winner rule of the count search: a candidate `c` wins while it is
/// alive and every candidate still alive, `c` itself included, is a
/// multiple of `c` with a complete map. The true count and its multiples
/// never die, so any winner divides the true count, and a proper divisor
/// cannot win while a non-multiple survives; waiting for the surviving set
/// to collapse onto `c`'s multiples is what rules out the small divisors
/// that a bare completeness test would accept.
pub open spec fn spec_candidate_wins(
    alive: Seq<bool>,
    maps: Seq<Seq<Option<Seq<u16>>>>,
    c: nat,
) -> bool {
    &&& 1 <= c <= alive.len()
    &&& alive[c - 1]
    &&& forall|k: nat|
        1 <= k <= alive.len() && (#[trigger] alive[k - 1]) ==> k % c == 0 && spec_map_complete(
            maps[k - 1],
            k,
        )
}

/// Whether candidate `c` wins on the current tables, exactly as
/// [`spec_candidate_wins`] says.
pub fn candidate_wins(
    alive: &Vec<bool>,
    maps: &Vec<Vec<Option<Vec<u16>>>>,
    c: usize,
) -> (r: bool)
    requires
        1 <= c <= 15,
        alive@.len() == 15,
        maps@.len() == 15,
    ensures
        r == spec_candidate_wins(alive@, tables_view(maps@), c as nat),
{
    let ghost mview = tables_view(maps@);
    if !alive[c - 1] {
        return false;
    }
    let mut k: usize = 1;
    while k <= 15
        invariant
            1 <= c <= 15,
            1 <= k <= 16,
            alive@.len() == 15,
            maps@.len() == 15,
            mview == tables_view(maps@),
            alive@[c - 1],
            forall|q: nat|
                1 <= q < k && (#[trigger] alive@[q - 1]) ==> q % (c as nat) == 0
                    && spec_map_complete(mview[q - 1], q),
        decreases 16 - k,
    {
        if alive[k - 1] {
            if k % c != 0 || !is_map_complete(&maps[k - 1], k) {
                proof {
                    assert(mview[k - 1] == map_view(maps@[k - 1]@));
                    assert(alive@[k as int - 1] && !(k as nat % (c as nat) == 0
                        && spec_map_complete(mview[k - 1], k as nat)));
                }
                return false;
            }
            proof {
                assert(mview[k - 1] == map_view(maps@[k - 1]@));
            }
        }
        k += 1;
    }
    true
}

/// One recorded sample folded into one candidate's table: the selector draw
/// picks the index `floor(selector * c / 2^52)`; an empty slot records the
/// sample, a matching slot keeps the candidate, and a differing slot kills
/// it. A dead candidate stays dead.
pub open spec fn spec_fold_one(
    alive: bool,
    map: Seq<Option<Seq<u16>>>,
    c: nat,
    selector: u64,
    sample: Seq<u16>,
) -> (bool, Seq<Option<Seq<u16>>>) {
    let i = spec_rand_under(selector, c) as int;
    if !alive {
        (false, map)
    } else if map[i] is None {
        (true, map.update(i, Option::Some(sample)))
    } else if map[i] == Option::Some(sample) {
        (true, map)
    } else {
        (false, map)
    }
}

/// One recorded sample folded into all fifteen candidate tables at once.
pub open spec fn spec_fold_sample(
    alive: Seq<bool>,
    maps: Seq<Seq<Option<Seq<u16>>>>,
    selector: u64,
    sample: Seq<u16>,
) -> (Seq<bool>, Seq<Seq<Option<Seq<u16>>>>) {
    (
        Seq::new(
            alive.len(),
            |j: int| spec_fold_one(alive[j], maps[j], (j + 1) as nat, selector, sample).0,
        ),
        Seq::new(
            maps.len(),
            |j: int| spec_fold_one(alive[j], maps[j], (j + 1) as nat, selector, sample).1,
        ),
    )
}

/// The fresh tables: every candidate in `[1, 15]` alive, every slot empty.
pub open spec fn spec_fresh_tables() -> (Seq<bool>, Seq<Seq<Option<Seq<u16>>>>) {
    (
        Seq::new(15, |j: int| true),
        Seq::new(15, |j: int| Seq::new((j + 1) as nat, |i: int| Option::<Seq<u16>>::None)),
    )
}

/// The tables after folding a history of recorded `(selector, sample)`
/// pairs, oldest first, into the fresh tables.
pub open spec fn spec_fold_history(hist: Seq<(u64, Seq<u16>)>) -> (
    Seq<bool>,
    Seq<Seq<Option<Seq<u16>>>>,
)
    decreases hist.len(),
{
    if hist.len() == 0 {
        spec_fresh_tables()
    } else {
        let prev = spec_fold_history(hist.drop_last());
        spec_fold_sample(prev.0, prev.1, hist.last().0, hist.last().1)
    }
}

/// The selector draws of a recorded history: each entry's position read off
/// the stream of `p`, paired with its sample.
pub open spec fn spec_selector_history(p: RngState, hist: Seq<(nat, Seq<u16>)>) -> Seq<
    (u64, Seq<u16>),
> {
    hist.map_values(|e: (nat, Seq<u16>)| (p.future(e.0), e.1))
}

/// A well-formed phase-2 history over the predicted stream `p`: every
/// sample was recorded under the steering gates -- at each entry's selector
/// position `e.0`, the prediction one before floors to zero under the
/// corruption bound and the prediction one after floors to zero under
/// `base_len - 1` -- and the positions increase strictly.
pub open spec fn phase_two_history_wf(
    p: RngState,
    corruption_bound: nat,
    base_len: nat,
    hist: Seq<(nat, Seq<u16>)>,
) -> bool {
    &&& forall|t: int| 0 <= t < hist.len() ==> (#[trigger] hist[t]).0 >= 1
    &&& forall|t: int|
        0 <= t < hist.len() ==> spec_rand_under(
            p.future(((#[trigger] hist[t]).0 - 1) as nat),
            corruption_bound,
        ) == 0
    &&& forall|t: int|
        0 <= t < hist.len() ==> spec_rand_under(
            p.future(((#[trigger] hist[t]).0 + 1) as nat),
            (base_len - 1) as nat,
        ) == 0
    &&& forall|t: int| 0 <= t < hist.len() - 1 ==> (#[trigger] hist[t]).0 < hist[t + 1].0
}

/// What phase 2 reads off the predicted stream `p`: a well-formed history
/// of recorded samples, and `n` is the first candidate that wins on the
/// tables folded from those selector draws and samples.
pub open spec fn phase_two_measurement(
    p: RngState,
    corruption_bound: nat,
    base_len: nat,
    hist: Seq<(nat, Seq<u16>)>,
    n: nat,
) -> bool {
    let tables = spec_fold_history(spec_selector_history(p, hist));
    &&& phase_two_history_wf(p, corruption_bound, base_len, hist)
    &&& spec_candidate_wins(tables.0, tables.1, n)
    &&& forall|c: nat| 1 <= c < n ==> !spec_candidate_wins(tables.0, tables.1, c)
}

/// Phase 2: recover the fragment count, which lies in `[1, 15]`. Samples
/// are taken only when the stream is steered to zero corruption and
/// start-of-base placement, so two samples recorded under the same selector
/// index agree exactly when a candidate count is consistent with the
/// oracle's true count. A candidate wins once every surviving candidate is
/// a complete multiple of it. On success, the returned count is the first
/// winner over tables folded, as [`spec_fold_history`] says, from a history
/// of recorded selector draws and samples measured on the predicted stream
/// ([`phase_two_measurement`]).
pub fn divine_fragment_count<O: Oracle>(
    predicted: &mut RngState,
    env: &mut O,
    corruption_bound: usize,
    base_len: usize,
) -> (r: Result<usize, DivineError>)
    requires
        corruption_bound >= 2,
        base_len >= 2,
    ensures
        r matches Ok(n) ==> 1 <= n <= 15,
        r matches Ok(n) ==> exists|hist: Seq<(nat, Seq<u16>)>|
            #[trigger] phase_two_measurement(
                *old(predicted),
                corruption_bound as nat,
                base_len as nat,
                hist,
                n as nat,
            ),
{
    let ghost p0 = *predicted;
    let ghost mut used: nat = 0;
    let ghost mut hist: Seq<(nat, Seq<u16>)> = Seq::empty();
    let mut alive: Vec<bool> = Vec::new();
    let mut maps: Vec<Vec<Option<Vec<u16>>>> = Vec::new();
    let mut c: usize = 1;
    while c <= 15
        invariant
            1 <= c <= 16,
            alive@.len() == c - 1,
            maps@.len() == c - 1,
            forall|j: int| 0 <= j < maps@.len() ==> maps@[j]@.len() == j + 1,
            forall|j: int| 0 <= j < alive@.len() ==> alive@[j] == true,
            forall|j: int, i: int|
                0 <= j < maps@.len() && 0 <= i < maps@[j]@.len() ==> (#[trigger] maps@[j]@[i])
                    is None,
        decreases 16 - c,
    {
        alive.push(true);
        let mut m: Vec<Option<Vec<u16>>> = Vec::new();
        let mut k: usize = 0;
        while k < c
            invariant
                k <= c,
                m@.len() == k,
                forall|i: int| 0 <= i < m@.len() ==> (#[trigger] m@[i]) is None,
            decreases c - k,
        {
            m.push(None);
            k += 1;
        }
        maps.push(m);
        c += 1;
    }
    proof {
        assert(alive@ =~= spec_fresh_tables().0);
        assert forall|j: int| 0 <= j < 15 implies (#[trigger] tables_view(maps@)[j])
            == spec_fresh_tables().1[j] by {
            assert(tables_view(maps@)[j] == map_view(maps@[j]@));
            assert(map_view(maps@[j]@) =~= spec_fresh_tables().1[j]);
        }
        assert(tables_view(maps@) =~= spec_fresh_tables().1);
        assert(spec_fold_history(spec_selector_history(p0, hist))
            == spec_fresh_tables()) by {
            assert(spec_selector_history(p0, hist) =~= Seq::<(u64, Seq<u16>)>::empty());
        }
    }
    let mut fuel: u64 = DRAW_BUDGET;
    while fuel > 0
        invariant
            corruption_bound >= 2,
            base_len >= 2,
            alive@.len() == 15,
            maps@.len() == 15,
            forall|j: int| 0 <= j < maps@.len() ==> maps@[j]@.len() == j + 1,
            p0 == *old(predicted),
            forall|n: nat| (#[trigger] predicted.future(n)) == p0.future(n + used),
            phase_two_history_wf(p0, corruption_bound as nat, base_len as nat, hist),
            hist.len() > 0 ==> hist.last().0 + 2 <= used,
            alive@ == spec_fold_history(spec_selector_history(p0, hist)).0,
            tables_view(maps@) == spec_fold_history(spec_selector_history(p0, hist)).1,
        decreases fuel,
    {
        fuel -= 1;
        // Force zero corruption: skip states whose first oracle draw would
        // reach 1/bound.
        let ghost pos_v = used;
        let v = predicted.next_random();
        proof {
            used = used + 1;
            assert(v == p0.future(pos_v));
        }
        if rand_under(v, corruption_bound) != 0 {
            spin_random(env, 1);
            continue;
        }
        // The draw that will select the fragment.
        let ghost sel_pos = used;
        let fragment_selector = predicted.next_random();
        proof {
            used = used + 1;
            assert(fragment_selector == p0.future(sel_pos));
        }
        // Force placement at the start: a placement draw under
        // 1/(base length - 1) floors to 0 for every fragment length.
        let v2 = predicted.next_random();
        proof {
            used = used + 1;
            assert(v2 == p0.future(sel_pos + 1));
        }
        if rand_under(v2, base_len - 1) != 0 {
            spin_random(env, 3);
            continue;
        }
        let text = env.target();
        let ghost pre_alive = alive@;
        let ghost pre_tabs = tables_view(maps@);
        // Fold the sample into every surviving candidate's map.
        let mut c: usize = 1;
        while c <= 15
            invariant
                1 <= c <= 16,
                alive@.len() == 15,
                maps@.len() == 15,
                forall|j: int| 0 <= j < maps@.len() ==> maps@[j]@.len() == j + 1,
                fragment_selector < DRAW_ONE,
                pre_alive.len() == 15,
                pre_tabs.len() == 15,
                forall|j: int| c - 1 <= j < 15 ==> (#[trigger] alive@[j]) == pre_alive[j],
                forall|j: int|
                    c - 1 <= j < 15 ==> (#[trigger] tables_view(maps@)[j]) == pre_tabs[j],
                forall|j: int|
                    0 <= j < c - 1 ==> (#[trigger] alive@[j]) == spec_fold_one(
                        pre_alive[j],
                        pre_tabs[j],
                        (j + 1) as nat,
                        fragment_selector,
                        text@,
                    ).0,
                forall|j: int|
                    0 <= j < c - 1 ==> (#[trigger] tables_view(maps@)[j]) == spec_fold_one(
                        pre_alive[j],
                        pre_tabs[j],
                        (j + 1) as nat,
                        fragment_selector,
                        text@,
                    ).1,
            decreases 16 - c,
        {
            let ghost iter_alive = alive@;
            let ghost iter_maps = maps@;
            proof {
                assert(tables_view(iter_maps)[c - 1] == map_view(iter_maps[c - 1]@));
                assert(tables_view(iter_maps)[c - 1] == pre_tabs[c - 1]);
            }
            if alive[c - 1] {
                let fragment_index = rand_under(fragment_selector, c);
                let same = match &maps[c - 1][fragment_index] {
                    Some(t) => Some(vec_eq(t, &text)),
                    None => None,
                };
                match same {
                    Some(true) => {
                        proof {
                            assert(pre_tabs[c - 1][fragment_index as int] == Option::Some(text@));
                        }
                    },
                    Some(false) => {
                        proof {
                            assert(pre_tabs[c - 1][fragment_index as int] is Some);
                            assert(pre_tabs[c - 1][fragment_index as int] != Option::Some(text@));
                        }
                        alive[c - 1] = false;
                        proof {
                            assert(alive@ == iter_alive.update(c - 1, false));
                        }
                    },
                    None => {
                        let copy = prefix(&text, text.len());
                        proof {
                            assert(copy@ =~= text@);
                            assert(pre_tabs[c - 1][fragment_index as int] is None);
                        }
                        maps[c - 1][fragment_index] = Some(copy);
                        proof {
                            assert(maps@[c - 1]@ == iter_maps[c - 1]@.update(
                                fragment_index as int,
                                Option::Some(copy),
                            ));
                            assert(map_view(maps@[c - 1]@) =~= pre_tabs[c - 1].update(
                                fragment_index as int,
                                Option::Some(text@),
                            ));
                        }
                    },
                }
            }
            proof {
                assert(maps@.len() == 15 && iter_maps.len() == 15);
                assert forall|j: int| 0 <= j < 15 && j != c - 1 implies maps@[j] == iter_maps[j]
                    && alive@[j] == iter_alive[j] by {
                }
                assert forall|j: int| 0 <= j < 15 && j != c - 1 implies (#[trigger] tables_view(
                    maps@,
                )[j]) == tables_view(iter_maps)[j] by {
                    assert(tables_view(maps@)[j] == map_view(maps@[j]@));
                    assert(tables_view(iter_maps)[j] == map_view(iter_maps[j]@));
                }
                assert(tables_view(maps@)[c - 1] == map_view(maps@[c - 1]@));
                assert(alive@[c - 1] == spec_fold_one(
                    pre_alive[c - 1],
                    pre_tabs[c - 1],
                    c as nat,
                    fragment_selector,
                    text@,
                ).0);
                assert(tables_view(maps@)[c - 1] == spec_fold_one(
                    pre_alive[c - 1],
                    pre_tabs[c - 1],
                    c as nat,
                    fragment_selector,
                    text@,
                ).1);
            }
            c += 1;
        }
        proof {
            let folded = spec_fold_sample(pre_alive, pre_tabs, fragment_selector, text@);
            assert(alive@ =~= folded.0);
            assert forall|j: int| 0 <= j < 15 implies (#[trigger] tables_view(maps@)[j])
                == folded.1[j] by {
                assert(tables_view(maps@)[j] == spec_fold_one(
                    pre_alive[j],
                    pre_tabs[j],
                    (j + 1) as nat,
                    fragment_selector,
                    text@,
                ).1);
            }
            assert(tables_view(maps@) =~= folded.1);
            let entry = (sel_pos, text@);
            let new_hist = hist.push(entry);
            assert(spec_selector_history(p0, new_hist) =~= spec_selector_history(p0, hist).push(
                (p0.future(sel_pos), text@),
            ));
            assert(spec_selector_history(p0, new_hist).drop_last() =~= spec_selector_history(
                p0,
                hist,
            ));
            assert(spec_fold_history(spec_selector_history(p0, new_hist)) == folded);
            hist = new_hist;
            assert(phase_two_history_wf(p0, corruption_bound as nat, base_len as nat, hist)) by {
                assert forall|t: int| 0 <= t < hist.len() - 1 implies (#[trigger] hist[t]).0
                    < hist[t + 1].0 by {
                    if t < hist.len() - 2 {
                        assert(hist[t] == hist.drop_last()[t]);
                    }
                }
            }
        }
        // The winner scan, in increasing order: the first candidate that
        // every survivor is a complete multiple of is the count.
        let mut c2: usize = 1;
        while c2 <= 15
            invariant
                1 <= c2 <= 16,
                corruption_bound >= 2,
                base_len >= 2,
                alive@.len() == 15,
                maps@.len() == 15,
                forall|j: int| 0 <= j < maps@.len() ==> maps@[j]@.len() == j + 1,
                p0 == *old(predicted),
                phase_two_history_wf(p0, corruption_bound as nat, base_len as nat, hist),
                alive@ == spec_fold_history(spec_selector_history(p0, hist)).0,
                tables_view(maps@) == spec_fold_history(spec_selector_history(p0, hist)).1,
                forall|cc: nat|
                    1 <= cc < c2 ==> !spec_candidate_wins(alive@, tables_view(maps@), cc),
            decreases 16 - c2,
        {
            if candidate_wins(&alive, &maps, c2) {
                let res: Result<usize, DivineError> = Ok(c2);
                proof {
                    assert(p0 == *old(predicted));
                    assert(res matches Ok(n) ==> exists|h: Seq<(nat, Seq<u16>)>|
                        #[trigger] phase_two_measurement(
                            p0,
                            corruption_bound as nat,
                            base_len as nat,
                            h,
                            n as nat,
                        )) by {
                        assert(res matches Ok(n) ==> phase_two_measurement(
                            p0,
                            corruption_bound as nat,
                            base_len as nat,
                            hist,
                            n as nat,
                        ));
                    }
                }
                return res;
            }
            c2 += 1;
        }
    }
    Err(DivineError::Desync)
}

/// Whether every length interval has collapsed to a single point.
fn all_pinned(v: &Vec<(usize, usize)>) -> (r: bool)
    ensures
        r == (forall|i: int| 0 <= i < v@.len() ==> v@[i].0 == v@[i].1),
{
    let mut i: usize = 0;
    while i < v.len()
        invariant
            i <= v@.len(),
            forall|j: int| 0 <= j < i ==> v@[j].0 == v@[j].1,
        decreases v@.len() - i,
    {
        if v[i].0 != v[i].1 {
            return false;
        }
        i += 1;
    }
    true
}

/// The narrowed length interval after one single-corruption experiment that
/// put the corruption at `placement` and the fragment at the start. A
/// visible marker escaped the fragment, so its length is at most
/// `placement`; an invisible one was covered, so its length is at least
/// `placement + 1`.
pub fn narrow(lo: usize, hi: usize, placement: usize, visible: bool) -> (r: (usize, usize))
    requires
        lo <= placement < hi,
    ensures
        visible ==> r == (lo, placement),
        !visible ==> r.0 == placement + 1 && r.1 == hi,
{
    if visible {
        (lo, placement)
    } else {
        (placement + 1, hi)
    }
}

/// What one pinned fragment's record says of the predicted stream `p`: at
/// the record's position `pos`, the prediction floors to exactly one
/// corruption write; the prediction three later selects fragment `i`; the
/// prediction four later floors placement to the start of the base; the
/// corruption landed at the placement read one after `pos`, and the
/// fragment's length is that placement when a corruption symbol is visible
/// in the sample (the marker escaped) and one more when none is (the
/// fragment covered it); and the content is the sample's prefix of that
/// length.
pub open spec fn phase_three_record(
    p: RngState,
    corruption_bound: nat,
    base_len: nat,
    fragment_count: nat,
    i: nat,
    len: nat,
    content: Seq<u16>,
    pos: nat,
    sample: Seq<u16>,
) -> bool {
    &&& spec_rand_under(p.future(pos), corruption_bound) == 1
    &&& spec_rand_under(p.future(pos + 3), fragment_count) == i
    &&& spec_rand_under(p.future(pos + 4), (base_len - 1) as nat) == 0
    &&& {
        let placement = spec_rand_under(p.future(pos + 1), base_len);
        if exists|t: int| 0 <= t < sample.len() && #[trigger] is_corruption_symbol(sample[t]) {
            len == placement
        } else {
            len == placement + 1
        }
    }
    &&& len <= sample.len()
    &&& content == sample.take(len as int)
}

/// Every fragment of a recovered table is backed by a record at its entry
/// of the position and sample sequences: its content is the stated prefix
/// of a sample taken under the single-corruption measurement that
/// [`phase_three_record`] describes.
pub open spec fn phase_three_table(
    p: RngState,
    corruption_bound: nat,
    base_len: nat,
    fragment_count: nat,
    table: Seq<Vec<u16>>,
    poss: Seq<nat>,
    samples: Seq<Seq<u16>>,
) -> bool {
    &&& poss.len() >= table.len()
    &&& samples.len() >= table.len()
    &&& forall|i: int|
        #![trigger table[i]]
        0 <= i < table.len() ==> phase_three_record(
            p,
            corruption_bound,
            base_len,
            fragment_count,
            i as nat,
            table[i]@.len(),
            table[i]@,
            poss[i],
            samples[i],
        )
}

/// Phase 3: binary-search each fragment's length by moving a single
/// corruption symbol, then read the fragment's content off a sample whose
/// placement was forced to the start. Each fragment's interval `(lo, hi)`
/// satisfies `lo <= hi <= base length` throughout; when it collapses the
/// length is known and the content is the sample's prefix of that length.
/// On success, every returned fragment is backed by a record of its pinning
/// experiment measured on the predicted stream ([`phase_three_record`]).
pub fn divine_fragments<O: Oracle>(
    predicted: &mut RngState,
    env: &mut O,
    corruption_bound: usize,
    base_len: usize,
    fragment_count: usize,
) -> (r: Result<Vec<Vec<u16>>, DivineError>)
    requires
        corruption_bound >= 2,
        base_len >= 2,
        1 <= fragment_count <= 15,
    ensures
        r matches Ok(f) ==> f@.len() == fragment_count && forall|i: int|
            0 <= i < f@.len() ==> 1 <= (#[trigger] f@[i]@.len()) <= base_len,
        r matches Ok(f) ==> exists|poss: Seq<nat>, samples: Seq<Seq<u16>>|
            #[trigger] phase_three_table(
                *old(predicted),
                corruption_bound as nat,
                base_len as nat,
                fragment_count as nat,
                f@,
                poss,
                samples,
            ),
{
    let ghost p0 = *predicted;
    let ghost mut used: nat = 0;
    let ghost mut rec_pos: Seq<nat> = Seq::new(fragment_count as nat, |j: int| 0);
    let ghost mut rec_sample: Seq<Seq<u16>> = Seq::new(fragment_count as nat, |j: int| Seq::empty());
    let mut minmax: Vec<(usize, usize)> = Vec::new();
    let mut fragments: Vec<Vec<u16>> = Vec::new();
    let mut i: usize = 0;
    while i < fragment_count
        invariant
            i <= fragment_count,
            minmax@.len() == i,
            fragments@.len() == i,
            forall|j: int| 0 <= j < i ==> #[trigger] minmax@[j].0 <= minmax@[j].1 <= base_len,
            forall|j: int| 0 <= j < i ==> (#[trigger] fragments@[j]@.len()) <= base_len,
            forall|j: int| 0 <= j < i ==> (#[trigger] minmax@[j]) == (0usize, base_len),
        decreases fragment_count - i,
    {
        minmax.push((0, base_len));
        fragments.push(Vec::new());
        i += 1;
    }
    let mut fuel: u64 = DRAW_BUDGET;
    let mut done = all_pinned(&minmax);
    while !done && fuel > 0
        invariant
            minmax@.len() == fragment_count,
            fragments@.len() == fragment_count,
            1 <= fragment_count <= 15,
            2 <= corruption_bound,
            2 <= base_len,
            forall|j: int| 0 <= j < fragment_count ==> #[trigger] minmax@[j].0 <= minmax@[j].1 <= base_len,
            forall|j: int| 0 <= j < fragment_count ==> (#[trigger] fragments@[j]@.len()) <= base_len,
            forall|j: int|
                0 <= j < fragment_count && (#[trigger] minmax@[j]).0 == minmax@[j].1 ==> 1
                    <= minmax@[j].0 && fragments@[j]@.len() == minmax@[j].0,
            done ==> forall|j: int| 0 <= j < minmax@.len() ==> (#[trigger] minmax@[j]).0
                == minmax@[j].1,
            p0 == *old(predicted),
            forall|n: nat| (#[trigger] predicted.future(n)) == p0.future(n + used),
            rec_pos.len() == fragment_count,
            rec_sample.len() == fragment_count,
            forall|j: int|
                0 <= j < fragment_count && (#[trigger] minmax@[j]).0 == minmax@[j].1
                    ==> phase_three_record(
                    p0,
                    corruption_bound as nat,
                    base_len as nat,
                    fragment_count as nat,
                    j as nat,
                    minmax@[j].0 as nat,
                    fragments@[j]@,
                    rec_pos[j],
                    rec_sample[j],
                ),
        decreases fuel,
    {
        fuel -= 1;
        // Force exactly one corruption: the first oracle draw must floor to 1.
        let ghost pos_v = used;
        let v = predicted.next_random();
        proof {
            used = used + 1;
            assert(v == p0.future(pos_v));
        }
        if rand_under(v, corruption_bound) != 1 {
            spin_random(env, 1);
            continue;
        }
        // Where the single corruption symbol will land.
        let dp = predicted.next_random();
        proof {
            used = used + 1;
            assert(dp == p0.future(pos_v + 1));
        }
        let placement = rand_under(dp, base_len);
        // Which symbol it is does not matter to the search.
        let _symbol = predicted.next_random();
        proof {
            used = used + 1;
        }
        // Which fragment the oracle will overlay.
        let df = predicted.next_random();
        proof {
            used = used + 1;
            assert(df == p0.future(pos_v + 3));
        }
        let fragment_index = rand_under(df, fragment_count);
        let lo = minmax[fragment_index].0;
        let hi = minmax[fragment_index].1;
        // Skip experiments that cannot narrow the fragment's interval.
        if !(lo <= placement && placement < hi) {
            spin_random(env, 4);
            continue;
        }
        // Force placement of the fragment at the start of the base.
        let v5 = predicted.next_random();
        proof {
            used = used + 1;
            assert(v5 == p0.future(pos_v + 4));
        }
        if rand_under(v5, base_len - 1) != 0 {
            spin_random(env, 5);
            continue;
        }
        let text = env.target();
        let visible = contains_corruption(&text);
        let bounds = narrow(lo, hi, placement, visible);
        minmax[fragment_index] = bounds;
        if bounds.0 == bounds.1 {
            // A conforming oracle's fragments are at least one symbol long
            // and fill a whole sample's prefix; anything else is a desync.
            if bounds.0 == 0 || text.len() < bounds.0 {
                return Err(DivineError::Desync);
            }
            fragments[fragment_index] = prefix(&text, bounds.0);
            proof {
                rec_pos = rec_pos.update(fragment_index as int, pos_v);
                rec_sample = rec_sample.update(fragment_index as int, text@);
                assert(fragments@[fragment_index as int]@ =~= text@.take(bounds.0 as int));
                assert(phase_three_record(
                    p0,
                    corruption_bound as nat,
                    base_len as nat,
                    fragment_count as nat,
                    fragment_index as nat,
                    bounds.0 as nat,
                    fragments@[fragment_index as int]@,
                    pos_v,
                    text@,
                ));
            }
        }
        done = all_pinned(&minmax);
    }
    if !done {
        return Err(DivineError::Desync);
    }
    proof {
        assert forall|i: int| 0 <= i < fragments@.len() implies 1 <= (#[trigger] fragments@[i]@.len())
            <= base_len by {
            assert(minmax@[i].0 == minmax@[i].1);
        }
    }
    let ghost out_view = fragments@;
    proof {
        assert forall|i: int|
            #![trigger out_view[i]]
            0 <= i < out_view.len() implies phase_three_record(
            p0,
            corruption_bound as nat,
            base_len as nat,
            fragment_count as nat,
            i as nat,
            out_view[i]@.len(),
            out_view[i]@,
            rec_pos[i],
            rec_sample[i],
        ) by {
            assert(minmax@[i].0 == minmax@[i].1);
            assert(out_view[i]@.len() == minmax@[i].0);
            assert(phase_three_record(
                p0,
                corruption_bound as nat,
                base_len as nat,
                fragment_count as nat,
                i as nat,
                minmax@[i].0 as nat,
                out_view[i]@,
                rec_pos[i],
                rec_sample[i],
            ));
        }
        assert(phase_three_table(
            p0,
            corruption_bound as nat,
            base_len as nat,
            fragment_count as nat,
            out_view,
            rec_pos,
            rec_sample,
        ));
    }
    let res: Result<Vec<Vec<u16>>, DivineError> = Ok(fragments);
    proof {
        assert(res matches Ok(f) ==> exists|poss: Seq<nat>, samples: Seq<Seq<u16>>|
            #[trigger] phase_three_table(
                p0,
                corruption_bound as nat,
                base_len as nat,
                fragment_count as nat,
                f@,
                poss,
                samples,
            )) by {
            assert(res matches Ok(f) ==> phase_three_table(
                p0,
                corruption_bound as nat,
                base_len as nat,
                fragment_count as nat,
                f@,
                rec_pos,
                rec_sample,
            ));
        }
    }
    res
}

/// Recover every fragment hidden in the oracle: lock onto the shared
/// stream, measure the corruption bound and the base length, infer the
/// fragment count, and extract each fragment's content, in that order.
pub fn divine<O: Oracle>(env: &mut O) -> (r: Result<Vec<Vec<u16>>, DivineError>)
    ensures
        r matches Ok(f) ==> 1 <= f@.len() <= 15,
        r matches Ok(f) ==> forall|i: int| 0 <= i < f@.len() ==> 1 <= (#[trigger] f@[i]@.len()),
{
    let mut predicted = match RngState::lock_random(env) {
        Ok(p) => p,
        Err(e) => {
            return Err(e);
        },
    };
    let params = match divine_corruption_bound_and_base_len(&mut predicted, env) {
        Ok(p) => p,
        Err(e) => {
            return Err(e);
        },
    };
    let corruption_bound = params.0;
    let base_len = params.1;
    // A base of fewer than two symbols admits no placement steering.
    if base_len < 2 {
        return Err(DivineError::Desync);
    }
    let fragment_count = match divine_fragment_count(&mut predicted, env, corruption_bound, base_len) {
        Ok(n) => n,
        Err(e) => {
            return Err(e);
        },
    };
    divine_fragments(&mut predicted, env, corruption_bound, base_len, fragment_count)
}

} // verus!
