//! Which positions are believed, and which receivers are left out.

use crate::coordinates::{EcefPoint, GeodeticPoint};
use crate::scalar::{lemma_units, one, Scalar};
use vstd::arithmetic::power2::{lemma2_to64, lemma2_to64_rest, lemma_pow2_adds, lemma_pow2_pos, pow2};
use vstd::prelude::*;

verus! {

/// Eight metres: up to this residual all receivers are believed.
pub const GOOD_RMS: u64 = 0x4020_0000_0000_0000;

/// 999 metres: the residual that a first subset must undercut where all receivers together
/// have no solution.
pub const NO_RMS: u64 = 0x408f_3800_0000_0000;

/// 18 metres: the largest residual of a solution.
pub const MAX_RMS: u64 = 18;

/// 99: the dilution of a geometry that has none.
pub const NO_GDOP: u64 = 0x4058_c000_0000_0000;

/// Twelve: the largest dilution where no other is asked for.
pub const DEFAULT_MAX_GDOP: u64 = 0x4028_0000_0000_0000;

/// Eight and a half: the largest dilution of a position that is offered.
pub const OFFERED_MAX_GDOP: u64 = 0x4021_0000_0000_0000;

/// Farther than 450 km a receiver hears nothing, in metres.
pub const RADIO_HORIZON: u64 = 450_000;

/// The largest descent is this many steps long.
pub const MAX_ITERATIONS: usize = 40;

/// -500 metres.
pub const LOWEST: u64 = 0xc07f_4000_0000_0000;

/// 20 000 metres.
pub const HIGHEST_GUESS: u64 = 0x40d3_8800_0000_0000;

/// One ten-thousandth.
pub const SMALL_DROP: u64 = 0x3f1a_36e2_eb1c_432d;

/// When a receiver heard a frame, by the clock that all times were brought to.
#[derive(Clone, Copy, Debug, PartialEq, Eq, Structural)]
pub struct Measurement {
    pub receiver_ecef: EcefPoint,
    pub timestamp_sec: Scalar,
    pub variance: Scalar,
}

/// A position and how far it can be trusted.
#[derive(Clone, Copy, Debug, PartialEq, Eq, Structural)]
pub struct SolverSolution {
    pub position_ecef: EcefPoint,
    pub position_geodetic: GeodeticPoint,
    pub offset_meters: Scalar,
    pub gdop: Scalar,
    pub residual_rms: Scalar,
}

/// Where a descent has ended.
#[derive(Debug)]
pub struct Descent {
    pub position_ecef: EcefPoint,
    pub position_geodetic: GeodeticPoint,
    pub offset_meters: Scalar,
    /// The distance to each receiver, in metres.
    pub distances: Vec<Scalar>,
    /// The trace of the inverse of the geometry, and its square root, where there is one.
    pub dilution: Option<(Scalar, Scalar)>,
    pub residual_rms: Scalar,
}

/// A step that a descent tries: the cost before and after it, its length in metres, and by
/// how much the cost drops.
#[derive(Clone, Copy, Debug, PartialEq, Eq, Structural)]
pub struct Trial {
    pub cost: Scalar,
    pub new_cost: Scalar,
    pub step_norm: Scalar,
    pub cost_drop: Scalar,
}

/// What becomes of the damping of a descent.
#[derive(Clone, Copy, Debug, PartialEq, Eq, Structural)]
pub enum Damping {
    /// The step is taken, and the damping halved, down to 0.00001.
    Relax,
    /// The step is not taken, and the damping tripled, up to 100 000.
    Tighten,
    /// There was no step; the damping is made four times as large.
    Escape,
}

/// The fewest receivers that determine a position.
pub open spec fn fewest(has_alt: bool) -> int {
    if has_alt {
        3
    } else {
        4
    }
}

/// Whether so many receivers determine a position.
pub fn enough_receivers(n: usize, has_alt: bool) -> (r: bool)
    ensures
        r == (n >= fewest(has_alt)),
        r == (n >= 4 || (n == 3 && has_alt)),
{
    !(n < 3 || (!has_alt && n < 4))
}

/// A distance within the radio horizon.
pub open spec fn in_horizon(distance: Scalar) -> bool {
    !distance.is_nan() && !distance.above(RADIO_HORIZON as int, 1)
}

/// Whether a distance, in metres, is within the radio horizon.
pub fn within_horizon(distance: Scalar) -> (r: bool)
    ensures
        r == in_horizon(distance),
{
    !distance.nan() && !distance.exceeds(RADIO_HORIZON, 1)
}

/// What a step does to the damping.
pub open spec fn damping(trial: Option<Trial>) -> Damping {
    match trial {
        Some(t) => if t.new_cost.less(t.cost) {
            Damping::Relax
        } else {
            Damping::Tighten
        },
        None => Damping::Escape,
    }
}

/// A step that was taken is the last one: short, or hardly better.
pub open spec fn converged(iteration: int, trial: Option<Trial>) -> bool {
    match trial {
        Some(t) => {
            &&& t.new_cost.less(t.cost)
            &&& iteration >= 3
            &&& t.step_norm.beneath(1, 2) || t.cost_drop.less(Scalar { bits: SMALL_DROP })
        },
        None => false,
    }
}

/// What a step does to the damping, and whether another step follows.
pub fn steer(iteration: usize, trial: Option<Trial>) -> (r: (Damping, bool))
    ensures
        r.0 == damping(trial),
        r.1 == (!converged(iteration as int, trial) && iteration + 1 < MAX_ITERATIONS),
        iteration >= 39 ==> !r.1,
        iteration < 3 ==> r.1,
        iteration < 39 && r.0 != Damping::Relax ==> r.1,
{
    let more: bool = iteration < MAX_ITERATIONS - 1;
    match trial {
        Some(t) => {
            if t.new_cost.lt(t.cost) {
                let last: bool = iteration >= 3 && (t.step_norm.falls_below(1, 2)
                    || t.cost_drop.lt(Scalar::new(SMALL_DROP)));
                (Damping::Relax, more && !last)
            } else {
                (Damping::Tighten, more)
            }
        },
        None => (Damping::Escape, more),
    }
}

/// The height that a descent starts from: the one guessed, within bounds.
pub fn starting_altitude(guessed: Scalar) -> (r: Scalar)
    ensures
        r == (if guessed.less(Scalar { bits: LOWEST }) {
            Scalar { bits: LOWEST }
        } else if (Scalar { bits: HIGHEST_GUESS }).less(guessed) {
            Scalar { bits: HIGHEST_GUESS }
        } else {
            guessed
        }),
        !guessed.is_nan() ==> -500 * one() <= r.units() <= 20_000 * one(),
        -500 * one() <= guessed.units() <= 20_000 * one() ==> r == guessed,
        !guessed.is_nan() && guessed.units() < -500 * one() ==> r.units() == -500 * one(),
        !guessed.is_nan() && guessed.units() > 20_000 * one() ==> r.units() == 20_000 * one(),
{
    proof {
        law_limits_in_numbers();
        lemma_pow2_pos(1074);
    }
    let lowest: Scalar = Scalar::new(LOWEST);
    let highest: Scalar = Scalar::new(HIGHEST_GUESS);
    if guessed.lt(lowest) {
        lowest
    } else if highest.lt(guessed) {
        highest
    } else {
        guessed
    }
}

/// The dilution of a geometry.
pub open spec fn gdop_of(dilution: Option<(Scalar, Scalar)>) -> Scalar {
    match dilution {
        Some((trace, root)) => if trace.above(0, 1) {
            root
        } else {
            Scalar { bits: NO_GDOP }
        },
        None => Scalar { bits: NO_GDOP },
    }
}

/// The place is one where an aircraft can be.
pub open spec fn is_plausible(d: Descent) -> bool {
    let p = d.position_geodetic;
    &&& !d.offset_meters.opposite().above(5_000, 1)
    &&& !d.offset_meters.above(600_000, 1)
    &&& forall|i: int|
        0 <= i < d.distances@.len() ==> !(#[trigger] d.distances@[i]).above(
            RADIO_HORIZON as int,
            1,
        )
    &&& !p.lat.opposite().above(85, 1)
    &&& !p.lat.above(85, 1)
    &&& !p.alt.opposite().above(500, 1)
    &&& !p.alt.above(25_000, 1)
}

/// What is found where a descent has ended.
pub open spec fn found(d: Descent) -> SolverSolution {
    SolverSolution {
        position_ecef: d.position_ecef,
        position_geodetic: d.position_geodetic,
        offset_meters: d.offset_meters,
        gdop: gdop_of(d.dilution),
        residual_rms: d.residual_rms,
    }
}

/// The end of a descent over `n` measurements is believed.
pub open spec fn is_accepted(n: int, has_alt: bool, d: Descent, max_gdop: Option<Scalar>) -> bool {
    let most = match max_gdop {
        Some(g) => g,
        None => Scalar { bits: DEFAULT_MAX_GDOP },
    };
    &&& n >= fewest(has_alt)
    &&& d.distances@.len() >= n
    &&& is_plausible(d)
    &&& !most.less(gdop_of(d.dilution))
    &&& !d.residual_rms.above(MAX_RMS as int, 1)
}

/// A list without one of its items.
pub open spec fn without(ms: Seq<Measurement>, skip: int) -> Seq<Measurement> {
    ms.take(skip) + ms.skip(skip + 1)
}

/// The measurements but one.
pub fn leave_one_out(ms: &Vec<Measurement>, skip: usize) -> (r: Vec<Measurement>)
    requires
        skip < ms@.len(),
    ensures
        r@ == without(ms@, skip as int),
{
    let mut r: Vec<Measurement> = Vec::new();
    let mut i: usize = 0;
    while i < ms.len()
        invariant
            i <= ms@.len(),
            skip < ms@.len(),
            r@ =~= (if i <= skip {
                ms@.take(i as int)
            } else {
                ms@.take(skip as int) + ms@.subrange(skip + 1, i as int)
            }),
        decreases ms@.len() - i,
    {
        if i != skip {
            r.push(ms[i]);
        }
        i += 1;
    }
    assert(ms@.subrange(skip + 1, ms@.len() as int) =~= ms@.skip(skip + 1));
    r
}

/// All receivers together have a good solution.
pub open spec fn is_good(full: Option<SolverSolution>) -> bool {
    full matches Some(s) && s.residual_rms.at_most(Scalar { bits: GOOD_RMS })
}

/// One receiver can be left out and the others still check each other.
pub open spec fn has_redundancy(n: int, has_alt: bool) -> bool {
    n > fewest(has_alt) + 1
}

/// Each receiver is left out in turn.
pub open spec fn is_pruned(n: int, has_alt: bool, full: Option<SolverSolution>) -> bool {
    !is_good(full) && has_redundancy(n, has_alt)
}

/// What a subset must undercut.
pub open spec fn rms_to_beat(full: Option<SolverSolution>) -> Scalar {
    match full {
        Some(s) => s.residual_rms,
        None => Scalar { bits: NO_RMS },
    }
}

/// The first of the subsets whose residual is the smallest, where one undercuts `start`.
pub open spec fn best_subset(start: Scalar, subsets: Seq<Option<SolverSolution>>) -> Option<int>
    decreases subsets.len(),
{
    if subsets.len() == 0 {
        None
    } else {
        let before = best_subset(start, subsets.drop_last());
        let limit = match before {
            Some(i) => subsets[i]->Some_0.residual_rms,
            None => start,
        };
        match subsets.last() {
            Some(s) => if s.residual_rms.less(limit) {
                Some(subsets.len() - 1)
            } else {
                before
            },
            None => before,
        }
    }
}

/// The subset is preferred: there is nothing else, or its residual is at least 35 percent
/// smaller.
pub open spec fn is_preferred(subset: SolverSolution, full: Option<SolverSolution>) -> bool {
    match full {
        Some(s) => subset.residual_rms.scaled_less(20, s.residual_rms, 13),
        None => true,
    }
}

/// The solution that is taken, of that with all receivers and those with each left out.
pub open spec fn selected(
    n: int,
    has_alt: bool,
    full: Option<SolverSolution>,
    subsets: Seq<Option<SolverSolution>>,
) -> Option<SolverSolution> {
    if is_pruned(n, has_alt, full) {
        match best_subset(rms_to_beat(full), subsets) {
            Some(i) => if is_preferred(subsets[i]->Some_0, full) {
                subsets[i]
            } else {
                full
            },
            None => full,
        }
    } else {
        full
    }
}

/// A descent over measurements can end in a result.
pub open spec fn gives<F: Fn(&Vec<Measurement>) -> Option<SolverSolution>>(
    raw: F,
    ms: Seq<Measurement>,
    r: Option<SolverSolution>,
) -> bool {
    exists|v: &Vec<Measurement>| v@ == ms && #[trigger] call_ensures(raw, (v,), r)
}

/// The results are those of all measurements, and of all but each where one can be left out.
pub open spec fn are_results<F: Fn(&Vec<Measurement>) -> Option<SolverSolution>>(
    raw: F,
    ms: Seq<Measurement>,
    has_alt: bool,
    full: Option<SolverSolution>,
    subsets: Seq<Option<SolverSolution>>,
) -> bool {
    &&& gives(raw, ms, full)
    &&& subsets.len() == (if is_pruned(ms.len() as int, has_alt, full) {
        ms.len()
    } else {
        0
    })
    &&& forall|i: int| 0 <= i < subsets.len() ==> gives(raw, without(ms, i), #[trigger] subsets[i])
}

/// Finds positions.
#[derive(Clone, Copy, Debug, PartialEq, Eq, Structural)]
pub struct ExactSolver {}

impl Default for ExactSolver {
    fn default() -> (s: ExactSolver)
        ensures
            s == (ExactSolver {  }),
    {
        ExactSolver::new()
    }
}

impl ExactSolver {
    pub fn new() -> (s: ExactSolver)
        ensures
            s == (ExactSolver {  }),
    {
        ExactSolver {  }
    }

    /// The position that measurements give, where `raw` is the descent over measurements.
    /// Where all receivers together have no good solution and there are enough of them, each
    /// is left out in turn, so that one with a bad clock does not spoil the position.
    pub fn solve<F: Fn(&Vec<Measurement>) -> Option<SolverSolution>>(
        &self,
        measurements: &Vec<Measurement>,
        has_alt: bool,
        raw: F,
    ) -> (r: Option<SolverSolution>)
        requires
            forall|v: &Vec<Measurement>| #[trigger] call_requires(raw, (v,)),
        ensures
            measurements@.len() < fewest(has_alt) ==> r is None,
            measurements@.len() >= fewest(has_alt) ==> exists|
                full: Option<SolverSolution>,
                subsets: Seq<Option<SolverSolution>>,
            | #[trigger]
                are_results(raw, measurements@, has_alt, full, subsets) && r == selected(
                    measurements@.len() as int,
                    has_alt,
                    full,
                    subsets,
                ),
    {
        let n: usize = measurements.len();
        if !enough_receivers(n, has_alt) {
            return None;
        }
        let full: Option<SolverSolution> = raw(measurements);
        assert(gives(raw, measurements@, full));
        let good: bool = match full {
            Some(s) => s.residual_rms.le(Scalar::new(GOOD_RMS)),
            None => false,
        };
        let smallest: usize = if has_alt {
            4
        } else {
            5
        };
        if good || n <= smallest {
            assert(are_results(raw, measurements@, has_alt, full, Seq::empty()));
            return full;
        }
        let ghost mut subsets = Seq::<Option<SolverSolution>>::empty();
        let mut best: Option<SolverSolution> = None;
        let start: Scalar = match full {
            Some(s) => s.residual_rms,
            None => Scalar::new(NO_RMS),
        };
        let mut limit: Scalar = start;
        let mut skip: usize = 0;
        while skip < n
            invariant
                skip <= n,
                n == measurements@.len(),
                forall|v: &Vec<Measurement>| #[trigger] call_requires(raw, (v,)),
                subsets.len() == skip,
                forall|i: int|
                    0 <= i < subsets.len() ==> gives(
                        raw,
                        without(measurements@, i),
                        #[trigger] subsets[i],
                    ),
                match best_subset(start, subsets) {
                    Some(i) => {
                        &&& 0 <= i < subsets.len()
                        &&& subsets[i] is Some
                        &&& best == subsets[i]
                        &&& limit == subsets[i]->Some_0.residual_rms
                    },
                    None => best is None && limit == start,
                },
            decreases n - skip,
        {
            let subset: Vec<Measurement> = leave_one_out(measurements, skip);
            let solution: Option<SolverSolution> = raw(&subset);
            let ghost before = subsets;
            proof {
                assert(gives(raw, without(measurements@, skip as int), solution));
                subsets = subsets.push(solution);
                assert(subsets.drop_last() =~= before);
            }
            if let Some(s) = solution {
                if s.residual_rms.lt(limit) {
                    limit = s.residual_rms;
                    best = Some(s);
                }
            }
            skip += 1;
        }
        assert(are_results(raw, measurements@, has_alt, full, subsets));
        match best {
            Some(s) => {
                let preferred: bool = match full {
                    Some(f) => s.residual_rms.scaled_lt(20, f.residual_rms, 13),
                    None => true,
                };
                if preferred {
                    Some(s)
                } else {
                    full
                }
            },
            None => full,
        }
    }

    /// The solution at the end of a descent, where it is believed.
    pub fn solve_raw(&self, n: usize, has_alt: bool, d: &Descent, max_gdop: Option<Scalar>) -> (r:
        Option<SolverSolution>)
        ensures
            r == (if is_accepted(n as int, has_alt, *d, max_gdop) {
                Some(found(*d))
            } else {
                None
            }),
            n >= 4 && is_accepted(n as int, true, *d, max_gdop) ==> r is Some,
            is_accepted(n as int, has_alt, *d, max_gdop) ==> r is Some,
            n < 3 ==> r is None,
            r matches Some(s) ==> s.position_ecef == d.position_ecef && s.position_geodetic
                == d.position_geodetic && s.offset_meters == d.offset_meters && s.residual_rms
                == d.residual_rms,
    {
        if !enough_receivers(n, has_alt) || d.distances.len() < n {
            return None;
        }
        if d.offset_meters.negated().exceeds(5_000, 1) || d.offset_meters.exceeds(600_000, 1) {
            return None;
        }
        let mut i: usize = 0;
        while i < d.distances.len()
            invariant
                i <= d.distances@.len(),
                forall|j: int|
                    0 <= j < i ==> !(#[trigger] d.distances@[j]).above(RADIO_HORIZON as int, 1),
            decreases d.distances@.len() - i,
        {
            if d.distances[i].exceeds(RADIO_HORIZON, 1) {
                return None;
            }
            i += 1;
        }
        let p: GeodeticPoint = d.position_geodetic;
        if p.lat.negated().exceeds(85, 1) || p.lat.exceeds(85, 1) || p.alt.negated().exceeds(500, 1)
            || p.alt.exceeds(25_000, 1) {
            return None;
        }
        let gdop: Scalar = match d.dilution {
            Some((trace, root)) => if trace.exceeds(0, 1) {
                root
            } else {
                Scalar::new(NO_GDOP)
            },
            None => Scalar::new(NO_GDOP),
        };
        let most: Scalar = match max_gdop {
            Some(g) => g,
            None => Scalar::new(DEFAULT_MAX_GDOP),
        };
        if most.lt(gdop) || d.residual_rms.exceeds(MAX_RMS, 1) {
            return None;
        }
        Some(
            SolverSolution {
                position_ecef: d.position_ecef,
                position_geodetic: d.position_geodetic,
                offset_meters: d.offset_meters,
                gdop,
                residual_rms: d.residual_rms,
            },
        )
    }
}

/// The subset that is best has the smallest residual of all, and undercuts `start`.
pub proof fn law_best_subset_is_smallest(
    start: Scalar,
    subsets: Seq<Option<SolverSolution>>,
    j: int,
)
    requires
        0 <= j < subsets.len(),
    ensures
        match best_subset(start, subsets) {
            Some(i) => {
                &&& 0 <= i < subsets.len()
                &&& subsets[i] is Some
                &&& subsets[i]->Some_0.residual_rms.less(start)
                &&& subsets[j] matches Some(s) ==> !s.residual_rms.less(
                    subsets[i]->Some_0.residual_rms,
                )
            },
            None => subsets[j] matches Some(s) ==> !s.residual_rms.less(start),
        },
    decreases subsets.len(),
{
    if subsets.len() > 1 {
        let before = subsets.drop_last();
        if j < before.len() {
            law_best_subset_is_smallest(start, before, j);
        } else {
            law_best_subset_is_smallest(start, before, 0);
        }
    } else {
        assert(best_subset(start, subsets.drop_last()) is None);
    }
}

/// Four receivers with a known altitude are never cut down to three.
pub proof fn law_four_with_altitude_never_pruned(
    full: Option<SolverSolution>,
    subsets: Seq<Option<SolverSolution>>,
)
    ensures
        selected(4, true, full, subsets) == full,
{
}

/// A receiver is left out only where the others are one more than the fewest that determine
/// a position.
pub proof fn law_pruning_keeps_redundancy(n: int, has_alt: bool, full: Option<SolverSolution>)
    requires
        is_pruned(n, has_alt, full),
    ensures
        n - 1 > fewest(has_alt),
{
}

/// Where all receivers together have a good solution, it is taken.
pub proof fn law_good_solution_is_taken(
    n: int,
    has_alt: bool,
    full: Option<SolverSolution>,
    subsets: Seq<Option<SolverSolution>>,
)
    requires
        is_good(full),
    ensures
        selected(n, has_alt, full, subsets) == full,
{
}

/// Leaving receivers out never makes the residual larger.
pub proof fn law_pruning_never_worsens(
    n: int,
    has_alt: bool,
    full: SolverSolution,
    subsets: Seq<Option<SolverSolution>>,
)
    requires
        subsets.len() == n,
    ensures
        selected(n, has_alt, Some(full), subsets) matches Some(s) && (s == full
            || s.residual_rms.less(full.residual_rms)),
{
    if is_pruned(n, has_alt, Some(full)) {
        law_best_subset_is_smallest(full.residual_rms, subsets, 0);
    }
}

/// What the limits are worth: 8, 999, 99, 12, 8.5, -500 and 20 000.
pub proof fn law_limits_in_numbers()
    ensures
        (Scalar { bits: GOOD_RMS }).units() == 8 * one(),
        (Scalar { bits: NO_RMS }).units() == 999 * one(),
        (Scalar { bits: NO_GDOP }).units() == 99 * one(),
        (Scalar { bits: DEFAULT_MAX_GDOP }).units() == 12 * one(),
        2 * (Scalar { bits: OFFERED_MAX_GDOP }).units() == 17 * one(),
        (Scalar { bits: LOWEST }).units() == -500 * one(),
        (Scalar { bits: HIGHEST_GUESS }).units() == 20_000 * one(),
        1_000_000_000_000 * (Scalar { bits: SMALL_DROP }).units() <= 100_000_001 * one(),
        1_000_000_000_000 * (Scalar { bits: SMALL_DROP }).units() >= 99_999_999 * one(),
{
    lemma2_to64();
    lemma2_to64_rest();
    lemma_units(GOOD_RMS as int, 0x10000000000000, 0x2000000000000);
    lemma_units(NO_RMS as int, 0x1f380000000000, 0x80000000000);
    lemma_units(NO_GDOP as int, 0x18c00000000000, 0x400000000000);
    lemma_units(DEFAULT_MAX_GDOP as int, 0x18000000000000, 0x2000000000000);
    lemma_units(OFFERED_MAX_GDOP as int, 0x11000000000000, 0x2000000000000);
    lemma_units(LOWEST - 0x8000_0000_0000_0000, 0x1f400000000000, 0x100000000000);
    lemma_units(HIGHEST_GUESS as int, 0x13880000000000, 0x4000000000);
    lemma_pow2_adds(64, 2);
    lemma_units(SMALL_DROP as int, 0x1a36e2eb1c432d, 0x40000000000000000);
}

/// From four receivers on it makes no difference to what is believed whether an altitude is
/// known; three are enough with one, and never without; and beyond the fewest their number makes
/// no difference.
pub proof fn law_altitude_only_saves_a_receiver(
    n: int,
    m: int,
    d: Descent,
    max_gdop: Option<Scalar>,
)
    ensures
        n >= 4 ==> is_accepted(n, true, d, max_gdop) == is_accepted(n, false, d, max_gdop),
        n < 4 ==> !is_accepted(n, false, d, max_gdop),
        n < 3 ==> !is_accepted(n, true, d, max_gdop),
        n >= 3 && m >= 3 && d.distances@.len() >= n && d.distances@.len() >= m ==> is_accepted(
            n,
            true,
            d,
            max_gdop,
        ) == is_accepted(m, true, d, max_gdop),
{
}

/// The end of a descent is believed, and given as it is, wherever three receivers with a known
/// altitude or four without one saw it from no farther than 450 km, the offset is from -5 to 600
/// km, the latitude within 85 degrees, the altitude from -500 to 25 000 m, the dilution no more
/// than asked for, or than twelve, and the residual no more than 18 m.
pub proof fn law_plausible_descent_is_believed(
    n: int,
    has_alt: bool,
    d: Descent,
    max_gdop: Option<Scalar>,
    root: Scalar,
)
    requires
        n >= 4 || (n == 3 && has_alt),
        d.distances@.len() >= n,
        -5_000 * one() <= d.offset_meters.units() <= 600_000 * one(),
        forall|i: int|
            0 <= i < d.distances@.len() ==> (#[trigger] d.distances@[i]).units() <= 450_000 * one(),
        -85 * one() <= d.position_geodetic.lat.units() <= 85 * one(),
        -500 * one() <= d.position_geodetic.alt.units() <= 25_000 * one(),
        d.dilution matches Some((trace, r)) && !trace.is_nan() && trace.units() > 0 && r == root,
        max_gdop matches Some(g) ==> root.units() <= g.units(),
        max_gdop is None ==> root.units() <= 12 * one(),
        d.residual_rms.units() <= 18 * one(),
    ensures
        is_accepted(n, has_alt, d, max_gdop),
        found(d).position_ecef == d.position_ecef,
        found(d).position_geodetic == d.position_geodetic,
        found(d).offset_meters == d.offset_meters,
        found(d).residual_rms == d.residual_rms,
        found(d).gdop == root,
{
    law_limits_in_numbers();
}

/// A descent that ended where no aircraft can be, or that does not fit what was measured, is
/// refused, each for itself.
pub proof fn law_implausible_descent_is_refused(
    n: int,
    has_alt: bool,
    d: Descent,
    max_gdop: Option<Scalar>,
    i: int,
)
    requires
        !d.offset_meters.is_nan(),
        !d.position_geodetic.lat.is_nan(),
        !d.position_geodetic.alt.is_nan(),
        !d.residual_rms.is_nan(),
        d.dilution matches Some((trace, root)) ==> !trace.is_nan() && !root.is_nan(),
        max_gdop matches Some(g) ==> !g.is_nan(),
        0 <= i < d.distances@.len(),
        !d.distances@[i].is_nan(),
    ensures
        d.offset_meters.units() < -5_000 * one() || d.offset_meters.units() > 600_000 * one()
            ==> !is_accepted(n, has_alt, d, max_gdop),
        d.distances@[i].units() > 450_000 * one() ==> !is_accepted(n, has_alt, d, max_gdop),
        d.position_geodetic.lat.units() < -85 * one() || d.position_geodetic.lat.units() > 85
            * one() ==> !is_accepted(n, has_alt, d, max_gdop),
        d.position_geodetic.alt.units() < -500 * one() || d.position_geodetic.alt.units() > 25_000
            * one() ==> !is_accepted(n, has_alt, d, max_gdop),
        d.residual_rms.units() > 18 * one() ==> !is_accepted(n, has_alt, d, max_gdop),
        d.dilution matches Some((trace, root)) ==> trace.units() > 0 && (match max_gdop {
            Some(g) => root.units() > g.units(),
            None => root.units() > 12 * one(),
        }) ==> !is_accepted(n, has_alt, d, max_gdop),
        (d.dilution is None || d.dilution->Some_0.0.units() <= 0) && (match max_gdop {
            Some(g) => g.units() < 99 * one(),
            None => true,
        }) ==> !is_accepted(n, has_alt, d, max_gdop),
        d.distances@.len() < n ==> !is_accepted(n, has_alt, d, max_gdop),
{
    law_limits_in_numbers();
    lemma_pow2_pos(1074);
}

/// A dilution that is asked for with more room refuses nothing that one with less room lets
/// pass.
pub proof fn law_wider_limit_refuses_no_more(
    n: int,
    has_alt: bool,
    d: Descent,
    tight: Scalar,
    wide: Scalar,
)
    requires
        tight.at_most(wide),
        is_accepted(n, has_alt, d, Some(tight)),
    ensures
        is_accepted(n, has_alt, d, Some(wide)),
{
}

/// With four receivers and an altitude, with five and none, or with a residual of no more than
/// 8 m of all of them, the solution of all of them is the one.
pub proof fn law_all_receivers_are_kept(
    n: int,
    has_alt: bool,
    full: Option<SolverSolution>,
    subsets: Seq<Option<SolverSolution>>,
)
    ensures
        has_alt && n <= 4 ==> selected(n, has_alt, full, subsets) == full,
        n <= 5 && !has_alt ==> selected(n, has_alt, full, subsets) == full,
        full matches Some(s) ==> !s.residual_rms.is_nan() && s.residual_rms.units() <= 8 * one()
            ==> selected(n, has_alt, full, subsets) == full,
{
    law_limits_in_numbers();
}

/// Where the residual of all receivers is above 8 m, or there is no solution of all of them, and
/// one more than enough are there, the first subset with the smallest residual is taken: where
/// all of them had none if it is below 999 m, else if it is below 65 percent of theirs.
pub proof fn law_bad_receiver_is_left_out(
    n: int,
    has_alt: bool,
    full: Option<SolverSolution>,
    subsets: Seq<Option<SolverSolution>>,
    i: int,
)
    requires
        has_alt ==> n >= 5,
        !has_alt ==> n >= 6,
        0 <= i < subsets.len(),
        subsets[i] is Some,
        !subsets[i]->Some_0.residual_rms.is_nan(),
        !subsets[i]->Some_0.residual_rms.is_infinite(),
        subsets[i]->Some_0.residual_rms.units() >= 0,
        forall|j: int|
            0 <= j < subsets.len() && j != i ==> (#[trigger] subsets[j] matches Some(s)
                ==> !s.residual_rms.is_nan() && s.residual_rms.units()
                > subsets[i]->Some_0.residual_rms.units()),
        full matches Some(s) ==> !s.residual_rms.is_nan() && !s.residual_rms.is_infinite()
            && s.residual_rms.units() > 8 * one(),
    ensures
        full is None && subsets[i]->Some_0.residual_rms.units() < 999 * one() ==> selected(
            n,
            has_alt,
            full,
            subsets,
        ) == subsets[i],
        full is None && subsets[i]->Some_0.residual_rms.units() >= 999 * one() ==> selected(
            n,
            has_alt,
            full,
            subsets,
        ) is None,
        full matches Some(s) ==> 100 * subsets[i]->Some_0.residual_rms.units() < 65
            * s.residual_rms.units() ==> selected(n, has_alt, full, subsets) == subsets[i],
        full matches Some(s) ==> 100 * subsets[i]->Some_0.residual_rms.units() >= 65
            * s.residual_rms.units() ==> selected(n, has_alt, full, subsets) == full,
{
    law_limits_in_numbers();
    lemma_pow2_pos(1074);
    let start = rms_to_beat(full);
    law_best_subset_is_smallest(start, subsets, i);
    if let Some(b) = best_subset(start, subsets) {
        if b != i {
            assert(subsets[b] is Some);
        }
    }
}

/// What is taken is the solution of all receivers or one of those with one left out.
pub proof fn law_selected_was_found(
    n: int,
    has_alt: bool,
    full: Option<SolverSolution>,
    subsets: Seq<Option<SolverSolution>>,
)
    ensures
        selected(n, has_alt, full, subsets) == full || exists|i: int|
            0 <= i < subsets.len() && selected(n, has_alt, full, subsets) == #[trigger] subsets[i],
{
    if subsets.len() > 0 {
        law_best_subset_is_smallest(rms_to_beat(full), subsets, 0);
    }
}

/// A list without one of its items has the others, in their order.
pub proof fn law_one_is_left_out(ms: Seq<Measurement>, skip: int, j: int)
    requires
        0 <= skip < ms.len(),
        0 <= j < ms.len(),
    ensures
        without(ms, skip).len() == ms.len() - 1,
        j < skip ==> without(ms, skip)[j] == ms[j],
        j > skip ==> without(ms, skip)[j - 1] == ms[j],
{
}

/// A step is taken if and only if it lowers the cost. It is the last one if it is at least the
/// fourth and shorter than half a metre or better by less than 0.0001; a step that is not taken
/// is never the last.
pub proof fn law_descent_goes_down(iteration: int, t: Trial)
    requires
        !t.cost.is_nan(),
        !t.new_cost.is_nan(),
        !t.step_norm.is_nan(),
        !t.cost_drop.is_nan(),
    ensures
        t.new_cost.units() < t.cost.units() ==> damping(Some(t)) == Damping::Relax,
        t.new_cost.units() >= t.cost.units() ==> damping(Some(t)) == Damping::Tighten,
        damping(None) == Damping::Escape,
        !converged(iteration, None),
        t.new_cost.units() >= t.cost.units() ==> !converged(iteration, Some(t)),
        iteration < 3 ==> !converged(iteration, Some(t)),
        iteration >= 3 && t.new_cost.units() < t.cost.units() && 2 * t.step_norm.units() < one()
            ==> converged(iteration, Some(t)),
        iteration >= 3 && t.new_cost.units() < t.cost.units() && 1_000_000 * t.cost_drop.units() < 99
            * one() ==> converged(iteration, Some(t)),
        2 * t.step_norm.units() >= one() && 1_000_000 * t.cost_drop.units() > 101 * one()
            ==> !converged(iteration, Some(t)),
{
    law_limits_in_numbers();
    lemma_pow2_pos(1074);
}

/// Each receiver is left out once where five or more with an altitude, or six without, have no
/// solution with a residual of 8 m or less; the descent is over all of the others.
pub proof fn law_each_receiver_is_left_out_once<F: Fn(&Vec<Measurement>) -> Option<SolverSolution>>(
    raw: F,
    ms: Seq<Measurement>,
    has_alt: bool,
    full: Option<SolverSolution>,
    subsets: Seq<Option<SolverSolution>>,
    i: int,
)
    requires
        are_results(raw, ms, has_alt, full, subsets),
        has_alt ==> ms.len() >= 5,
        !has_alt ==> ms.len() >= 6,
        full matches Some(s) ==> !s.residual_rms.is_nan() && s.residual_rms.units() > 8 * one(),
        0 <= i < ms.len(),
    ensures
        gives(raw, ms, full),
        subsets.len() == ms.len(),
        exists|rest: &Vec<Measurement>|
            rest@.len() == ms.len() - 1 && (forall|j: int|
                0 <= j < ms.len() && j != i ==> rest@.contains(#[trigger] ms[j]))
                && #[trigger] call_ensures(raw, (rest,), subsets[i]),
{
    law_limits_in_numbers();
    assert(gives(raw, without(ms, i), subsets[i]));
    let rest = choose|v: &Vec<Measurement>|
        v@ == without(ms, i) && #[trigger] call_ensures(raw, (v,), subsets[i]);
    assert forall|j: int| 0 <= j < ms.len() && j != i implies rest@.contains(#[trigger] ms[j]) by {
        law_one_is_left_out(ms, i, j);
        if j < i {
            assert(rest@[j] == ms[j]);
        } else {
            assert(rest@[j - 1] == ms[j]);
        }
    }
}

} // verus!
