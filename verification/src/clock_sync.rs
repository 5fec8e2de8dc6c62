//! The clocks of the receivers, compared two by two.

use crate::coordinates::{EcefPoint, GeodeticPoint, SPEED_OF_LIGHT};
use crate::scalar::{lemma_positive_order, lemma_units, one, Scalar};
use crate::table::{ByName, ByPair, Table};
use crate::text::{law_text_order, text_less, text_lt};
use crate::track::{elapsed, since, SECOND};
use vstd::arithmetic::power2::{
    lemma2_to64, lemma2_to64_rest, lemma_pow2_adds, lemma_pow2_pos, pow2,
};
use vstd::prelude::*;

verus! {

/// Ticks of a receiver's clock in a second.
pub const CLOCK_HZ: u64 = 12_000_000;

/// Samples that a pairing has room for.
pub const CP_SIZE: usize = 32;

/// How many of the oldest samples make room at a time.
pub const PRUNED: usize = 4;

/// For so long a pairing is usable without a new sample.
pub const MAX_PAIRING_AGE: u64 = 180 * SECOND;

/// For so long a pairing is kept without a new sample.
pub const PAIRING_LIFETIME: u64 = 300 * SECOND;

/// So many outliers in a row end a pairing's history.
pub const MAX_OUTLIERS: u32 = 3;

/// The prediction error, in seconds, above which a sample is an outlier: 200 microseconds,
/// four times the tolerance.
pub const OUTLIER_LIMIT: u64 = 0x3f2a_36e2_eb1c_432d;

/// The largest relative drift that is believed: 800 parts in a million, twice what two clocks
/// can differ by.
pub const DRIFT_LIMIT: u64 = 0x3f4a_36e2_eb1c_432d;

/// 100 microseconds: the bound of the summed error, in seconds.
pub const ERROR_LIMIT: u64 = 0x3f1a_36e2_eb1c_432d;

/// One millionth.
pub const MICRO: u64 = 0x3eb0_c6f7_a0b5_ed8d;

/// One.
pub const ONE: u64 = 0x3ff0_0000_0000_0000;

/// A receiver's clock.
#[derive(Clone, Copy, Debug, PartialEq, Eq, Structural)]
pub struct Clock {
    /// Ticks in a second.
    pub freq: u64,
    /// The largest frequency error, in parts in a million.
    pub max_freq_error: u64,
    /// The jitter of a timestamp, in nanoseconds.
    pub jitter: u64,
    /// The ticks in which a signal covers a metre.
    pub delay_factor: Ratio,
}

/// A fraction.
#[derive(Clone, Copy, Debug, PartialEq, Eq, Structural)]
pub struct Ratio {
    pub num: u64,
    pub den: u64,
}

impl Default for Clock {
    fn default() -> (c: Self)
        ensures
            c == (Clock {
                freq: CLOCK_HZ,
                max_freq_error: 200,
                jitter: 500,
                delay_factor: Ratio { num: CLOCK_HZ, den: SPEED_OF_LIGHT },
            }),
    {
        Clock {
            freq: CLOCK_HZ,
            max_freq_error: 200,
            jitter: 500,
            delay_factor: Ratio { num: CLOCK_HZ, den: SPEED_OF_LIGHT },
        }
    }
}

/// The same signal at two receivers: the ticks of each clock, and the square of the error of
/// the prediction.
#[derive(Clone, Copy, Debug, PartialEq, Eq, Structural)]
pub struct Sample {
    pub base: Scalar,
    pub peer: Scalar,
    pub var: Scalar,
}

/// The same signal at two receivers, and the time since the one before it at each.
#[derive(Clone, Copy, Debug, PartialEq, Eq, Structural)]
pub struct SyncPoint {
    pub base_ts: Scalar,
    pub peer_ts: Scalar,
    pub base_interval: Scalar,
    pub peer_interval: Scalar,
}

impl SyncPoint {
    /// The same signal, seen from the other side.
    pub open spec fn mirrored(self) -> SyncPoint {
        SyncPoint {
            base_ts: self.peer_ts,
            peer_ts: self.base_ts,
            base_interval: self.peer_interval,
            peer_interval: self.base_interval,
        }
    }

    /// The same signal, seen from the other side.
    pub fn turned(&self) -> (r: SyncPoint)
        ensures
            r == self.mirrored(),
    {
        SyncPoint {
            base_ts: self.peer_ts,
            peer_ts: self.base_ts,
            base_interval: self.peer_interval,
            peer_interval: self.base_interval,
        }
    }
}

/// What arithmetic makes of a sync point, given the pairing that it goes to.
#[derive(Clone, Copy, Debug, PartialEq, Eq, Structural)]
pub struct Estimate {
    /// The error of the prediction, in seconds, and its square.
    pub error: Scalar,
    pub var: Scalar,
    /// The sum of the errors so far.
    pub summed_error: Scalar,
    /// The relative difference of the two intervals.
    pub new_drift: Scalar,
    /// The drift before and after it is corrected by the summed error within its bounds, where
    /// an earlier one is blended in.
    pub blended_raw_drift: Scalar,
    pub blended_drift: Scalar,
    /// The drift the other way round, of the drift that will hold.
    pub i_drift: Scalar,
    /// The ratios of the two frequencies, of the drift that will hold.
    pub factor: Scalar,
    pub i_factor: Scalar,
    /// The spread of the errors once the sample has joined.
    pub spread: Scalar,
}

/// A number farther from zero than a limit.
pub open spec fn beyond(v: Scalar, limit: u64) -> bool {
    let l = Scalar { bits: limit };
    l.less(v) || v.less(l.opposite())
}

/// Whether a number is farther from zero than a limit.
fn is_beyond(v: Scalar, limit: u64) -> (r: bool)
    ensures
        r == beyond(v, limit),
{
    let l: Scalar = Scalar::new(limit);
    l.lt(v) || v.lt(l.negated())
}

/// The summed error, held within its bounds.
pub open spec fn bounded(sum: Scalar) -> Scalar {
    let l = Scalar { bits: ERROR_LIMIT };
    sum.clamped(l.opposite(), l)
}

/// The summed error, held within its bounds.
pub fn bounded_error(sum: Scalar) -> (r: Scalar)
    ensures
        r == bounded(sum),
        !beyond(r, ERROR_LIMIT),
{
    let l: Scalar = Scalar::new(ERROR_LIMIT);
    proof {
        lemma_positive_order(Scalar { bits: 0 }, l);
    }
    sum.clamp(l.negated(), l)
}

/// A counter that stays at its largest value.
pub open spec fn counted(n: u64) -> u64 {
    if n < u64::MAX {
        (n + 1) as u64
    } else {
        n
    }
}

fn count(n: u64) -> (r: u64)
    ensures
        r == counted(n),
{
    if n < u64::MAX {
        n + 1
    } else {
        n
    }
}

/// The samples that are left once there is room for another.
pub open spec fn pruned(samples: Seq<Sample>) -> Seq<Sample> {
    if samples.len() >= CP_SIZE - 1 {
        samples.skip(PRUNED as int)
    } else {
        samples
    }
}

/// More than four fifths of the samples are outliers; a thousandth of a sample counts in
/// advance.
pub open spec fn mostly_outliers(outliers: u64, updates: u64) -> bool {
    updates >= 5 && 1250 * outliers > 1000 * updates + 1
}

fn too_many(outliers: u64, updates: u64) -> (r: bool)
    ensures
        r == mostly_outliers(outliers, updates),
{
    updates >= 5 && 1250 * outliers as u128 > 1000 * updates as u128 + 1
}

/// What two clocks are to each other.
#[derive(Debug)]
pub struct ClockPairing {
    pub base_user: String,
    pub peer_user: String,
    pub valid: bool,
    /// When the last sample came.
    pub updated: u64,
    /// The spread of the errors, in seconds.
    pub error: Scalar,
    /// How many drifts were believed.
    pub drift_n: u64,
    pub raw_drift: Scalar,
    pub drift: Scalar,
    pub i_drift: Scalar,
    /// Outliers in a row.
    pub outliers: u32,
    pub jumped: i32,
    pub outlier_total: u64,
    pub update_total: u64,
    pub factor: Scalar,
    pub i_factor: Scalar,
    pub cumulative_error: Scalar,
    /// The samples, oldest first.
    pub samples: Vec<Sample>,
}

/// The error that a sample shows; a first one shows none.
pub open spec fn shown_error(p: ClockPairing, e: Estimate) -> Scalar {
    if p.samples@.len() == 0 {
        Scalar { bits: 0 }
    } else {
        e.error
    }
}

/// The sample is no part of the history.
pub open spec fn is_outlier(p: ClockPairing, e: Estimate) -> bool {
    beyond(shown_error(p, e), OUTLIER_LIMIT)
}

/// The outlier ends the history.
pub open spec fn ends_history(p: ClockPairing) -> bool {
    ||| p.outliers + 1 >= MAX_OUTLIERS
    ||| mostly_outliers(counted(p.outlier_total), counted(p.update_total))
}

/// The drift of a sync point is believed.
pub open spec fn drift_believed(s: SyncPoint, e: Estimate) -> bool {
    let zero = Scalar { bits: 0 };
    &&& !s.base_interval.at_most(zero)
    &&& !s.peer_interval.at_most(zero)
    &&& !beyond(e.new_drift, DRIFT_LIMIT)
}

/// The raw drift, the drift and the inverse drift after a sync point.
pub open spec fn drift_after(p: ClockPairing, s: SyncPoint, e: Estimate) -> (
    Scalar,
    Scalar,
    Scalar,
) {
    if !drift_believed(s, e) {
        (p.raw_drift, p.drift, p.i_drift)
    } else if p.drift_n == 0 {
        (e.new_drift, e.new_drift, e.i_drift)
    } else {
        (e.blended_raw_drift, e.blended_drift, e.i_drift)
    }
}

/// The sample that a sync point adds.
pub open spec fn sample_of(p: ClockPairing, s: SyncPoint, e: Estimate) -> Sample {
    Sample {
        base: s.base_ts,
        peer: s.peer_ts,
        var: if p.samples@.len() == 0 {
            Scalar { bits: 0 }
        } else {
            e.var
        },
    }
}

/// What a sync point makes of a pairing.
pub open spec fn paired(
    p: ClockPairing,
    now: u64,
    s: SyncPoint,
    e: Estimate,
    q: ClockPairing,
) -> bool {
    &&& q.base_user@ == p.base_user@
    &&& q.peer_user@ == p.peer_user@
    &&& q.jumped == p.jumped
    &&& q.update_total == counted(p.update_total)
    &&& if is_outlier(p, e) {
        &&& q.outlier_total == counted(p.outlier_total)
        &&& q.outliers == (if ends_history(p) {
            0
        } else {
            p.outliers + 1
        })
        &&& q.samples@ == (if ends_history(p) {
            Seq::empty()
        } else {
            pruned(p.samples@)
        })
        &&& q.valid == (p.valid && !ends_history(p))
        &&& q.updated == p.updated
        &&& q.error == p.error
        &&& q.drift_n == p.drift_n
        &&& (q.raw_drift, q.drift, q.i_drift) == (p.raw_drift, p.drift, p.i_drift)
        &&& q.factor == p.factor
        &&& q.i_factor == p.i_factor
        &&& q.cumulative_error == p.cumulative_error
    } else {
        &&& q.outlier_total == p.outlier_total
        &&& q.outliers == 0
        &&& q.samples@ == pruned(p.samples@).push(sample_of(p, s, e))
        &&& q.valid == (q.samples@.len() >= 2)
        &&& q.updated == now
        &&& q.error == (if q.samples@.len() >= 2 {
            e.spread
        } else {
            p.error
        })
        &&& q.drift_n == (if drift_believed(s, e) {
            counted(p.drift_n)
        } else {
            p.drift_n
        })
        &&& (q.raw_drift, q.drift, q.i_drift) == drift_after(p, s, e)
        &&& q.factor == e.factor
        &&& q.i_factor == e.i_factor
        &&& q.cumulative_error == bounded(e.summed_error)
    }
}

impl ClockPairing {
    /// There is room for a sample, a run of outliers has not ended the history, and the summed
    /// error is within its bounds.
    pub open spec fn wf(self) -> bool {
        &&& self.samples@.len() < CP_SIZE
        &&& self.outliers < MAX_OUTLIERS
        &&& !beyond(self.cumulative_error, ERROR_LIMIT)
    }

    /// Nothing is known yet of two clocks.
    pub open spec fn is_fresh(self, base: Seq<char>, peer: Seq<char>, now: u64) -> bool {
        &&& self.base_user@ == base
        &&& self.peer_user@ == peer
        &&& !self.valid
        &&& self.updated == now
        &&& self.error == (Scalar { bits: MICRO })
        &&& self.drift_n == 0
        &&& self.raw_drift == (Scalar { bits: 0 })
        &&& self.drift == (Scalar { bits: 0 })
        &&& self.i_drift == (Scalar { bits: 0 })
        &&& self.outliers == 0
        &&& self.jumped == 0
        &&& self.outlier_total == 0
        &&& self.update_total == 0
        &&& self.factor == (Scalar { bits: ONE })
        &&& self.i_factor == (Scalar { bits: ONE })
        &&& self.cumulative_error == (Scalar { bits: 0 })
        &&& self.samples@ == Seq::<Sample>::empty()
    }

    /// The pairing can convert a time.
    pub open spec fn is_live(self, now: u64) -> bool {
        self.valid && since(now, self.updated) < MAX_PAIRING_AGE
    }

    /// A pairing of which nothing is known yet.
    pub fn new(base: String, peer: String, now: u64) -> (p: ClockPairing)
        ensures
            p.is_fresh(base@, peer@, now),
            p.wf(),
    {
        ClockPairing {
            base_user: base,
            peer_user: peer,
            valid: false,
            updated: now,
            error: Scalar::new(MICRO),
            drift_n: 0,
            raw_drift: Scalar::zero(),
            drift: Scalar::zero(),
            i_drift: Scalar::zero(),
            outliers: 0,
            jumped: 0,
            outlier_total: 0,
            update_total: 0,
            factor: Scalar::new(ONE),
            i_factor: Scalar::new(ONE),
            cumulative_error: Scalar::zero(),
            samples: Vec::new(),
        }
    }

    /// The last sample, from which a prediction starts.
    pub fn last_sample(&self) -> (r: Option<Sample>)
        ensures
            r == (if self.samples@.len() == 0 {
                None::<Sample>
            } else {
                Some(self.samples@.last())
            }),
    {
        let n: usize = self.samples.len();
        if n == 0 {
            None
        } else {
            Some(self.samples[n - 1])
        }
    }

    /// Whether the pairing can convert a time.
    pub fn live(&self, now: u64) -> (r: bool)
        ensures
            r == self.is_live(now),
    {
        self.valid && elapsed(now, self.updated) < MAX_PAIRING_AGE
    }

    /// Whether two samples or more, the last of them recent, make the pairing usable.
    pub fn check_valid(&mut self, now: u64, spread: Scalar) -> (r: bool)
        ensures
            r == (old(self).samples@.len() >= 2 && since(now, old(self).updated) < MAX_PAIRING_AGE),
            *final(self) == (ClockPairing {
                valid: r,
                error: if old(self).samples@.len() >= 2 {
                    spread
                } else {
                    old(self).error
                },
                ..*old(self)
            }),
            r == (old(self).samples@.len() >= 2 && now < old(self).updated + 180_000_000_000),
    {
        if self.samples.len() < 2 {
            self.valid = false;
            return false;
        }
        self.error = spread;
        self.valid = elapsed(now, self.updated) < MAX_PAIRING_AGE;
        self.valid
    }

    /// Ends the history.
    pub fn reset_offsets(&mut self)
        ensures
            final(self).samples@ == Seq::<Sample>::empty(),
            *final(self) == (ClockPairing {
                valid: false,
                samples: final(self).samples,
                ..*old(self)
            }),
    {
        self.valid = false;
        self.samples = Vec::new();
    }

    /// Makes room for a sample.
    fn prune_old_data(&mut self)
        requires
            old(self).samples@.len() < CP_SIZE,
        ensures
            final(self).samples@ == pruned(old(self).samples@),
            *final(self) == (ClockPairing { samples: final(self).samples, ..*old(self) }),
    {
        let n: usize = self.samples.len();
        if n >= CP_SIZE - 1 {
            let mut kept: Vec<Sample> = Vec::new();
            let mut i: usize = PRUNED;
            while i < n
                invariant
                    PRUNED <= i <= n,
                    n == self.samples@.len(),
                    kept@ == self.samples@.subrange(PRUNED as int, i as int),
                decreases n - i,
            {
                kept.push(self.samples[i]);
                i += 1;
                assert(kept@ =~= self.samples@.subrange(PRUNED as int, i as int));
            }
            assert(kept@ =~= self.samples@.skip(PRUNED as int));
            self.samples = kept;
        }
    }

    /// Takes the drift of a sync point where it is believed.
    fn update_drift(&mut self, s: &SyncPoint, e: &Estimate) -> (r: bool)
        ensures
            r == drift_believed(*s, *e),
            *final(self) == (ClockPairing {
                drift_n: if r {
                    counted(old(self).drift_n)
                } else {
                    old(self).drift_n
                },
                raw_drift: drift_after(*old(self), *s, *e).0,
                drift: drift_after(*old(self), *s, *e).1,
                i_drift: drift_after(*old(self), *s, *e).2,
                ..*old(self)
            }),
    {
        let zero: Scalar = Scalar::zero();
        if s.base_interval.le(zero) || s.peer_interval.le(zero) {
            return false;
        }
        if is_beyond(e.new_drift, DRIFT_LIMIT) {
            return false;
        }
        if self.drift_n == 0 {
            self.raw_drift = e.new_drift;
            self.drift = e.new_drift;
        } else {
            self.raw_drift = e.blended_raw_drift;
            self.drift = e.blended_drift;
        }
        self.i_drift = e.i_drift;
        self.drift_n = count(self.drift_n);
        true
    }

    /// Takes a sync point in, or counts it as an outlier.
    pub fn update(&mut self, now: u64, s: &SyncPoint, e: &Estimate) -> (r: bool)
        requires
            old(self).wf(),
        ensures
            final(self).wf(),
            r == !is_outlier(*old(self), *e),
            paired(*old(self), now, *s, *e, *final(self)),
    {
        let first: bool = self.samples.len() == 0;
        self.prune_old_data();
        self.update_total = count(self.update_total);
        if !first && is_beyond(e.error, OUTLIER_LIMIT) {
            self.outlier_total = count(self.outlier_total);
            self.outliers = self.outliers + 1;
            if self.outliers >= MAX_OUTLIERS || too_many(self.outlier_total, self.update_total) {
                self.reset_offsets();
                self.outliers = 0;
            }
            return false;
        }
        self.outliers = 0;
        self.cumulative_error = bounded_error(e.summed_error);
        let _ = self.update_drift(s, e);
        self.factor = e.factor;
        self.i_factor = e.i_factor;
        let var: Scalar = if first {
            Scalar::zero()
        } else {
            e.var
        };
        self.samples.push(Sample { base: s.base_ts, peer: s.peer_ts, var });
        self.updated = now;
        let _ = self.check_valid(now, e.spread);
        true
    }
}

/// The pairings, by the names of the two receivers in order.
pub type Pairings = Map<(Seq<char>, Seq<char>), ClockPairing>;

/// The names of two receivers in order.
pub open spec fn pair_key(a: Seq<char>, b: Seq<char>) -> (Seq<char>, Seq<char>) {
    if text_less(a, b) {
        (a, b)
    } else {
        (b, a)
    }
}

/// The names of two receivers in order.
fn ordered(a: &String, b: &String) -> (r: (String, String))
    ensures
        (r.0@, r.1@) == pair_key(a@, b@),
{
    if text_lt(a.as_str(), b.as_str()) {
        (a.clone(), b.clone())
    } else {
        (b.clone(), a.clone())
    }
}

/// Two different receivers have a pairing that can convert a time.
pub open spec fn linked(pairings: Pairings, now: u64, a: Seq<char>, b: Seq<char>) -> bool {
    &&& a != b
    &&& pairings.contains_key(pair_key(a, b))
    &&& pairings[pair_key(a, b)].is_live(now)
}

/// A time can be brought from one clock to another, over one receiver between them at most.
pub open spec fn connected(pairings: Pairings, now: u64, a: Seq<char>, b: Seq<char>) -> bool {
    ||| a == b
    ||| linked(pairings, now, a, b)
    ||| exists|m: Seq<char>| #[trigger]
        linked(pairings, now, a, m) && linked(pairings, now, m, b)
}

/// How a time is brought from one clock to another. A step is `forward` from the base of a
/// pairing to its peer.
#[derive(Debug)]
pub enum Route {
    /// It is the same clock.
    Same,
    /// The two have a pairing.
    Direct { forward: bool },
    /// Both have a pairing with `mid`.
    Via { mid: String, first_forward: bool, second_forward: bool },
}

/// The route leads from one clock to another, and no shorter one does.
pub open spec fn leads(
    pairings: Pairings,
    now: u64,
    a: Seq<char>,
    b: Seq<char>,
    route: Route,
) -> bool {
    match route {
        Route::Same => a == b,
        Route::Direct { forward } => linked(pairings, now, a, b) && forward == text_less(a, b),
        Route::Via { mid, first_forward, second_forward } => {
            &&& a != b
            &&& !linked(pairings, now, a, b)
            &&& linked(pairings, now, a, mid@)
            &&& linked(pairings, now, mid@, b)
            &&& first_forward == text_less(a, mid@)
            &&& second_forward == text_less(mid@, b)
        },
    }
}

/// The observations whose time can be brought to the clock of the one at `root`, which comes
/// first.
pub open spec fn reachable(pairings: Pairings, now: u64, users: Seq<Seq<char>>, root: int) -> Seq<
    int,
> {
    seq![root] + reachable_before(pairings, now, users, root, users.len() as int)
}

/// Of the first `n` observations but `root`, those whose time can be brought to its clock.
pub open spec fn reachable_before(
    pairings: Pairings,
    now: u64,
    users: Seq<Seq<char>>,
    root: int,
    n: int,
) -> Seq<int>
    decreases n,
{
    if n <= 0 {
        Seq::empty()
    } else {
        let before = reachable_before(pairings, now, users, root, n - 1);
        if n - 1 != root && connected(pairings, now, users[n - 1], users[root]) {
            before.push(n - 1)
        } else {
            before
        }
    }
}

/// The clocks of all receivers.
pub struct ClockSyncGraph {
    pairings: Table<ByPair, ClockPairing>,
    receiver_positions: Table<ByName, (EcefPoint, GeodeticPoint)>,
}

/// What the exported table holds of the pairing of one receiver with another.
#[derive(Debug)]
pub struct SyncEntry {
    pub from: String,
    pub to: String,
    /// The number of samples.
    pub n: usize,
    pub error: Scalar,
    /// The drift in this direction.
    pub drift: Scalar,
    pub jumped: i32,
    pub outlier_total: u64,
    pub update_total: u64,
    /// What a share of outliers of one is shown as: 50 while there are few samples, then 100.
    pub outlier_scale: u64,
    /// Seconds since the last sample.
    pub age_s: u64,
    /// Receivers to which the other one has a usable pairing.
    pub peers: usize,
}

/// The entry of one receiver with another.
pub open spec fn is_entry(pairings: Pairings, now: u64, e: SyncEntry) -> bool {
    let key = pair_key(e.from@, e.to@);
    let p = pairings[key];
    &&& e.from@ != e.to@
    &&& pairings.contains_key(key)
    &&& p.samples@.len() >= 2
    &&& e.n == p.samples@.len()
    &&& e.error == p.error
    &&& e.drift == (if text_less(e.from@, e.to@) {
        p.drift
    } else {
        p.i_drift
    })
    &&& e.jumped == p.jumped
    &&& e.outlier_total == p.outlier_total
    &&& e.update_total == p.update_total
    &&& e.outlier_scale == (if p.update_total < 4 {
        50
    } else {
        100int
    })
    &&& e.age_s == since(now, p.updated) / SECOND as int
    &&& e.peers == links_of(pairings, now, e.to@).len()
}

/// One of the entries is that of a receiver with another.
pub open spec fn lists(entries: Seq<SyncEntry>, from: Seq<char>, to: Seq<char>) -> bool {
    exists|i: int|
        0 <= i < entries.len() && (#[trigger] entries[i]).from@ == from && entries[i].to@ == to
}

/// Two receivers' pairing in the exported table.
#[derive(Debug)]
pub struct SyncRow {
    pub base: String,
    pub peer: String,
    /// The number of samples.
    pub n: usize,
    pub error: Scalar,
    pub drift: Scalar,
    pub i_drift: Scalar,
    pub jumped: i32,
    pub outlier_total: u64,
    pub update_total: u64,
    /// What a share of outliers of one is shown as: 50 while there are few samples, then 100.
    pub outlier_scale: u64,
    /// Seconds since the last sample.
    pub age_s: u64,
    /// Receivers to which each of the two has a usable pairing.
    pub base_peers: usize,
    pub peer_peers: usize,
}

/// The keys of the usable pairings of a receiver.
pub open spec fn links_of(pairings: Pairings, now: u64, user: Seq<char>) -> Set<
    (Seq<char>, Seq<char>),
> {
    pairings.dom().filter(
        |k: (Seq<char>, Seq<char>)| (k.0 == user || k.1 == user) && pairings[k].is_live(now),
    )
}

/// The row that a pairing is exported as.
pub open spec fn is_row(
    pairings: Pairings,
    now: u64,
    key: (Seq<char>, Seq<char>),
    r: SyncRow,
) -> bool {
    let p = pairings[key];
    &&& (r.base@, r.peer@) == key
    &&& r.n == p.samples@.len()
    &&& r.error == p.error
    &&& r.drift == p.drift
    &&& r.i_drift == p.i_drift
    &&& r.jumped == p.jumped
    &&& r.outlier_total == p.outlier_total
    &&& r.update_total == p.update_total
    &&& r.outlier_scale == (if p.update_total < 4 {
        50
    } else {
        100int
    })
    &&& r.age_s == since(now, p.updated) / SECOND as int
    &&& r.base_peers == links_of(pairings, now, key.0).len()
    &&& r.peer_peers == links_of(pairings, now, key.1).len()
}

impl ClockSyncGraph {
    /// Each pairing stands under its receivers' names in order.
    pub closed spec fn wf(self) -> bool {
        &&& self.pairings.wf()
        &&& self.receiver_positions.wf()
        &&& forall|k: (Seq<char>, Seq<char>)| #[trigger]
            self.pairings@.contains_key(k) ==> {
                &&& text_less(k.0, k.1)
                &&& self.pairings@[k].base_user@ == k.0
                &&& self.pairings@[k].peer_user@ == k.1
                &&& self.pairings@[k].wf()
            }
    }

    /// The pairings.
    pub closed spec fn pairings(self) -> Pairings {
        self.pairings@
    }

    /// Where each receiver stands.
    pub closed spec fn positions(self) -> Map<Seq<char>, (EcefPoint, GeodeticPoint)> {
        self.receiver_positions@
    }

    /// Each pairing stands under its receivers' names in order.
    pub proof fn law_pairings_in_order(self)
        requires
            self.wf(),
        ensures
            forall|k: (Seq<char>, Seq<char>)| #[trigger]
                self.pairings().contains_key(k) ==> {
                    &&& text_less(k.0, k.1)
                    &&& self.pairings()[k].base_user@ == k.0
                    &&& self.pairings()[k].peer_user@ == k.1
                    &&& self.pairings()[k].wf()
                },
    {
    }

    /// No receivers.
    pub fn new() -> (g: ClockSyncGraph)
        ensures
            g.wf(),
            g.pairings() == Pairings::empty(),
            (g.positions() == Map::<Seq<char>, (EcefPoint, GeodeticPoint)>::empty()),
    {
        ClockSyncGraph { pairings: Table::new(), receiver_positions: Table::new() }
    }

    pub fn set_receiver_position(&mut self, user: String, ecef: EcefPoint, geo: GeodeticPoint)
        requires
            old(self).wf(),
        ensures
            final(self).wf(),
            final(self).positions() == old(self).positions().insert(user@, (ecef, geo)),
            final(self).pairings() == old(self).pairings(),
    {
        self.receiver_positions.put(user, (ecef, geo));
    }

    pub fn get_receiver_position(&self, user: &String) -> (r: Option<(EcefPoint, GeodeticPoint)>)
        requires
            self.wf(),
        ensures
            r == (if self.positions().contains_key(user@) {
                Some(self.positions()[user@])
            } else {
                None
            }),
    {
        match self.receiver_positions.get(user) {
            Some(p) => Some(*p),
            None => None,
        }
    }

    /// Forgets a receiver and its pairings.
    pub fn remove_receiver(&mut self, user: &String)
        requires
            old(self).wf(),
        ensures
            final(self).wf(),
            final(self).positions() == old(self).positions().remove(user@),
            final(self).pairings() == old(self).pairings().remove_keys(
                Set::new(|k: (Seq<char>, Seq<char>)| k.0 == user@ || k.1 == user@),
            ),
    {
        self.receiver_positions.remove(user);
        let ghost gone = Set::new(|k: (Seq<char>, Seq<char>)| k.0 == user@ || k.1 == user@);
        let mut i: usize = self.pairings.len();
        while i > 0
            invariant
                i <= self.pairings.keys().len(),
                self.wf(),
                old(self).wf(),
                gone == Set::new(|k: (Seq<char>, Seq<char>)| k.0 == user@ || k.1 == user@),
                self.receiver_positions@ == old(self).receiver_positions@.remove(user@),
                forall|k: (Seq<char>, Seq<char>)| #[trigger]
                    self.pairings@.contains_key(k) ==> old(self).pairings@.contains_key(k)
                        && self.pairings@[k] == old(self).pairings@[k],
                forall|k: (Seq<char>, Seq<char>)| #[trigger]
                    old(self).pairings@.contains_key(k) && !gone.contains(k)
                        ==> self.pairings@.contains_key(k),
                forall|j: int|
                    i <= j < self.pairings.keys().len() ==> !gone.contains(
                        #[trigger] self.pairings.keys()[j],
                    ),
            decreases i,
        {
            i -= 1;
            let ghost before = *self;
            proof {
                self.pairings.lemma_keys();
            }
            let key = self.pairings.key_at(i);
            if key.0 == *user || key.1 == *user {
                self.pairings.remove_at(i);
            }
            proof {
                assert forall|j: int| i <= j < self.pairings.keys().len() implies !gone.contains(
                    #[trigger] self.pairings.keys()[j],
                ) by {
                    if before.pairings.keys().len() != self.pairings.keys().len() {
                        if j == i {
                            assert(self.pairings.keys()[j] == before.pairings.keys().last());
                        } else {
                            assert(self.pairings.keys()[j] == before.pairings.keys()[j]);
                        }
                    }
                }
            }
        }
        proof {
            self.pairings.lemma_keys();
            assert(self.pairings@ =~= old(self).pairings@.remove_keys(gone));
        }
    }

    /// Forgets the pairings that had no new sample for long.
    pub fn cleanup_stale(&mut self, now: u64)
        requires
            old(self).wf(),
        ensures
            final(self).wf(),
            final(self).positions() == old(self).positions(),
            final(self).pairings() == old(self).pairings().remove_keys(
                Set::new(
                    |k: (Seq<char>, Seq<char>)|
                        since(now, old(self).pairings()[k].updated) >= PAIRING_LIFETIME,
                ),
            ),
            forall|k: (Seq<char>, Seq<char>)| #[trigger]
                final(self).pairings().contains_key(k) <==> old(self).pairings().contains_key(k)
                    && now < old(self).pairings()[k].updated + 300_000_000_000,
    {
        let ghost gone = Set::new(
            |k: (Seq<char>, Seq<char>)|
                since(now, old(self).pairings()[k].updated) >= PAIRING_LIFETIME,
        );
        let mut i: usize = self.pairings.len();
        while i > 0
            invariant
                i <= self.pairings.keys().len(),
                self.wf(),
                old(self).wf(),
                gone == Set::new(
                    |k: (Seq<char>, Seq<char>)|
                        since(now, old(self).pairings()[k].updated) >= PAIRING_LIFETIME,
                ),
                self.receiver_positions@ == old(self).receiver_positions@,
                forall|k: (Seq<char>, Seq<char>)| #[trigger]
                    self.pairings@.contains_key(k) ==> old(self).pairings@.contains_key(k)
                        && self.pairings@[k] == old(self).pairings@[k],
                forall|k: (Seq<char>, Seq<char>)| #[trigger]
                    old(self).pairings@.contains_key(k) && !gone.contains(k)
                        ==> self.pairings@.contains_key(k),
                forall|j: int|
                    i <= j < self.pairings.keys().len() ==> !gone.contains(
                        #[trigger] self.pairings.keys()[j],
                    ),
            decreases i,
        {
            i -= 1;
            let ghost before = *self;
            proof {
                self.pairings.lemma_keys();
            }
            let ghost key = self.pairings.keys()[i as int];
            let updated: u64 = self.pairings.row_at(i).updated;
            assert(old(self).pairings()[key].updated == updated);
            if elapsed(now, updated) >= PAIRING_LIFETIME {
                self.pairings.remove_at(i);
            }
            proof {
                assert forall|j: int| i <= j < self.pairings.keys().len() implies !gone.contains(
                    #[trigger] self.pairings.keys()[j],
                ) by {
                    if before.pairings.keys().len() != self.pairings.keys().len() {
                        if j == i {
                            assert(self.pairings.keys()[j] == before.pairings.keys().last());
                        } else {
                            assert(self.pairings.keys()[j] == before.pairings.keys()[j]);
                        }
                    }
                }
            }
        }
        proof {
            self.pairings.lemma_keys();
            assert(self.pairings@ =~= old(self).pairings@.remove_keys(gone));
        }
    }

    /// The pairing of two receivers.
    pub fn pairing(&self, a: &String, b: &String) -> (r: Option<&ClockPairing>)
        requires
            self.wf(),
        ensures
            r is Some <==> self.pairings().contains_key(pair_key(a@, b@)),
            r matches Some(p) ==> *p == self.pairings()[pair_key(a@, b@)],
    {
        self.pairings.get(&ordered(a, b))
    }

    /// Gives a sync point to the pairing of two receivers, from whichever side it is seen. A
    /// receiver has no pairing with itself.
    pub fn update_pairing(
        &mut self,
        u_base: &String,
        u_peer: &String,
        now: u64,
        s: &SyncPoint,
        e: &Estimate,
    )
        requires
            old(self).wf(),
        ensures
            final(self).wf(),
            final(self).positions() == old(self).positions(),
            u_base@ == u_peer@ ==> final(self).pairings() == old(self).pairings(),
            u_base@ != u_peer@ ==> {
                let key = pair_key(u_base@, u_peer@);
                let seen = if text_less(u_base@, u_peer@) {
                    *s
                } else {
                    s.mirrored()
                };
                let after = final(self).pairings();
                &&& after == old(self).pairings().insert(key, after[key])
                &&& if old(self).pairings().contains_key(key) {
                    paired(old(self).pairings()[key], now, seen, *e, after[key])
                } else {
                    exists|p: ClockPairing| #[trigger]
                        p.is_fresh(key.0, key.1, now) && paired(p, now, seen, *e, after[key])
                }
            },
            u_base@ != u_peer@ ==> {
                let key = pair_key(u_base@, u_peer@);
                let p = final(self).pairings()[key];
                &&& final(self).pairings().contains_key(key)
                &&& !old(self).pairings().contains_key(key) ==> p.samples@.len() == 1
                    && p.update_total == 1 && p.updated == now && !p.valid
                &&& (!old(self).pairings().contains_key(key) || p.outlier_total
                    == old(self).pairings()[key].outlier_total && p.outlier_total < u64::MAX) ==> (
                if p.base_user@ == u_base@ {
                    p.samples@.last().base == s.base_ts && p.samples@.last().peer == s.peer_ts
                } else {
                    p.samples@.last().base == s.peer_ts && p.samples@.last().peer == s.base_ts
                })
            },
    {
        if *u_base == *u_peer {
            return;
        }
        proof {
            law_text_order(u_base@, u_peer@);
        }
        let ghost key = pair_key(u_base@, u_peer@);
        let forward: bool = text_lt(u_base.as_str(), u_peer.as_str());
        let names = ordered(u_base, u_peer);
        let seen: SyncPoint = if forward {
            *s
        } else {
            s.turned()
        };
        match self.pairings.find(&names) {
            Some(i) => {
                let ghost before = *self;
                let row = self.pairings.row_at_mut(i);
                let _ = row.update(now, &seen, e);
                proof {
                    assert(self.pairings@[key] == *row);
                    assert(self.pairings@ =~= before.pairings@.insert(key, self.pairings@[key]));
                }
            },
            None => {
                let mut p: ClockPairing = ClockPairing::new(names.0.clone(), names.1.clone(), now);
                let ghost fresh = p;
                let _ = p.update(now, &seen, e);
                proof {
                    assert(fresh.is_fresh(key.0, key.1, now));
                    assert(paired(fresh, now, seen, *e, p));
                }
                self.pairings.add(names, p);
                assert(self.pairings@ =~= old(self).pairings@.insert(key, self.pairings@[key]));
            },
        }
    }

    /// The number of receivers to which one has a usable pairing.
    pub fn get_sync_peer_count(&self, user: &String, now: u64) -> (r: usize)
        requires
            self.wf(),
        ensures
            r == links_of(self.pairings(), now, user@).len(),
    {
        let mut count: usize = 0;
        let n: usize = self.pairings.len();
        let mut i: usize = 0;
        let ghost mut found = Set::<(Seq<char>, Seq<char>)>::empty();
        proof {
            self.pairings.lemma_keys();
        }
        while i < n
            invariant
                count <= i <= n,
                n == self.pairings.keys().len(),
                self.wf(),
                forall|a: int, b: int|
                    0 <= a < b < n ==> #[trigger] self.pairings.keys()[a]
                        != #[trigger] self.pairings.keys()[b],
                found.finite(),
                found.len() == count,
                forall|k: (Seq<char>, Seq<char>)| #[trigger]
                    found.contains(k) <==> links_of(self.pairings(), now, user@).contains(k)
                        && exists|j: int| 0 <= j < i && self.pairings.keys()[j] == k,
            decreases n - i,
        {
            let key = self.pairings.key_at(i);
            let p = self.pairings.row_at(i);
            let ghost k = self.pairings.keys()[i as int];
            let ghost before = found;
            if (key.0 == *user || key.1 == *user) && p.live(now) {
                count += 1;
                proof {
                    found = found.insert(k);
                }
            }
            proof {
                assert(!before.contains(k));
                assert forall|x: (Seq<char>, Seq<char>)| #[trigger]
                    found.contains(x) <==> links_of(self.pairings(), now, user@).contains(x)
                        && exists|j: int| 0 <= j < i + 1 && self.pairings.keys()[j] == x by {
                    if x == k {
                        assert(self.pairings.keys()[i as int] == x);
                    }
                    if exists|j: int| 0 <= j < i && self.pairings.keys()[j] == x {
                        let j = choose|j: int| 0 <= j < i && self.pairings.keys()[j] == x;
                        assert(0 <= j < i + 1 && self.pairings.keys()[j] == x);
                    }
                }
            }
            i += 1;
        }
        proof {
            self.pairings.lemma_keys();
            assert(found =~= links_of(self.pairings(), now, user@));
        }
        count
    }

    /// Whether two receivers have a usable pairing.
    fn link(&self, a: &String, b: &String, now: u64) -> (r: bool)
        requires
            self.wf(),
        ensures
            r == linked(self.pairings(), now, a@, b@),
    {
        proof {
            law_text_order(a@, a@);
        }
        match self.pairing(a, b) {
            Some(p) => p.live(now),
            None => false,
        }
    }

    /// How a time is brought from the clock of `src` to that of `dst`.
    pub fn convert_clock(&self, src: &String, dst: &String, now: u64) -> (r: Option<Route>)
        requires
            self.wf(),
        ensures
            r is Some <==> connected(self.pairings(), now, src@, dst@),
            r matches Some(route) ==> leads(self.pairings(), now, src@, dst@, route),
    {
        if *src == *dst {
            return Some(Route::Same);
        }
        if self.link(src, dst, now) {
            return Some(Route::Direct { forward: text_lt(src.as_str(), dst.as_str()) });
        }
        let n: usize = self.pairings.len();
        let mut i: usize = 0;
        proof {
            self.pairings.lemma_keys();
        }
        while i < n
            invariant
                i <= n,
                n == self.pairings.keys().len(),
                self.wf(),
                src@ != dst@,
                !linked(self.pairings(), now, src@, dst@),
                forall|j: int, m: Seq<char>|
                    0 <= j < i && #[trigger] self.pairings.keys()[j] == #[trigger] pair_key(
                        src@,
                        m,
                    ) && linked(self.pairings(), now, src@, m) ==> !linked(
                        self.pairings(),
                        now,
                        m,
                        dst@,
                    ),
            decreases n - i,
        {
            let key = self.pairings.key_at(i);
            let p = self.pairings.row_at(i);
            let ghost k = self.pairings.keys()[i as int];
            proof {
                law_text_order(k.0, k.1);
            }
            if p.live(now) {
                if key.0 == *src {
                    assert(linked(self.pairings(), now, src@, key.1@));
                    if self.link(&key.1, dst, now) {
                        return Some(
                            Route::Via {
                                first_forward: true,
                                second_forward: text_lt(key.1.as_str(), dst.as_str()),
                                mid: key.1.clone(),
                            },
                        );
                    }
                } else if key.1 == *src {
                    assert(linked(self.pairings(), now, src@, key.0@));
                    if self.link(&key.0, dst, now) {
                        return Some(
                            Route::Via {
                                first_forward: false,
                                second_forward: text_lt(key.0.as_str(), dst.as_str()),
                                mid: key.0.clone(),
                            },
                        );
                    }
                }
            }
            i += 1;
        }
        proof {
            self.pairings.lemma_keys();
            assert forall|m: Seq<char>| #[trigger]
                linked(self.pairings(), now, src@, m) implies !linked(
                self.pairings(),
                now,
                m,
                dst@,
            ) by {
                let k = pair_key(src@, m);
                assert(self.pairings@.contains_key(k));
                let j = choose|j: int|
                    0 <= j < self.pairings.keys().len() && self.pairings.keys()[j] == k;
            }
        }
        None
    }

    /// Which observations can be brought to the clock of the one at `root`, and how: `root`
    /// first, then the others in order.
    fn reach(&self, users: &Vec<String>, root: usize, now: u64) -> (r: Vec<(usize, Route)>)
        requires
            self.wf(),
            root < users@.len(),
        ensures
            indices(r@) == reachable(self.pairings(), now, names(users@), root as int),
            forall|j: int|
                0 <= j < r@.len() ==> (#[trigger] r@[j]).0 < users@.len() && leads(
                    self.pairings(),
                    now,
                    users@[r@[j].0 as int]@,
                    users@[root as int]@,
                    r@[j].1,
                ),
    {
        let mut r: Vec<(usize, Route)> = Vec::new();
        r.push((root, Route::Same));
        let n: usize = users.len();
        let mut i: usize = 0;
        assert(indices(r@) =~= seq![root as int] + reachable_before(
            self.pairings(),
            now,
            names(users@),
            root as int,
            0,
        ));
        while i < n
            invariant
                i <= n,
                n == users@.len(),
                root < n,
                self.wf(),
                indices(r@) == seq![root as int] + reachable_before(
                    self.pairings(),
                    now,
                    names(users@),
                    root as int,
                    i as int,
                ),
                forall|j: int|
                    0 <= j < r@.len() ==> (#[trigger] r@[j]).0 < users@.len() && leads(
                        self.pairings(),
                        now,
                        users@[r@[j].0 as int]@,
                        users@[root as int]@,
                        r@[j].1,
                    ),
            decreases n - i,
        {
            let ghost before = r@;
            let ghost found = reachable_before(
                self.pairings(),
                now,
                names(users@),
                root as int,
                i as int,
            );
            if i != root {
                if let Some(route) = self.convert_clock(&users[i], &users[root], now) {
                    r.push((i, route));
                    assert(indices(r@) =~= indices(before).push(i as int));
                    assert(indices(r@) =~= seq![root as int] + found.push(i as int));
                }
            }
            i += 1;
        }
        r
    }

    /// The first observation to whose clock two others or more can be brought, and how.
    pub fn synchronize_observations(&self, users: &Vec<String>, now: u64) -> (r: Option<
        (usize, Vec<(usize, Route)>),
    >)
        requires
            self.wf(),
        ensures
            match r {
                Some((root, found)) => {
                    &&& root < users@.len()
                    &&& found@.len() >= 3
                    &&& indices(found@) == reachable(
                        self.pairings(),
                        now,
                        names(users@),
                        root as int,
                    )
                    &&& forall|j: int|
                        0 <= j < found@.len() ==> (#[trigger] found@[j]).0 < users@.len() && leads(
                            self.pairings(),
                            now,
                            users@[found@[j].0 as int]@,
                            users@[root as int]@,
                            found@[j].1,
                        )
                    &&& forall|j: int|
                        0 <= j < root ==> #[trigger] reachable(
                            self.pairings(),
                            now,
                            names(users@),
                            j,
                        ).len() < 3
                },
                None => forall|j: int|
                    0 <= j < users@.len() ==> #[trigger] reachable(
                        self.pairings(),
                        now,
                        names(users@),
                        j,
                    ).len() < 3,
            },
    {
        let n: usize = users.len();
        let mut root: usize = 0;
        if n < 3 {
            proof {
                assert forall|j: int| 0 <= j < n implies #[trigger] reachable(
                    self.pairings(),
                    now,
                    names(users@),
                    j,
                ).len() < 3 by {
                    lemma_reachable_len(self.pairings(), now, names(users@), j, n as int);
                }
            }
            return None;
        }
        while root < n
            invariant
                root <= n,
                n == users@.len(),
                self.wf(),
                forall|j: int|
                    0 <= j < root ==> #[trigger] reachable(
                        self.pairings(),
                        now,
                        names(users@),
                        j,
                    ).len() < 3,
            decreases n - root,
        {
            let found: Vec<(usize, Route)> = self.reach(users, root, now);
            assert(found@.len() == indices(found@).len());
            if found.len() >= 3 {
                return Some((root, found));
            }
            root += 1;
        }
        None
    }

    /// A row for each pairing with two samples or more.
    pub fn sync_rows(&self, now: u64) -> (r: Vec<SyncRow>)
        requires
            self.wf(),
        ensures
            forall|j: int|
                0 <= j < r@.len() ==> {
                    let k = ((#[trigger] r@[j]).base@, r@[j].peer@);
                    &&& self.pairings().contains_key(k)
                    &&& self.pairings()[k].samples@.len() >= 2
                    &&& is_row(self.pairings(), now, k, r@[j])
                },
            forall|k: (Seq<char>, Seq<char>)| #[trigger]
                self.pairings().contains_key(k) && self.pairings()[k].samples@.len() >= 2
                    ==> exists|j: int| 0 <= j < r@.len() && (#[trigger] r@[j]).base@ == k.0
                    && r@[j].peer@ == k.1,
            forall|i: int, j: int|
                0 <= i < j < r@.len() ==> ((#[trigger] r@[i]).base@, r@[i].peer@) != ((
                #[trigger] r@[j]).base@, r@[j].peer@),
    {
        let mut r: Vec<SyncRow> = Vec::new();
        let ghost mut places = Seq::<int>::empty();
        let n: usize = self.pairings.len();
        let mut i: usize = 0;
        proof {
            self.pairings.lemma_keys();
        }
        while i < n
            invariant
                i <= n,
                n == self.pairings.keys().len(),
                self.wf(),
                forall|a: int, b: int|
                    0 <= a < b < n ==> #[trigger] self.pairings.keys()[a]
                        != #[trigger] self.pairings.keys()[b],
                places.len() == r@.len(),
                forall|j: int|
                    0 <= j < r@.len() ==> 0 <= #[trigger] places[j] < i && (r@[j].base@, r@[j].peer@)
                        == self.pairings.keys()[places[j]],
                forall|a: int, b: int|
                    0 <= a < b < r@.len() ==> #[trigger] places[a] < #[trigger] places[b],
                forall|j: int|
                    0 <= j < r@.len() ==> {
                        let k = ((#[trigger] r@[j]).base@, r@[j].peer@);
                        &&& self.pairings().contains_key(k)
                        &&& self.pairings()[k].samples@.len() >= 2
                        &&& is_row(self.pairings(), now, k, r@[j])
                    },
                forall|a: int|
                    0 <= a < i && self.pairings()[#[trigger] self.pairings.keys()[a]].samples@.len()
                        >= 2 ==> places.contains(a),
            decreases n - i,
        {
            let key = self.pairings.key_at(i);
            let p = self.pairings.row_at(i);
            let ghost before = places;
            if p.samples.len() >= 2 {
                r.push(
                    SyncRow {
                        base: key.0.clone(),
                        peer: key.1.clone(),
                        n: p.samples.len(),
                        error: p.error,
                        drift: p.drift,
                        i_drift: p.i_drift,
                        jumped: p.jumped,
                        outlier_total: p.outlier_total,
                        update_total: p.update_total,
                        outlier_scale: if p.update_total < 4 {
                            50
                        } else {
                            100
                        },
                        age_s: elapsed(now, p.updated) / SECOND,
                        base_peers: self.get_sync_peer_count(&key.0, now),
                        peer_peers: self.get_sync_peer_count(&key.1, now),
                    },
                );
                proof {
                    places = places.push(i as int);
                    assert(places.last() == i as int);
                }
            }
            proof {
                assert forall|a: int|
                    0 <= a < i + 1 && self.pairings()[#[trigger] self.pairings.keys()[a]].samples@.len()
                        >= 2 implies places.contains(a) by {
                    if a < i {
                        let j = choose|j: int| 0 <= j < before.len() && before[j] == a;
                        assert(places[j] == a);
                    } else {
                        assert(places[places.len() - 1] == a);
                    }
                }
            }
            i += 1;
        }
        proof {
            self.pairings.lemma_keys();
            assert forall|k: (Seq<char>, Seq<char>)| #[trigger]
                self.pairings().contains_key(k) && self.pairings()[k].samples@.len()
                    >= 2 implies exists|j: int|
                0 <= j < r@.len() && (#[trigger] r@[j]).base@ == k.0 && r@[j].peer@ == k.1 by {
                assert(self.pairings@.contains_key(k));
                let a = choose|a: int|
                    0 <= a < self.pairings.keys().len() && self.pairings.keys()[a] == k;
                assert(places.contains(a));
                let j = choose|j: int| 0 <= j < places.len() && places[j] == a;
                assert((r@[j].base@, r@[j].peer@) == k);
            }
            assert forall|i: int, j: int| 0 <= i < j < r@.len() implies ((#[trigger] r@[i]).base@,
                r@[i].peer@) != ((#[trigger] r@[j]).base@, r@[j].peer@) by {
                assert(places[i] < places[j]);
            }
        }
        r
    }
}

impl ClockSyncGraph {
    /// Each pairing with two samples or more, under both of its receivers.
    pub fn export_sync_map(&self, now: u64) -> (r: Vec<SyncEntry>)
        requires
            self.wf(),
        ensures
            forall|i: int|
                0 <= i < r@.len() ==> is_entry(self.pairings(), now, #[trigger] r@[i]),
            forall|k: (Seq<char>, Seq<char>)| #[trigger]
                self.pairings().contains_key(k) && self.pairings()[k].samples@.len() >= 2 ==> lists(
                    r@,
                    k.0,
                    k.1,
                ) && lists(r@, k.1, k.0),
            forall|i: int, j: int|
                0 <= i < j < r@.len() ==> ((#[trigger] r@[i]).from@, r@[i].to@) != ((
                #[trigger] r@[j]).from@, r@[j].to@),
    {
        let rows: Vec<SyncRow> = self.sync_rows(now);
        let mut r: Vec<SyncEntry> = Vec::new();
        let n: usize = rows.len();
        let mut i: usize = 0;
        proof {
            self.law_pairings_in_order();
        }
        while i < n
            invariant
                i <= n,
                n == rows@.len(),
                r@.len() == 2 * i,
                self.wf(),
                forall|j: int|
                    0 <= j < n ==> {
                        let k = ((#[trigger] rows@[j]).base@, rows@[j].peer@);
                        &&& self.pairings().contains_key(k)
                        &&& self.pairings()[k].samples@.len() >= 2
                        &&& is_row(self.pairings(), now, k, rows@[j])
                        &&& text_less(k.0, k.1)
                    },
                forall|j: int| 0 <= j < r@.len() ==> is_entry(self.pairings(), now, #[trigger] r@[j]),
                forall|j: int|
                    0 <= j < i ==> {
                        &&& (#[trigger] rows@[j]).base@ == r@[2 * j].from@
                        &&& rows@[j].peer@ == r@[2 * j].to@
                        &&& rows@[j].peer@ == r@[2 * j + 1].from@
                        &&& rows@[j].base@ == r@[2 * j + 1].to@
                    },
            decreases n - i,
        {
            let x: &SyncRow = &rows[i];
            let ghost before = r@;
            proof {
                law_text_order(x.base@, x.peer@);
                law_pair_key_symmetric(x.base@, x.peer@);
            }
            r.push(entry(x, x.base.clone(), x.peer.clone(), x.drift, x.peer_peers));
            assert(is_entry(self.pairings(), now, r@[2 * i as int]));
            r.push(entry(x, x.peer.clone(), x.base.clone(), x.i_drift, x.base_peers));
            proof {
                assert(is_entry(self.pairings(), now, r@[2 * i + 1]));
                assert forall|j: int| 0 <= j < r@.len() implies is_entry(
                    self.pairings(),
                    now,
                    #[trigger] r@[j],
                ) by {
                    if j < before.len() {
                        assert(r@[j] == before[j]);
                    }
                }
                assert forall|j: int| 0 <= j < i implies {
                    &&& (#[trigger] rows@[j]).base@ == r@[2 * j].from@
                    &&& rows@[j].peer@ == r@[2 * j].to@
                    &&& rows@[j].peer@ == r@[2 * j + 1].from@
                    &&& rows@[j].base@ == r@[2 * j + 1].to@
                } by {
                    assert(r@[2 * j] == before[2 * j]);
                    assert(r@[2 * j + 1] == before[2 * j + 1]);
                }
            }
            i += 1;
        }
        proof {
            assert forall|k: (Seq<char>, Seq<char>)| #[trigger]
                self.pairings().contains_key(k) && self.pairings()[k].samples@.len()
                    >= 2 implies lists(r@, k.0, k.1) && lists(r@, k.1, k.0) by {
                let j = choose|j: int|
                    0 <= j < rows@.len() && (#[trigger] rows@[j]).base@ == k.0 && rows@[j].peer@
                        == k.1;
                assert(r@[2 * j].from@ == k.0 && r@[2 * j].to@ == k.1);
                assert(r@[2 * j + 1].from@ == k.1 && r@[2 * j + 1].to@ == k.0);
            }
            assert forall|i: int, j: int| 0 <= i < j < r@.len() implies ((#[trigger] r@[i]).from@,
                r@[i].to@) != ((#[trigger] r@[j]).from@, r@[j].to@) by {
                let a = rows@[i / 2];
                let b = rows@[j / 2];
                assert(i == 2 * (i / 2) || i == 2 * (i / 2) + 1);
                assert(j == 2 * (j / 2) || j == 2 * (j / 2) + 1);
                law_text_order(a.base@, a.peer@);
                law_text_order(b.base@, b.peer@);
                if i / 2 != j / 2 {
                    assert((rows@[i / 2].base@, rows@[i / 2].peer@) != (
                    rows@[j / 2].base@,
                    rows@[j / 2].peer@,
                    ));
                }
            }
        }
        r
    }
}

/// The entry of one receiver with another, of the row of their pairing.
fn entry(x: &SyncRow, from: String, to: String, drift: Scalar, peers: usize) -> (e: SyncEntry)
    ensures
        e == (SyncEntry {
            from,
            to,
            n: x.n,
            error: x.error,
            drift,
            jumped: x.jumped,
            outlier_total: x.outlier_total,
            update_total: x.update_total,
            outlier_scale: x.outlier_scale,
            age_s: x.age_s,
            peers,
        }),
{
    SyncEntry {
        from,
        to,
        n: x.n,
        error: x.error,
        drift,
        jumped: x.jumped,
        outlier_total: x.outlier_total,
        update_total: x.update_total,
        outlier_scale: x.outlier_scale,
        age_s: x.age_s,
        peers,
    }
}

/// The two entries of a pairing agree in all but the drift and the other's peers.
pub proof fn law_directions_agree(pairings: Pairings, now: u64, a: SyncEntry, b: SyncEntry)
    requires
        is_entry(pairings, now, a),
        is_entry(pairings, now, b),
        a.from@ == b.to@,
        a.to@ == b.from@,
    ensures
        a.n == b.n,
        a.error == b.error,
        a.jumped == b.jumped,
        a.outlier_total == b.outlier_total,
        a.update_total == b.update_total,
        a.outlier_scale == b.outlier_scale,
        a.age_s == b.age_s,
{
    law_pair_key_symmetric(a.from@, a.to@);
}

impl Default for ClockSyncGraph {
    fn default() -> (g: ClockSyncGraph)
        ensures
            g.wf(),
            g.pairings() == Pairings::empty(),
            (g.positions() == Map::<Seq<char>, (EcefPoint, GeodeticPoint)>::empty()),
    {
        ClockSyncGraph::new()
    }
}

/// The indices in a list of routes.
pub open spec fn indices(routes: Seq<(usize, Route)>) -> Seq<int> {
    routes.map_values(|r: (usize, Route)| r.0 as int)
}

/// The names in a list.
pub open spec fn names(users: Seq<String>) -> Seq<Seq<char>> {
    users.map_values(|u: String| u@)
}

/// No observation is reached twice.
pub proof fn lemma_reachable_len(
    pairings: Pairings,
    now: u64,
    users: Seq<Seq<char>>,
    root: int,
    n: int,
)
    requires
        0 <= root < users.len(),
        0 <= n <= users.len(),
    ensures
        reachable_before(pairings, now, users, root, n).len() <= (if root < n {
            n - 1
        } else {
            n
        }),
    decreases n,
{
    if n > 0 {
        lemma_reachable_len(pairings, now, users, root, n - 1);
    }
}

/// Two receivers' pairing is the same one from either side.
pub proof fn law_pair_key_symmetric(a: Seq<char>, b: Seq<char>)
    ensures
        pair_key(a, b) == pair_key(b, a),
{
    law_text_order(a, b);
}

/// Where a time can be brought from one clock to another, it can be brought back.
pub proof fn law_connected_symmetric(pairings: Pairings, now: u64, a: Seq<char>, b: Seq<char>)
    ensures
        connected(pairings, now, a, b) == connected(pairings, now, b, a),
{
    assert forall|x: Seq<char>, y: Seq<char>| #[trigger]
        linked(pairings, now, x, y) implies linked(pairings, now, y, x) by {
        law_pair_key_symmetric(x, y);
    }
    if connected(pairings, now, a, b) && a != b && !linked(pairings, now, a, b) {
        let m = choose|m: Seq<char>| #[trigger]
            linked(pairings, now, a, m) && linked(pairings, now, m, b);
        assert(linked(pairings, now, b, m) && linked(pairings, now, m, a));
    }
    if connected(pairings, now, b, a) && a != b && !linked(pairings, now, b, a) {
        let m = choose|m: Seq<char>| #[trigger]
            linked(pairings, now, b, m) && linked(pairings, now, m, a);
        assert(linked(pairings, now, a, m) && linked(pairings, now, m, b));
    }
}

/// A time is brought over no pairing whose last sample is too old.
pub proof fn law_stale_pairings_lead_nowhere(
    pairings: Pairings,
    now: u64,
    a: Seq<char>,
    b: Seq<char>,
)
    requires
        a != b,
        forall|k: (Seq<char>, Seq<char>)| #[trigger]
            pairings.contains_key(k) ==> since(now, pairings[k].updated) >= MAX_PAIRING_AGE,
    ensures
        !connected(pairings, now, a, b),
{
}

/// Once a receiver is removed no time can be brought to its clock or from it.
pub proof fn law_removed_receiver_is_unreachable(
    pairings: Pairings,
    now: u64,
    user: Seq<char>,
    other: Seq<char>,
)
    requires
        user != other,
    ensures
        !connected(
            pairings.remove_keys(
                Set::new(|k: (Seq<char>, Seq<char>)| k.0 == user || k.1 == user),
            ),
            now,
            user,
            other,
        ),
        !connected(
            pairings.remove_keys(
                Set::new(|k: (Seq<char>, Seq<char>)| k.0 == user || k.1 == user),
            ),
            now,
            other,
            user,
        ),
{
    let left = pairings.remove_keys(
        Set::new(|k: (Seq<char>, Seq<char>)| k.0 == user || k.1 == user),
    );
    assert forall|m: Seq<char>| !#[trigger] linked(left, now, user, m) && !linked(
        left,
        now,
        m,
        user,
    ) by {
        law_pair_key_symmetric(user, m);
    }
    law_connected_symmetric(left, now, user, other);
}

/// A pairing becomes usable with its second sample: two sync points in a row whose errors
/// are within the tolerance make it so, whatever was known before.
pub proof fn law_two_samples_make_valid(
    p: ClockPairing,
    t1: u64,
    s1: SyncPoint,
    e1: Estimate,
    q: ClockPairing,
    t2: u64,
    s2: SyncPoint,
    e2: Estimate,
    r: ClockPairing,
)
    requires
        p.wf(),
        paired(p, t1, s1, e1, q),
        !is_outlier(p, e1),
        paired(q, t2, s2, e2, r),
        !is_outlier(q, e2),
    ensures
        r.valid,
        r.is_live(t2),
        r.samples@.last().base == s2.base_ts,
        r.samples@.last().peer == s2.peer_ts,
{
}

/// An outlier changes nothing by which times are converted, unless it ends the history, and
/// then nothing is converted.
pub proof fn law_outlier_changes_no_conversion(
    p: ClockPairing,
    now: u64,
    s: SyncPoint,
    e: Estimate,
    q: ClockPairing,
)
    requires
        p.wf(),
        p.samples@.len() > 0,
        is_outlier(p, e),
        paired(p, now, s, e, q),
    ensures
        q.factor == p.factor,
        q.i_factor == p.i_factor,
        q.updated == p.updated,
        ends_history(p) ==> !q.valid && q.samples@.len() == 0,
        !ends_history(p) ==> q.valid == p.valid && q.samples@.last() == p.samples@.last(),
{
}

/// The third outlier in a row ends the history.
pub proof fn law_three_outliers_end_history(
    p: ClockPairing,
    now: u64,
    s: SyncPoint,
    e: Estimate,
    q: ClockPairing,
)
    requires
        p.wf(),
        p.outliers == 2,
        is_outlier(p, e),
        paired(p, now, s, e, q),
    ensures
        !q.valid,
        q.samples@.len() == 0,
        q.outliers == 0,
{
}

/// What the limits are worth, to a billionth of themselves or better: errors up to 200 and sums up
/// to 100 microseconds, drifts up to 800 parts in a million, ages in nanoseconds, and counts.
pub proof fn law_clock_limits_in_numbers()
    ensures
        199_999_999 * one() <= 1_000_000_000_000 * (Scalar { bits: OUTLIER_LIMIT }).units(),
        1_000_000_000_000 * (Scalar { bits: OUTLIER_LIMIT }).units() <= 200_000_001 * one(),
        799_999_999 * one() <= 1_000_000_000_000 * (Scalar { bits: DRIFT_LIMIT }).units(),
        1_000_000_000_000 * (Scalar { bits: DRIFT_LIMIT }).units() <= 800_000_001 * one(),
        99_999_999 * one() <= 1_000_000_000_000 * (Scalar { bits: ERROR_LIMIT }).units(),
        1_000_000_000_000 * (Scalar { bits: ERROR_LIMIT }).units() <= 100_000_001 * one(),
        999_999_999 * one() <= 1_000_000_000_000_000 * (Scalar { bits: MICRO }).units(),
        1_000_000_000_000_000 * (Scalar { bits: MICRO }).units() <= 1_000_000_001 * one(),
        (Scalar { bits: ONE }).units() == one(),
        one() > 0,
        MAX_PAIRING_AGE == 180_000_000_000,
        PAIRING_LIFETIME == 300_000_000_000,
        CLOCK_HZ == 12_000_000,
        SPEED_OF_LIGHT == 299_702_547,
{
    lemma2_to64();
    lemma2_to64_rest();
    lemma_pow2_pos(1074);
    lemma_pow2_adds(64, 1);
    lemma_pow2_adds(64, 2);
    lemma_pow2_adds(64, 8);
    lemma_units(OUTLIER_LIMIT as int, 0x1a36e2eb1c432d, 0x20000000000000000);
    lemma_units(DRIFT_LIMIT as int, 0x1a36e2eb1c432d, 0x8000000000000000);
    lemma_units(ERROR_LIMIT as int, 0x1a36e2eb1c432d, 0x40000000000000000);
    lemma_units(MICRO as int, 0x10c6f7a0b5ed8d, 0x1000000000000000000);
    lemma_units(ONE as int, 0x10000000000000, 0x10000000000000);
}

/// The drift of a sync point is believed if and only if both intervals are positive and its
/// magnitude is at most 800 parts in a million, so that a clock that runs slow is believed where
/// one that runs fast by as much is.
pub proof fn law_drift_is_believed_either_way(s: SyncPoint, e: Estimate, turned: Estimate)
    requires
        !s.base_interval.is_nan(),
        !s.peer_interval.is_nan(),
        !e.new_drift.is_nan(),
        turned.new_drift == e.new_drift.opposite(),
    ensures
        drift_believed(s, e) <==> {
            let most = (Scalar { bits: DRIFT_LIMIT }).units();
            s.base_interval.units() > 0 && s.peer_interval.units() > 0 && -most
                <= e.new_drift.units() <= most
        },
        drift_believed(s, turned) == drift_believed(s, e),
        drift_believed(s.mirrored(), e) == drift_believed(s, e),
        s.base_interval.units() > 0 && s.peer_interval.units() > 0 && -799 * one() <= 1_000_000
            * e.new_drift.units() <= 799 * one() ==> drift_believed(s, e),
        1_000_000 * e.new_drift.units() > 801 * one() || 1_000_000 * e.new_drift.units() < -801
            * one() ==> !drift_believed(s, e),
{
    law_clock_limits_in_numbers();
}

/// A first drift that is believed is taken as it is, a later one blended with what was known;
/// one that is not believed changes nothing. The drift the other way round goes with it.
pub proof fn law_believed_drift_is_taken(
    p: ClockPairing,
    now: u64,
    s: SyncPoint,
    e: Estimate,
    q: ClockPairing,
)
    requires
        paired(p, now, s, e, q),
        p.samples@.len() == 0 || !beyond(e.error, OUTLIER_LIMIT),
        p.drift_n < u64::MAX,
        !s.base_interval.is_nan(),
        !s.peer_interval.is_nan(),
        !e.new_drift.is_nan(),
    ensures
        ({
            let most = (Scalar { bits: DRIFT_LIMIT }).units();
            if s.base_interval.units() > 0 && s.peer_interval.units() > 0 && -most
                <= e.new_drift.units() <= most {
                &&& q.drift_n == p.drift_n + 1
                &&& q.i_drift == e.i_drift
                &&& p.drift_n == 0 ==> q.drift == e.new_drift && q.raw_drift == e.new_drift
                &&& p.drift_n > 0 ==> q.drift == e.blended_drift && q.raw_drift
                    == e.blended_raw_drift
            } else {
                q.drift_n == p.drift_n && q.drift == p.drift && q.raw_drift == p.raw_drift
                    && q.i_drift == p.i_drift
            }
        }),
{
    law_drift_is_believed_either_way(
        s,
        e,
        Estimate { new_drift: e.new_drift.opposite(), ..e },
    );
}

/// A sync point joins a pairing if and only if it is the first, or its error is at most 200
/// microseconds to either side. One that joins is the last sample, ends a run of outliers and
/// sets the rates; one that does not is counted and changes no rate.
pub proof fn law_tolerable_sample_joins(
    p: ClockPairing,
    now: u64,
    s: SyncPoint,
    e: Estimate,
    q: ClockPairing,
)
    requires
        p.wf(),
        paired(p, now, s, e, q),
        !e.error.is_nan(),
        p.update_total < u64::MAX,
        p.outlier_total < u64::MAX,
    ensures
        q.update_total == p.update_total + 1,
        q.base_user@ == p.base_user@,
        q.peer_user@ == p.peer_user@,
        ({
            let most = (Scalar { bits: OUTLIER_LIMIT }).units();
            if p.samples@.len() == 0 || -most <= e.error.units() <= most {
                &&& q.samples@.len() > 0
                &&& q.samples@.last().base == s.base_ts
                &&& q.samples@.last().peer == s.peer_ts
                &&& q.samples@.len() > 1 ==> q.samples@.last().var == e.var
                &&& q.samples@.len() > 1 ==> q.samples@[q.samples@.len() - 2] == p.samples@.last()
                &&& q.samples@.len() == 1 ==> q.samples@.last().var.units() == 0
                &&& q.samples@.len() == (if p.samples@.len() == 31 {
                    28
                } else {
                    p.samples@.len() + 1
                })
                &&& q.updated == now
                &&& q.outliers == 0
                &&& q.outlier_total == p.outlier_total
                &&& q.factor == e.factor
                &&& q.i_factor == e.i_factor
                &&& q.valid == (p.samples@.len() > 0)
                &&& q.valid ==> q.error == e.spread
            } else {
                &&& q.updated == p.updated
                &&& q.outlier_total == p.outlier_total + 1
                &&& q.factor == p.factor
                &&& q.i_factor == p.i_factor
                &&& q.drift == p.drift
                &&& q.i_drift == p.i_drift
                &&& p.outliers == 2 ==> q.samples@.len() == 0 && !q.valid && q.outliers == 0
                &&& p.outliers < 2 && 5 * (p.outlier_total + 1) <= 4 * (p.update_total + 1)
                    ==> q.outliers == p.outliers + 1 && q.valid == p.valid && q.samples@.len() > 0
                    && q.samples@.last() == p.samples@.last()
                &&& p.update_total >= 4 && 5 * (p.outlier_total + 1) > 4 * (p.update_total + 1)
                    ==> q.samples@.len() == 0 && !q.valid && q.outliers == 0
                &&& p.outliers < 2 && p.update_total < 4 ==> q.outliers == p.outliers + 1
            }
        }),
{
    law_clock_limits_in_numbers();
    lemma_positive_order(Scalar { bits: 0 }, Scalar { bits: OUTLIER_LIMIT });
}

/// Room is made by forgetting the four oldest of 31 samples, and nothing else.
pub proof fn law_newest_samples_are_kept(samples: Seq<Sample>, i: int)
    requires
        samples.len() < 32,
        0 <= i < samples.len(),
    ensures
        samples.len() < 31 ==> pruned(samples) == samples,
        samples.len() == 31 ==> pruned(samples).len() == 27,
        samples.len() == 31 && i >= 4 ==> pruned(samples)[i - 4] == samples[i],
{
}

/// A summed error within 100 microseconds is kept; one beyond is cut off on its own side.
pub proof fn law_summed_error_is_cut_off(sum: Scalar)
    requires
        !sum.is_nan(),
    ensures
        ({
            let most = (Scalar { bits: ERROR_LIMIT }).units();
            &&& -most <= sum.units() <= most ==> bounded(sum) == sum
            &&& sum.units() > most ==> bounded(sum).units() == most
            &&& sum.units() < -most ==> bounded(sum).units() == -most
        }),
{
}

/// A history ends early if and only if there were five sync points or more, and more than four
/// fifths of them were outliers.
pub proof fn law_four_fifths_are_too_many(outliers: u64, updates: u64)
    ensures
        mostly_outliers(outliers, updates) <==> updates >= 5 && 5 * outliers > 4 * updates,
{
}

/// A pairing that is valid converts times for 180 seconds from its last sample, not longer.
pub proof fn law_pairing_lives_for_three_minutes(p: ClockPairing, now: u64)
    ensures
        now < p.updated + 180_000_000_000 ==> p.is_live(now) == p.valid,
        now >= p.updated + 180_000_000_000 ==> !p.is_live(now),
{
}

/// Seen from the other side, the two receivers change places.
pub proof fn law_mirrored_changes_places(s: SyncPoint)
    ensures
        s.mirrored().mirrored() == s,
        s.mirrored().base_ts == s.peer_ts,
        s.mirrored().peer_ts == s.base_ts,
        s.mirrored().base_interval == s.peer_interval,
        s.mirrored().peer_interval == s.base_interval,
{
}

/// A pairing stands under the names of its two receivers, the lesser first.
pub proof fn law_pair_key_holds_both(a: Seq<char>, b: Seq<char>)
    ensures
        pair_key(a, b) == (a, b) || pair_key(a, b) == (b, a),
        text_less(a, b) ==> pair_key(a, b) == (a, b),
        text_less(b, a) ==> pair_key(a, b) == (b, a),
{
    law_text_order(a, b);
}

/// A time is brought between two clocks that have a valid pairing no older than three minutes,
/// or that both have one with a third; every clock agrees with itself.
pub proof fn law_fresh_pairings_connect(
    pairings: Pairings,
    now: u64,
    a: Seq<char>,
    m: Seq<char>,
    b: Seq<char>,
)
    requires
        text_less(a, m),
        pairings.contains_key((a, m)),
        pairings[(a, m)].valid,
        now < pairings[(a, m)].updated + 180_000_000_000,
    ensures
        connected(pairings, now, a, a),
        connected(pairings, now, a, m),
        connected(pairings, now, m, a),
        text_less(m, b) && pairings.contains_key((m, b)) && pairings[(m, b)].valid && now
            < pairings[(m, b)].updated + 180_000_000_000 ==> connected(pairings, now, a, b)
            && connected(pairings, now, b, a),
        text_less(b, m) && pairings.contains_key((b, m)) && pairings[(b, m)].valid && now
            < pairings[(b, m)].updated + 180_000_000_000 ==> connected(pairings, now, a, b)
            && connected(pairings, now, b, a),
{
    law_text_order(a, m);
    law_text_order(m, b);
    law_connected_symmetric(pairings, now, a, m);
    law_connected_symmetric(pairings, now, a, b);
    assert(linked(pairings, now, a, m));
    assert(linked(pairings, now, m, b) || !(text_less(m, b) && pairings.contains_key((m, b))
        && pairings[(m, b)].valid && now < pairings[(m, b)].updated + 180_000_000_000));
    assert(linked(pairings, now, m, b) || !(text_less(b, m) && pairings.contains_key((b, m))
        && pairings[(b, m)].valid && now < pairings[(b, m)].updated + 180_000_000_000));
}

/// Two clocks without a valid and recent pairing, neither with each other nor both with a third,
/// are not connected: each step of a route is over such a pairing, and goes forward if and only
/// if it starts at the base of it.
pub proof fn law_routes_go_over_pairings(
    pairings: Pairings,
    now: u64,
    a: Seq<char>,
    b: Seq<char>,
    route: Route,
)
    requires
        leads(pairings, now, a, b, route),
        forall|k: (Seq<char>, Seq<char>)| #[trigger]
            pairings.contains_key(k) ==> text_less(k.0, k.1) && pairings[k].base_user@ == k.0
                && pairings[k].peer_user@ == k.1,
    ensures
        connected(pairings, now, a, b),
        route is Same <==> a == b,
        route matches Route::Direct { forward } ==> is_step(pairings, now, a, b, forward),
        route matches Route::Via { mid, first_forward, second_forward } ==> is_step(
            pairings,
            now,
            a,
            mid@,
            first_forward,
        ) && is_step(pairings, now, mid@, b, second_forward) && mid@ != a && mid@ != b && !is_step(
            pairings,
            now,
            a,
            b,
            true,
        ) && !is_step(pairings, now, a, b, false),
{
    law_text_order(a, b);
    match route {
        Route::Via { mid, first_forward, second_forward } => {
            law_text_order(a, mid@);
            law_text_order(mid@, b);
            assert(linked(pairings, now, a, mid@) && linked(pairings, now, mid@, b));
        },
        _ => {},
    }
}

/// There is a valid pairing of the two with a sample of the last three minutes, and its base is
/// where the step starts if it goes forward, else where it ends.
pub open spec fn is_step(
    pairings: Pairings,
    now: u64,
    from: Seq<char>,
    to: Seq<char>,
    forward: bool,
) -> bool {
    exists|k: (Seq<char>, Seq<char>)| #[trigger]
        pairings.contains_key(k) && pairings[k].valid && now < pairings[k].updated
            + 180_000_000_000 && (if forward {
            pairings[k].base_user@ == from && pairings[k].peer_user@ == to
        } else {
            pairings[k].base_user@ == to && pairings[k].peer_user@ == from
        })
}

/// The observations that are brought to a clock are its own, first, and those whose clocks are
/// connected with it, each once and in their order.
pub proof fn law_all_connected_are_reached(
    pairings: Pairings,
    now: u64,
    users: Seq<Seq<char>>,
    root: int,
    j: int,
)
    requires
        0 <= root < users.len(),
        0 <= j < users.len(),
    ensures
        reachable(pairings, now, users, root)[0] == root,
        reachable(pairings, now, users, root).contains(j) <==> j == root || connected(
            pairings,
            now,
            users[j],
            users[root],
        ),
        forall|x: int, y: int|
            1 <= x < y < reachable(pairings, now, users, root).len() ==> #[trigger] reachable(
                pairings,
                now,
                users,
                root,
            )[x] < #[trigger] reachable(pairings, now, users, root)[y],
{
    let before = reachable_before(pairings, now, users, root, users.len() as int);
    let all = reachable(pairings, now, users, root);
    lemma_reached(pairings, now, users, root, users.len() as int, j);
    if before.contains(j) {
        let i = choose|i: int| 0 <= i < before.len() && before[i] == j;
        assert(all[i + 1] == j);
    }
    if all.contains(j) && j != root {
        let i = choose|i: int| 0 <= i < all.len() && all[i] == j;
        assert(before[i - 1] == j);
    }
    assert(all[0] == root);
}

proof fn lemma_reached(
    pairings: Pairings,
    now: u64,
    users: Seq<Seq<char>>,
    root: int,
    n: int,
    j: int,
)
    requires
        0 <= n <= users.len(),
        0 <= j,
    ensures
        reachable_before(pairings, now, users, root, n).contains(j) <==> j < n && j != root
            && connected(pairings, now, users[j], users[root]),
        forall|x: int|
            0 <= x < reachable_before(pairings, now, users, root, n).len() ==> 0
                <= #[trigger] reachable_before(pairings, now, users, root, n)[x] < n,
        forall|x: int, y: int|
            0 <= x < y < reachable_before(pairings, now, users, root, n).len()
                ==> #[trigger] reachable_before(pairings, now, users, root, n)[x]
                < #[trigger] reachable_before(pairings, now, users, root, n)[y],
    decreases n,
{
    if n > 0 {
        lemma_reached(pairings, now, users, root, n - 1, j);
        let before = reachable_before(pairings, now, users, root, n - 1);
        let all = reachable_before(pairings, now, users, root, n);
        if all.len() > before.len() {
            assert(all[before.len() as int] == n - 1);
            if before.contains(j) {
                let i = choose|i: int| 0 <= i < before.len() && before[i] == j;
                assert(all[i] == j);
            }
            if all.contains(j) && j != n - 1 {
                let i = choose|i: int| 0 <= i < all.len() && all[i] == j;
                assert(before[i] == j);
            }
        }
    }
}

/// An entry shows the drift as the receiver that it stands under sees it: that of the pairing
/// where it is the base, the one the other way round where it is the peer.
pub proof fn law_entry_shows_its_side(
    pairings: Pairings,
    now: u64,
    e: SyncEntry,
    k: (Seq<char>, Seq<char>),
)
    requires
        is_entry(pairings, now, e),
        text_less(k.0, k.1),
    ensures
        e.from@ == k.0 && e.to@ == k.1 ==> e.drift == pairings[k].drift,
        e.from@ == k.1 && e.to@ == k.0 ==> e.drift == pairings[k].i_drift,
        (e.from@ == k.0 && e.to@ == k.1) || (e.from@ == k.1 && e.to@ == k.0) ==> {
            let p = pairings[k];
            &&& pairings.contains_key(k)
            &&& e.n == p.samples@.len()
            &&& e.n >= 2
            &&& e.error == p.error
            &&& e.jumped == p.jumped
            &&& e.outlier_total == p.outlier_total
            &&& e.update_total == p.update_total
            &&& p.update_total <= 3 ==> e.outlier_scale == 50
            &&& p.update_total >= 4 ==> e.outlier_scale == 100
            &&& e.peers == links_of(pairings, now, e.to@).len()
            &&& now >= p.updated ==> e.age_s * 1_000_000_000 <= now - p.updated < (e.age_s + 1)
                * 1_000_000_000
            &&& now < p.updated ==> e.age_s == 0
        },
{
    law_text_order(k.0, k.1);
}

/// The usable pairings of a receiver are those under its name that are valid and no older than
/// three minutes.
pub proof fn law_links_are_usable(
    pairings: Pairings,
    now: u64,
    user: Seq<char>,
    k: (Seq<char>, Seq<char>),
)
    ensures
        links_of(pairings, now, user).contains(k) <==> pairings.contains_key(k) && (k.0 == user
            || k.1 == user) && pairings[k].valid && now < pairings[k].updated + 180_000_000_000,
{
}

/// A row shows its pairing: the samples, the error, both drifts and the counts as they are, the
/// age in whole seconds, and a scale that is halved while fewer than four samples were taken.
pub proof fn law_row_shows_its_pairing(
    pairings: Pairings,
    now: u64,
    key: (Seq<char>, Seq<char>),
    r: SyncRow,
)
    requires
        is_row(pairings, now, key, r),
    ensures
        r.base@ == key.0 && r.peer@ == key.1,
        ({
            let p = pairings[key];
            &&& r.n == p.samples@.len()
            &&& r.error == p.error
            &&& r.drift == p.drift
            &&& r.i_drift == p.i_drift
            &&& r.jumped == p.jumped
            &&& r.outlier_total == p.outlier_total
            &&& r.update_total == p.update_total
            &&& p.update_total <= 3 ==> r.outlier_scale == 50
            &&& p.update_total >= 4 ==> r.outlier_scale == 100
            &&& now >= p.updated ==> r.age_s * 1_000_000_000 <= now - p.updated < (r.age_s + 1)
                * 1_000_000_000
            &&& now < p.updated ==> r.age_s == 0
        }),
        r.base_peers == links_of(pairings, now, key.0).len(),
        r.peer_peers == links_of(pairings, now, key.1).len(),
{
}

/// Two clocks that were never compared start with no drift either way, a rate of one, an error
/// of a millionth of a second and no samples, and convert nothing yet.
pub proof fn law_new_pairing_converts_nothing(
    p: ClockPairing,
    base: Seq<char>,
    peer: Seq<char>,
    now: u64,
    later: u64,
)
    requires
        p.is_fresh(base, peer, now),
    ensures
        !p.is_live(later),
        p.base_user@ == base && p.peer_user@ == peer,
        p.updated == now,
        p.drift.units() == 0 && p.i_drift.units() == 0 && p.raw_drift.units() == 0,
        p.cumulative_error.units() == 0,
        p.factor.units() == one() && p.i_factor.units() == one(),
        p.samples@.len() == 0 && p.drift_n == 0 && p.outliers == 0 && p.jumped == 0,
        p.outlier_total == 0 && p.update_total == 0,
{
    lemma2_to64();
    lemma2_to64_rest();
    lemma_units(ONE as int, 0x10000000000000, 0x10000000000000);
}

} // verus!
