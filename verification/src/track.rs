//! The life of a track: which multilateration fix an aircraft's track takes, and what it
//! makes of it.
//!
//! Distances, speeds and smoothed positions are measurements that the caller supplies; the
//! rules are here. Times are in nanoseconds.

use crate::coordinates::{EcefPoint, GeodeticPoint};
use crate::scalar::{law_rounded_is_nearest, lemma_positive_order, lemma_units, one, Scalar};
use crate::sets::NameSet;
use vstd::arithmetic::power2::{lemma2_to64, lemma2_to64_rest, lemma_pow2_pos, pow2};
use vstd::prelude::*;

verus! {

/// One second.
pub const SECOND: u64 = 1_000_000_000;

/// One millisecond.
pub const MILLISECOND: u64 = 1_000_000;

/// The greatest speed of an aircraft, in metres per second.
pub const MAX_SPEED: u64 = 340;

/// The greatest vertical rate that is believed, in feet per minute.
pub const MAX_RATE: u64 = 8000;

/// The smoothed state of one track.
#[derive(Clone, Copy, Debug)]
pub struct TrackFilter {
    pub pos_ecef: EcefPoint,
    pub vel_ecef: EcefPoint,
    pub geo: GeodeticPoint,
    pub track_deg: Option<Scalar>,
    pub speed_kts: Option<Scalar>,
    pub last_update: u64,
    pub last_sbs_emission: u64,
    pub hits: usize,
    pub consecutive_rejects: usize,
    pub anchor_pos: EcefPoint,
    pub anchor_time: u64,
    pub is_locked_stationary: bool,
}

/// What is known of one aircraft.
#[derive(Debug)]
pub struct TrackedAircraft {
    pub icao: u32,
    pub filter: Option<TrackFilter>,
    pub altitude_ft: Option<i32>,
    pub last_altitude_time: Option<u64>,
    pub vertical_rate_fpm: Option<Scalar>,
    pub last_seen: u64,
    pub last_adsb_time: Option<u64>,
    pub tracking_receivers: NameSet,
    pub last_confirmed_pos: Option<(EcefPoint, u64)>,
    pub last_confirmed_vel: Option<EcefPoint>,
}

/// The time from `then` to `now`, zero where `then` is later.
pub open spec fn since(now: u64, then: u64) -> int {
    if now >= then {
        now - then
    } else {
        0
    }
}

/// The time from `then` to `now`, zero where `then` is later.
pub fn elapsed(now: u64, then: u64) -> (t: u64)
    ensures
        t == since(now, then),
        then <= now ==> then + t == now,
        now <= then ==> t == 0,
{
    if now >= then {
        now - then
    } else {
        0
    }
}

/// A vertical rate within the limit of what is believed.
pub open spec fn rate_in_range(rate: Scalar) -> bool {
    !rate.above(MAX_RATE as int, 1) && !rate.opposite().above(MAX_RATE as int, 1)
}

impl TrackedAircraft {
    /// The vertical rate is one that is believed.
    pub open spec fn wf(self) -> bool {
        &&& self.tracking_receivers.wf()
        &&& self.vertical_rate_fpm matches Some(rate) ==> rate_in_range(rate)
    }

    /// An aircraft of which nothing is known but that it was seen.
    pub open spec fn is_fresh(self, icao: u32, now: u64) -> bool {
        &&& self.icao == icao
        &&& self.filter is None
        &&& self.altitude_ft is None
        &&& self.last_altitude_time is None
        &&& self.vertical_rate_fpm is None
        &&& self.last_seen == now
        &&& self.last_adsb_time is None
        &&& self.tracking_receivers@ == Set::<Seq<char>>::empty()
        &&& self.last_confirmed_pos is None
        &&& self.last_confirmed_vel is None
    }

    pub fn new(icao: u32, now: u64) -> (ac: Self)
        ensures
            ac.is_fresh(icao, now),
            ac.wf(),
            ac.icao == icao,
            ac.last_seen == now,
            ac.filter is None && ac.last_confirmed_pos is None && ac.last_confirmed_vel is None,
            ac.altitude_ft is None && ac.last_altitude_time is None && ac.vertical_rate_fpm is None,
            ac.last_adsb_time is None,
            ac.tracking_receivers@.len() == 0,
    {
        TrackedAircraft {
            icao,
            filter: None,
            altitude_ft: None,
            last_altitude_time: None,
            vertical_rate_fpm: None,
            last_seen: now,
            last_adsb_time: None,
            tracking_receivers: NameSet::new(),
            last_confirmed_pos: None,
            last_confirmed_vel: None,
        }
    }
}

/// A position that the receivers have solved for.
#[derive(Clone, Copy, Debug)]
pub struct Fix {
    pub ecef: EcefPoint,
    pub geo: GeodeticPoint,
    pub receiver_count: usize,
    pub gdop: Scalar,
    pub residual_rms: Scalar,
}

/// How far a fix is, in metres, from the last confirmed position, from the anchor of the
/// track, from its last position and from its predicted position; each counts only where
/// the track has such a position.
#[derive(Clone, Copy, Debug)]
pub struct Distances {
    pub confirmed: Scalar,
    pub anchor: Scalar,
    pub track: Scalar,
    pub prediction: Scalar,
}

/// What a fix makes of a track: the mean position of a stationary target, the velocity
/// between two fixes, and the smoothed position and velocity with their heading and speed,
/// and the mean speed since the anchor was set, in knots. Each counts only for the
/// verdicts that use it.
#[derive(Clone, Copy, Debug)]
pub struct Motion {
    pub mean: EcefPoint,
    pub mean_geo: GeodeticPoint,
    pub velocity: EcefPoint,
    pub smoothed: EcefPoint,
    pub smoothed_geo: GeodeticPoint,
    pub smoothed_velocity: EcefPoint,
    pub heading: Scalar,
    pub speed_kts: Scalar,
    pub anchor_kts: Scalar,
}

/// What becomes of a fix.
#[derive(Clone, Copy, Debug, PartialEq, Eq, Structural)]
pub enum Verdict {
    /// Farther from the last confirmed position than an aircraft can fly.
    Teleport,
    /// Too few receivers for a track that is not confirmed.
    TooFewStations,
    /// Bad geometry, or inconsistent measurements.
    PoorQuality,
    /// The first fix of a new track.
    Acquire,
    /// Too soon after the last fix.
    Duplicate,
    /// Too far from the place of a stationary target.
    OffAnchor,
    /// A stationary target, still in its place.
    Hold,
    /// Not consistent with the first fix: this is the first fix now.
    Restart,
    /// The second fix, consistent with the first.
    Confirm,
    /// Too far from the predicted position.
    Deviate,
    /// Too far from the predicted position, but so often that the track follows.
    Recover,
    /// Smoothed into the track.
    Smooth,
}

/// A distance in metres is more than `speed` metres per second times `dt` plus `allowance`
/// metres.
pub open spec fn out_of_reach(distance: Scalar, speed: int, dt: int, allowance: int) -> bool {
    distance.above(speed * dt + allowance * SECOND, SECOND as int)
}

/// Whether a distance is out of reach.
fn beyond(distance: Scalar, speed: u64, dt: u64, allowance: u64) -> (r: bool)
    requires
        speed <= 1000,
        dt <= 1000 * SECOND,
        allowance <= 10_000,
    ensures
        r == out_of_reach(distance, speed as int, dt as int, allowance as int),
{
    assert(speed * dt <= 1000 * (1000 * SECOND)) by (nonlinear_arith)
        requires
            speed <= 1000,
            dt <= 1000 * SECOND,
    ;
    assert(0 <= speed * dt) by (nonlinear_arith)
        requires
            speed >= 0,
            dt >= 0,
    ;
    distance.exceeds(speed * dt + allowance * SECOND, SECOND)
}

/// A track that has been confirmed and is still fresh: three hits, the last one within 30
/// seconds.
pub open spec fn has_confirmed_track(ac: TrackedAircraft, now: u64) -> bool {
    ac.filter matches Some(f) && f.hits >= 3 && since(now, f.last_update) <= 30 * SECOND
}

/// A track that has had a hit within 45 seconds.
pub open spec fn is_active(ac: TrackedAircraft, now: u64) -> bool {
    ac.filter matches Some(f) && since(now, f.last_update) <= 45 * SECOND
}

/// The fix is farther from a position confirmed within ten minutes than an aircraft can fly.
pub open spec fn is_teleport(ac: TrackedAircraft, now: u64, d: Distances) -> bool {
    ac.last_confirmed_pos matches Some((_, then)) && since(now, then) <= 600 * SECOND
        && out_of_reach(d.confirmed, MAX_SPEED as int, since(now, then), 1200)
}

/// The geometry or the residual is worse than the number of receivers allows.
pub open spec fn is_poor(fix: Fix) -> bool {
    ||| (if fix.receiver_count == 3 {
        fix.gdop.above(38, 10)
    } else {
        fix.gdop.above(46, 10)
    })
    ||| fix.residual_rms.above(9, 2)
}

/// What becomes of a fix of an active track.
pub open spec fn track_verdict(f: TrackFilter, now: u64, fix: Fix, d: Distances) -> Verdict {
    let dt = since(now, f.last_update);
    if dt < 80 * MILLISECOND {
        Verdict::Duplicate
    } else if f.is_locked_stationary {
        if d.anchor.above(3500, 1) {
            Verdict::OffAnchor
        } else {
            Verdict::Hold
        }
    } else if f.hits < 2 {
        if fix.receiver_count < 4 {
            Verdict::TooFewStations
        } else if dt > 15 * SECOND || out_of_reach(d.track, MAX_SPEED as int, dt, 500) {
            Verdict::Restart
        } else {
            Verdict::Confirm
        }
    } else if fix.receiver_count == 3 && (out_of_reach(d.prediction, 160, dt, 200)
        || d.prediction.above(500, 1)) {
        Verdict::Deviate
    } else if out_of_reach(d.prediction, 270, dt, 350) && d.prediction.above(500, 1) {
        if fix.receiver_count >= 4 && !fix.gdop.is_nan() && !fix.gdop.above(7, 2)
            && d.prediction.beneath(2000, 1) && f.consecutive_rejects + 1 >= 3 {
            Verdict::Recover
        } else {
            Verdict::Deviate
        }
    } else {
        Verdict::Smooth
    }
}

/// What becomes of a fix.
pub open spec fn verdict(ac: TrackedAircraft, now: u64, fix: Fix, d: Distances) -> Verdict {
    if is_teleport(ac, now, d) {
        Verdict::Teleport
    } else if fix.receiver_count < 4 && !has_confirmed_track(ac, now) {
        Verdict::TooFewStations
    } else if is_poor(fix) {
        Verdict::PoorQuality
    } else if !is_active(ac, now) {
        if fix.receiver_count < 4 {
            Verdict::TooFewStations
        } else {
            Verdict::Acquire
        }
    } else {
        track_verdict(ac.filter->0, now, fix, d)
    }
}

/// One more, as far as a machine word counts.
pub open spec fn one_more(n: usize) -> usize {
    if n < usize::MAX {
        (n + 1) as usize
    } else {
        n
    }
}

fn more(n: usize) -> (r: usize)
    ensures
        r == one_more(n),
{
    if n < usize::MAX {
        n + 1
    } else {
        n
    }
}

/// The number zero.
pub open spec fn nil() -> Scalar {
    Scalar { bits: 0 }
}

/// The point at the centre of the earth, or the velocity of what does not move.
pub open spec fn origin() -> EcefPoint {
    EcefPoint { x: nil(), y: nil(), z: nil() }
}

/// A position for the subscribers: where, the heading in degrees, the speed in knots and
/// the vertical rate in feet per minute.
pub type Report = (GeodeticPoint, Option<Scalar>, Option<Scalar>, Option<i32>);

/// The track that a first fix starts.
pub open spec fn acquired(now: u64, fix: Fix, fixed: bool) -> TrackFilter {
    TrackFilter {
        pos_ecef: fix.ecef,
        vel_ecef: origin(),
        geo: fix.geo,
        track_deg: None,
        speed_kts: if fixed {
            Some(nil())
        } else {
            None
        },
        last_update: now,
        last_sbs_emission: now,
        hits: 1,
        consecutive_rejects: 0,
        anchor_pos: fix.ecef,
        anchor_time: now,
        is_locked_stationary: fixed,
    }
}

/// A stationary target may be reported every five seconds.
pub open spec fn hold_emits(f: TrackFilter, now: u64) -> bool {
    since(now, f.last_sbs_emission) >= 5 * SECOND
}

/// A stationary target after a fix: its place is the mean of the first three fixes.
pub open spec fn held(f: TrackFilter, now: u64, m: Motion) -> TrackFilter {
    let f = if f.hits < 3 {
        TrackFilter {
            pos_ecef: m.mean,
            geo: m.mean_geo,
            anchor_pos: m.mean,
            hits: (f.hits + 1) as usize,
            ..f
        }
    } else {
        f
    };
    TrackFilter {
        last_update: now,
        last_sbs_emission: if hold_emits(f, now) {
            now
        } else {
            f.last_sbs_emission
        },
        ..f
    }
}

/// A track whose first fix is replaced.
pub open spec fn restarted(f: TrackFilter, now: u64, fix: Fix) -> TrackFilter {
    TrackFilter { pos_ecef: fix.ecef, geo: fix.geo, last_update: now, ..f }
}

/// A track after its second fix.
pub open spec fn confirmed(f: TrackFilter, now: u64, fix: Fix, m: Motion) -> TrackFilter {
    TrackFilter {
        pos_ecef: fix.ecef,
        vel_ecef: m.velocity,
        geo: fix.geo,
        hits: 2,
        last_update: now,
        last_sbs_emission: now,
        anchor_pos: fix.ecef,
        anchor_time: now,
        ..f
    }
}

/// A track that follows a manoeuvre.
pub open spec fn recovered(f: TrackFilter, now: u64, fix: Fix, m: Motion) -> TrackFilter {
    TrackFilter {
        pos_ecef: fix.ecef,
        vel_ecef: m.velocity,
        geo: fix.geo,
        track_deg: None,
        speed_kts: None,
        last_update: now,
        consecutive_rejects: 0,
        hits: 3,
        anchor_pos: fix.ecef,
        anchor_time: now,
        ..f
    }
}

/// A track has a heading and a speed once it has had four hits and is faster than 55 knots.
pub open spec fn is_moving(f: TrackFilter, m: Motion) -> bool {
    m.speed_kts.above(55, 1) && f.hits >= 4
}

/// Six seconds after the anchor was set it is set again.
pub open spec fn anchor_due(f: TrackFilter, now: u64) -> bool {
    since(now, f.anchor_time) >= 6 * SECOND
}

/// A target that has moved away from its anchor at less than 40 knots stands still.
pub open spec fn is_stationary(f: TrackFilter, now: u64, m: Motion) -> bool {
    anchor_due(f, now) && m.anchor_kts.beneath(40, 1)
}

/// A moving target may be reported every 900 milliseconds.
pub open spec fn smooth_emits(f: TrackFilter, now: u64) -> bool {
    since(now, f.last_sbs_emission) >= 900 * MILLISECOND
}

/// A track that a fix is smoothed into.
pub open spec fn smoothed(f: TrackFilter, now: u64, m: Motion) -> TrackFilter {
    let shown = is_moving(f, m) && !is_stationary(f, now, m);
    TrackFilter {
        pos_ecef: m.smoothed,
        vel_ecef: if is_stationary(f, now, m) {
            origin()
        } else {
            m.smoothed_velocity
        },
        geo: m.smoothed_geo,
        track_deg: if shown {
            Some(m.heading)
        } else {
            None
        },
        speed_kts: if shown {
            Some(m.speed_kts)
        } else {
            None
        },
        last_update: now,
        last_sbs_emission: if smooth_emits(f, now) {
            now
        } else {
            f.last_sbs_emission
        },
        hits: one_more(f.hits),
        consecutive_rejects: 0,
        anchor_pos: if anchor_due(f, now) {
            m.smoothed
        } else {
            f.anchor_pos
        },
        anchor_time: if anchor_due(f, now) {
            now
        } else {
            f.anchor_time
        },
        ..f
    }
}

/// A vertical rate as it is reported: zero below 100 feet per minute, else the nearest
/// multiple of 64.
pub open spec fn reported_rate(rate: Scalar) -> int {
    if rate.beneath(100, 1) && rate.opposite().beneath(100, 1) {
        0
    } else {
        rate.rounded(6) * 64
    }
}

/// The track of an aircraft after a fix.
pub open spec fn filter_after(
    ac: TrackedAircraft,
    fixed: bool,
    now: u64,
    fix: Fix,
    d: Distances,
    m: Motion,
) -> Option<TrackFilter> {
    let rejected = match ac.filter {
        Some(f) => Some(
            TrackFilter { consecutive_rejects: one_more(f.consecutive_rejects), ..f },
        ),
        None => None,
    };
    match verdict(ac, now, fix, d) {
        Verdict::Teleport => rejected,
        Verdict::Deviate => rejected,
        Verdict::Acquire => Some(acquired(now, fix, fixed)),
        Verdict::Hold => Some(held(ac.filter->0, now, m)),
        Verdict::Restart => Some(restarted(ac.filter->0, now, fix)),
        Verdict::Confirm => Some(confirmed(ac.filter->0, now, fix, m)),
        Verdict::Recover => Some(recovered(ac.filter->0, now, fix, m)),
        Verdict::Smooth => Some(smoothed(ac.filter->0, now, m)),
        _ => ac.filter,
    }
}

/// The last confirmed position of an aircraft after a fix.
pub open spec fn confirmed_pos_after(
    ac: TrackedAircraft,
    now: u64,
    fix: Fix,
    d: Distances,
    m: Motion,
) -> Option<(EcefPoint, u64)> {
    match verdict(ac, now, fix, d) {
        Verdict::Confirm | Verdict::Recover => Some((fix.ecef, now)),
        Verdict::Smooth => Some((m.smoothed, now)),
        _ => ac.last_confirmed_pos,
    }
}

/// The last confirmed velocity of an aircraft after a fix.
pub open spec fn confirmed_vel_after(
    ac: TrackedAircraft,
    now: u64,
    fix: Fix,
    d: Distances,
    m: Motion,
) -> Option<EcefPoint> {
    match verdict(ac, now, fix, d) {
        Verdict::Confirm | Verdict::Recover => Some(m.velocity),
        Verdict::Smooth => Some(smoothed(ac.filter->0, now, m).vel_ecef),
        _ => ac.last_confirmed_vel,
    }
}

/// What a fix of an aircraft gives to report.
pub open spec fn report_of(
    ac: TrackedAircraft,
    now: u64,
    fix: Fix,
    d: Distances,
    m: Motion,
) -> Option<Report> {
    match verdict(ac, now, fix, d) {
        Verdict::Hold => if hold_emits(ac.filter->0, now) {
            Some((held(ac.filter->0, now, m).geo, None, Some(nil()), Some(0i32)))
        } else {
            None
        },
        Verdict::Confirm | Verdict::Recover => Some((fix.geo, None, None, None)),
        Verdict::Smooth => if smooth_emits(ac.filter->0, now) {
            let f = smoothed(ac.filter->0, now, m);
            Some(
                (
                    m.smoothed_geo,
                    f.track_deg,
                    f.speed_kts,
                    match ac.vertical_rate_fpm {
                        Some(rate) => if is_stationary(ac.filter->0, now, m) {
                            Some(0i32)
                        } else {
                            Some(reported_rate(rate) as i32)
                        },
                        None => None,
                    },
                ),
            )
        } else {
            None
        },
        _ => None,
    }
}

/// An aircraft after a fix: the track and what it has confirmed, and nothing else, change.
pub open spec fn after_fix(
    ac: TrackedAircraft,
    fixed: bool,
    now: u64,
    fix: Fix,
    d: Distances,
    m: Motion,
) -> TrackedAircraft {
    TrackedAircraft {
        filter: filter_after(ac, fixed, now, fix, d, m),
        last_confirmed_pos: confirmed_pos_after(ac, now, fix, d, m),
        last_confirmed_vel: confirmed_vel_after(ac, now, fix, d, m),
        ..ac
    }
}

/// What becomes of a fix of an active track.
fn judge_track(f: &TrackFilter, now: u64, fix: &Fix, d: &Distances) -> (v: Verdict)
    requires
        since(now, f.last_update) <= 45 * SECOND,
    ensures
        v == track_verdict(*f, now, *fix, *d),
{
    let dt: u64 = elapsed(now, f.last_update);
    if dt < 80 * MILLISECOND {
        return Verdict::Duplicate;
    }
    if f.is_locked_stationary {
        return if d.anchor.exceeds(3500, 1) {
            Verdict::OffAnchor
        } else {
            Verdict::Hold
        };
    }
    if f.hits < 2 {
        if fix.receiver_count < 4 {
            return Verdict::TooFewStations;
        }
        return if dt > 15 * SECOND || beyond(d.track, MAX_SPEED, dt, 500) {
            Verdict::Restart
        } else {
            Verdict::Confirm
        };
    }
    if fix.receiver_count == 3 && (beyond(d.prediction, 160, dt, 200) || d.prediction.exceeds(
        500,
        1,
    )) {
        return Verdict::Deviate;
    }
    if beyond(d.prediction, 270, dt, 350) && d.prediction.exceeds(500, 1) {
        return if fix.receiver_count >= 4 && !fix.gdop.nan() && !fix.gdop.exceeds(7, 2)
            && d.prediction.falls_below(2000, 1) && f.consecutive_rejects >= 2 {
            Verdict::Recover
        } else {
            Verdict::Deviate
        };
    }
    Verdict::Smooth
}

/// What becomes of a fix.
pub fn judge(ac: &TrackedAircraft, now: u64, fix: &Fix, d: &Distances) -> (v: Verdict)
    ensures
        v == verdict(*ac, now, *fix, *d),
{
    if let Some((_, then)) = ac.last_confirmed_pos {
        let dt: u64 = elapsed(now, then);
        if dt <= 600 * SECOND && beyond(d.confirmed, MAX_SPEED, dt, 1200) {
            return Verdict::Teleport;
        }
    }
    let confirmed_track: bool = match &ac.filter {
        Some(f) => f.hits >= 3 && elapsed(now, f.last_update) <= 30 * SECOND,
        None => false,
    };
    if fix.receiver_count < 4 && !confirmed_track {
        return Verdict::TooFewStations;
    }
    let poor_geometry: bool = if fix.receiver_count == 3 {
        fix.gdop.exceeds(38, 10)
    } else {
        fix.gdop.exceeds(46, 10)
    };
    if poor_geometry || fix.residual_rms.exceeds(9, 2) {
        return Verdict::PoorQuality;
    }
    match &ac.filter {
        Some(f) if elapsed(now, f.last_update) <= 45 * SECOND => judge_track(f, now, fix, d),
        _ => if fix.receiver_count < 4 {
            Verdict::TooFewStations
        } else {
            Verdict::Acquire
        },
    }
}

/// A believed vertical rate is reported as a multiple of 64 no greater than 8000, or as zero.
pub proof fn law_reported_rate(rate: Scalar)
    requires
        rate_in_range(rate),
    ensures
        reported_rate(rate) % 64 == 0,
        -(MAX_RATE as int) <= reported_rate(rate) <= MAX_RATE,
{
    lemma_pow2_pos(1074);
    lemma_pow2_pos(6);
    assert(pow2(6) == 64) by {
        lemma2_to64();
    }
    let u = rate.units();
    let y = one() * 64;
    let a: int = if u < 0 {
        -u
    } else {
        u
    };
    assert(rate.opposite().units() == -u);
    if !rate.is_nan() {
        assert(rate.opposite().is_nan() == rate.is_nan());
        assert(a <= MAX_RATE * one());
        let q = (2 * a + y) / (2 * y);
        assert(0 <= q <= 125) by (nonlinear_arith)
            requires
                0 <= a <= 8000 * one(),
                y == one() * 64,
                one() > 0,
                q == (2 * a + y) / (2 * y),
        ;
        assert(rate.rounded(6) == q || rate.rounded(6) == -q);
    }
}

/// A fix that the barrier of physical speed rejects changes nothing but the count of
/// rejections; so whatever a track confirms within ten minutes of its last confirmed position
/// lies within the reach of an aircraft.
pub proof fn law_no_teleportation(
    ac: TrackedAircraft,
    fixed: bool,
    now: u64,
    fix: Fix,
    d: Distances,
    m: Motion,
)
    requires
        ac.last_confirmed_pos matches Some(p) && since(now, p.1) <= 600 * SECOND,
        !d.confirmed.is_nan(),
        report_of(ac, now, fix, d, m) is Some || after_fix(
            ac,
            fixed,
            now,
            fix,
            d,
            m,
        ).last_confirmed_pos != ac.last_confirmed_pos,
    ensures
        ac.last_confirmed_pos matches Some(p) && d.confirmed.units() * SECOND <= (MAX_SPEED * since(
            now,
            p.1,
        ) + 1200 * SECOND) * one(),
{
}

/// Fewer than four receivers neither start a track nor take up a stale one.
pub proof fn law_three_stations_cannot_initialise(
    ac: TrackedAircraft,
    fixed: bool,
    now: u64,
    fix: Fix,
    d: Distances,
    m: Motion,
)
    requires
        fix.receiver_count < 4,
        !has_confirmed_track(ac, now),
    ensures
        report_of(ac, now, fix, d, m) is None,
        filter_after(ac, fixed, now, fix, d, m) is Some <==> ac.filter is Some,
        ac.filter matches Some(f) ==> filter_after(ac, fixed, now, fix, d, m) == Some(
            TrackFilter {
                consecutive_rejects: filter_after(
                    ac,
                    fixed,
                    now,
                    fix,
                    d,
                    m,
                )->0.consecutive_rejects,
                ..f
            },
        ),
{
}

/// A rejected fix is not reported and leaves the aircraft as it was, but for the count of
/// rejections.
pub proof fn law_rejection_changes_nothing(
    ac: TrackedAircraft,
    fixed: bool,
    now: u64,
    fix: Fix,
    d: Distances,
    m: Motion,
)
    requires
        ({
            let v = verdict(ac, now, fix, d);
            v is Teleport || v is TooFewStations || v is PoorQuality || v is Duplicate
                || v is OffAnchor || v is Deviate
        }),
    ensures
        report_of(ac, now, fix, d, m) is None,
        after_fix(ac, fixed, now, fix, d, m) == (TrackedAircraft {
            filter: match ac.filter {
                Some(f) => Some(
                    TrackFilter {
                        consecutive_rejects: filter_after(
                            ac,
                            fixed,
                            now,
                            fix,
                            d,
                            m,
                        )->0.consecutive_rejects,
                        ..f
                    },
                ),
                None => None,
            },
            ..ac
        }),
{
}

/// No track is shown on its first fix: what a fix gives to report comes from a track that was
/// there before.
pub proof fn law_two_fixes_before_a_report(
    ac: TrackedAircraft,
    now: u64,
    fix: Fix,
    d: Distances,
    m: Motion,
)
    requires
        report_of(ac, now, fix, d, m) is Some,
    ensures
        is_active(ac, now),
        since(now, ac.filter->0.last_update) >= 80 * MILLISECOND,
{
}

/// A target that stands still has neither speed nor heading, neither in its track nor in
/// what is reported of it, and neither climbs nor descends.
pub proof fn law_stationary_has_no_speed(
    ac: TrackedAircraft,
    fixed: bool,
    now: u64,
    fix: Fix,
    d: Distances,
    m: Motion,
)
    requires
        verdict(ac, now, fix, d) is Smooth,
        is_stationary(ac.filter->0, now, m),
    ensures
        filter_after(ac, fixed, now, fix, d, m) matches Some(f) && f.vel_ecef == origin()
            && f.track_deg is None && f.speed_kts is None,
        report_of(ac, now, fix, d, m) matches Some(r) ==> r.1 is None && r.2 is None && (r.3 is None
            || r.3 == Some(0i32)),
{
}

/// The track of an aircraft, where it has one, is that of a target that does not move.
pub open spec fn is_locked(ac: TrackedAircraft) -> bool {
    ac.filter matches Some(f) ==> f.is_locked_stationary
}

/// A report of a target that does not move: no heading, no speed and no climb.
pub open spec fn shows_no_motion(r: Option<Report>) -> bool {
    r matches Some(r) ==> r.1 is None && r.2 == Some(nil()) && r.3 == Some(0i32)
}

/// A target that is known not to move stays so, and is never reported to move, whatever fixes
/// it takes.
pub proof fn law_locked_track_never_moves(
    ac: TrackedAircraft,
    now: u64,
    fix: Fix,
    d: Distances,
    m: Motion,
)
    requires
        is_locked(ac),
    ensures
        is_locked(after_fix(ac, true, now, fix, d, m)),
        shows_no_motion(report_of(ac, now, fix, d, m)),
{
}

/// The track of an aircraft, where it has one, is not locked.
pub open spec fn is_free(ac: TrackedAircraft) -> bool {
    ac.filter matches Some(f) ==> !f.is_locked_stationary
}

/// A report that shows heading and speed together or neither, and only a speed above 55 knots.
pub open spec fn shows_whole_motion(r: Option<Report>, m: Motion) -> bool {
    r matches Some(r) ==> {
        &&& r.1 is Some <==> r.2 is Some
        &&& r.1 is Some ==> r.1 == Some(m.heading)
        &&& r.2 is Some ==> r.2 == Some(m.speed_kts) && m.speed_kts.above(55, 1)
    }
}

/// A target that is not known to stand still is never locked, and is reported with heading and
/// speed or with neither, the speed above 55 knots, whatever fixes it takes.
pub proof fn law_free_track_shows_whole_motion(
    ac: TrackedAircraft,
    now: u64,
    fix: Fix,
    d: Distances,
    m: Motion,
)
    requires
        is_free(ac),
    ensures
        is_free(after_fix(ac, false, now, fix, d, m)),
        shows_whole_motion(report_of(ac, now, fix, d, m), m),
{
}

/// Between two reports of a track that is neither new nor recovering there are at least 900
/// milliseconds.
pub proof fn law_reports_are_throttled(
    ac: TrackedAircraft,
    fixed: bool,
    now: u64,
    fix: Fix,
    d: Distances,
    m: Motion,
)
    requires
        verdict(ac, now, fix, d) is Smooth || verdict(ac, now, fix, d) is Hold,
    ensures
        report_of(ac, now, fix, d, m) is Some ==> since(now, ac.filter->0.last_sbs_emission) >= 900
            * MILLISECOND && filter_after(ac, fixed, now, fix, d, m)->0.last_sbs_emission == now,
{
}

/// A vertical rate as it is reported.
pub fn report_rate(rate: Scalar) -> (r: i32)
    requires
        rate_in_range(rate),
    ensures
        r == reported_rate(rate),
{
    proof {
        law_reported_rate(rate);
    }
    if rate.falls_below(100, 1) && rate.negated().falls_below(100, 1) {
        0
    } else {
        rate.round(6) * 64
    }
}

fn still() -> (p: EcefPoint)
    ensures
        p == origin(),
{
    EcefPoint { x: Scalar::zero(), y: Scalar::zero(), z: Scalar::zero() }
}

/// A stationary target takes a fix.
fn hold(f: &mut TrackFilter, now: u64, m: &Motion) -> (r: Option<Report>)
    ensures
        *final(f) == held(*old(f), now, *m),
        r == (if hold_emits(*old(f), now) {
            Some((held(*old(f), now, *m).geo, None::<Scalar>, Some(nil()), Some(0i32)))
        } else {
            None
        }),
{
    if f.hits < 3 {
        f.pos_ecef = m.mean;
        f.geo = m.mean_geo;
        f.anchor_pos = m.mean;
        f.hits = f.hits + 1;
    }
    f.last_update = now;
    if elapsed(now, f.last_sbs_emission) >= 5 * SECOND {
        f.last_sbs_emission = now;
        Some((f.geo, None, Some(Scalar::zero()), Some(0)))
    } else {
        None
    }
}

/// A track takes a fix into its smoothed motion; the result says whether it is to be
/// reported, and whether the target stands still.
fn smooth(f: &mut TrackFilter, now: u64, m: &Motion) -> (r: (bool, bool))
    ensures
        *final(f) == smoothed(*old(f), now, *m),
        r.0 == smooth_emits(*old(f), now),
        r.1 == is_stationary(*old(f), now, *m),
{
    let moving: bool = m.speed_kts.exceeds(55, 1) && f.hits >= 4;
    let due: bool = elapsed(now, f.anchor_time) >= 6 * SECOND;
    let stationary: bool = due && m.anchor_kts.falls_below(40, 1);
    let emit: bool = elapsed(now, f.last_sbs_emission) >= 900 * MILLISECOND;
    f.pos_ecef = m.smoothed;
    f.vel_ecef = if stationary {
        still()
    } else {
        m.smoothed_velocity
    };
    f.geo = m.smoothed_geo;
    f.track_deg = if moving && !stationary {
        Some(m.heading)
    } else {
        None
    };
    f.speed_kts = if moving && !stationary {
        Some(m.speed_kts)
    } else {
        None
    };
    f.last_update = now;
    if emit {
        f.last_sbs_emission = now;
    }
    f.hits = more(f.hits);
    f.consecutive_rejects = 0;
    if due {
        f.anchor_pos = m.smoothed;
        f.anchor_time = now;
    }
    (emit, stationary)
}

/// An aircraft takes a fix; the result is what there is to report.
pub fn absorb(
    ac: &mut TrackedAircraft,
    fixed: bool,
    now: u64,
    fix: &Fix,
    d: &Distances,
    m: &Motion,
) -> (r: Option<Report>)
    requires
        old(ac).wf(),
    ensures
        *final(ac) == after_fix(*old(ac), fixed, now, *fix, *d, *m),
        final(ac).wf(),
        r == report_of(*old(ac), now, *fix, *d, *m),
{
    let v: Verdict = judge(ac, now, fix, d);
    let rate: Option<Scalar> = ac.vertical_rate_fpm;
    let mut f: TrackFilter = match ac.filter {
        Some(f) => f,
        None => {
            if v == Verdict::Acquire {
                ac.filter = Some(start(now, fix, fixed));
            }
            return None;
        },
    };
    match v {
        Verdict::Teleport | Verdict::Deviate => {
            f.consecutive_rejects = more(f.consecutive_rejects);
            ac.filter = Some(f);
            None
        },
        Verdict::Acquire => {
            ac.filter = Some(start(now, fix, fixed));
            None
        },
        Verdict::Hold => {
            let r: Option<Report> = hold(&mut f, now, m);
            ac.filter = Some(f);
            r
        },
        Verdict::Restart => {
            f.pos_ecef = fix.ecef;
            f.geo = fix.geo;
            f.last_update = now;
            ac.filter = Some(f);
            None
        },
        Verdict::Confirm => {
            f.pos_ecef = fix.ecef;
            f.vel_ecef = m.velocity;
            f.geo = fix.geo;
            f.hits = 2;
            f.last_update = now;
            f.last_sbs_emission = now;
            f.anchor_pos = fix.ecef;
            f.anchor_time = now;
            ac.filter = Some(f);
            ac.last_confirmed_pos = Some((fix.ecef, now));
            ac.last_confirmed_vel = Some(m.velocity);
            Some((fix.geo, None, None, None))
        },
        Verdict::Recover => {
            f.pos_ecef = fix.ecef;
            f.vel_ecef = m.velocity;
            f.geo = fix.geo;
            f.track_deg = None;
            f.speed_kts = None;
            f.last_update = now;
            f.consecutive_rejects = 0;
            f.hits = 3;
            f.anchor_pos = fix.ecef;
            f.anchor_time = now;
            ac.filter = Some(f);
            ac.last_confirmed_pos = Some((fix.ecef, now));
            ac.last_confirmed_vel = Some(m.velocity);
            Some((fix.geo, None, None, None))
        },
        Verdict::Smooth => {
            let (emit, stationary) = smooth(&mut f, now, m);
            ac.filter = Some(f);
            ac.last_confirmed_pos = Some((m.smoothed, now));
            ac.last_confirmed_vel = Some(f.vel_ecef);
            if !emit {
                return None;
            }
            let vrate: Option<i32> = match rate {
                Some(rate) => {
                    proof {
                        law_reported_rate(rate);
                    }
                    Some(if stationary {
                        0
                    } else {
                        report_rate(rate)
                    })
                },
                None => None,
            };
            Some((m.smoothed_geo, f.track_deg, f.speed_kts, vrate))
        },
        Verdict::TooFewStations | Verdict::PoorQuality | Verdict::Duplicate | Verdict::OffAnchor =>
        None,
    }
}

/// The track that a first fix starts.
fn start(now: u64, fix: &Fix, fixed: bool) -> (f: TrackFilter)
    ensures
        f == acquired(now, *fix, fixed),
{
    TrackFilter {
        pos_ecef: fix.ecef,
        vel_ecef: still(),
        geo: fix.geo,
        track_deg: None,
        speed_kts: if fixed {
            Some(Scalar::zero())
        } else {
            None
        },
        last_update: now,
        last_sbs_emission: now,
        hits: 1,
        consecutive_rejects: 0,
        anchor_pos: fix.ecef,
        anchor_time: now,
        is_locked_stationary: fixed,
    }
}

/// How strongly a fix pulls a track: the share of the distance to the prediction by which the
/// position moves, and by which the velocity does, in hundredths.
#[derive(Clone, Copy, Debug, PartialEq, Eq, Structural)]
pub struct Gains {
    pub alpha: u64,
    pub beta: u64,
    /// Whether the two are scaled by the quality of the fix.
    pub adaptive: bool,
}

/// How strongly a fix pulls a track: hardly with three receivers, more while the track is
/// young.
pub open spec fn gains_for(hits: int, receiver_count: int) -> Gains {
    if receiver_count == 3 {
        Gains { alpha: 10, beta: 2, adaptive: false }
    } else if hits < 4 {
        Gains { alpha: 50, beta: 20, adaptive: true }
    } else {
        Gains { alpha: 25, beta: 8, adaptive: true }
    }
}

/// How strongly a fix pulls a track.
pub fn gains(hits: usize, receiver_count: usize) -> (g: Gains)
    ensures
        g == gains_for(hits as int, receiver_count as int),
{
    if receiver_count == 3 {
        Gains { alpha: 10, beta: 2, adaptive: false }
    } else if hits < 4 {
        Gains { alpha: 50, beta: 20, adaptive: true }
    } else {
        Gains { alpha: 25, beta: 8, adaptive: true }
    }
}

/// 0.10 and 0.02: how strongly a fix of three receivers pulls a track.
pub const GENTLE_ALPHA: u64 = 0x3fb9_9999_9999_999a;

pub const GENTLE_BETA: u64 = 0x3f94_7ae1_47ae_147b;

/// 0.15 and 0.35: the bounds of the share by which the position moves.
pub const LEAST_ALPHA: u64 = 0x3fc3_3333_3333_3333;

pub const MOST_ALPHA: u64 = 0x3fd6_6666_6666_6666;

/// 0.04 and 0.12: the bounds of the share by which the velocity moves.
pub const LEAST_BETA: u64 = 0x3fa4_7ae1_47ae_147b;

pub const MOST_BETA: u64 = 0x3fbe_b851_eb85_1eb8;

/// The shares by which a fix moves a track, of the gains scaled by the quality of the fix.
pub open spec fn shares(receiver_count: int, alpha: Scalar, beta: Scalar) -> (Scalar, Scalar) {
    if receiver_count == 3 {
        (Scalar { bits: GENTLE_ALPHA }, Scalar { bits: GENTLE_BETA })
    } else {
        (
            alpha.clamped(Scalar { bits: LEAST_ALPHA }, Scalar { bits: MOST_ALPHA }),
            beta.clamped(Scalar { bits: LEAST_BETA }, Scalar { bits: MOST_BETA }),
        )
    }
}

/// The shares by which a fix moves a track, of the gains scaled by the quality of the fix.
pub fn weights(receiver_count: usize, alpha: Scalar, beta: Scalar) -> (r: (Scalar, Scalar))
    ensures
        r == shares(receiver_count as int, alpha, beta),
{
    if receiver_count == 3 {
        (Scalar::new(GENTLE_ALPHA), Scalar::new(GENTLE_BETA))
    } else {
        (
            alpha.clamp(Scalar::new(LEAST_ALPHA), Scalar::new(MOST_ALPHA)),
            beta.clamp(Scalar::new(LEAST_BETA), Scalar::new(MOST_BETA)),
        )
    }
}

/// With three receivers the position moves by a tenth of the way to a fix; with more by
/// something between 0.15 and 0.35 of it, and never by more where the scaled gain is less.
pub proof fn law_share_of_a_fix(receiver_count: int, alpha: Scalar, beta: Scalar, less: Scalar)
    requires
        !alpha.is_nan(),
        less.at_most(alpha),
    ensures
        receiver_count == 3 ==> shares(receiver_count, alpha, beta).0 == (Scalar {
            bits: GENTLE_ALPHA,
        }),
        receiver_count != 3 ==> {
            let share = shares(receiver_count, alpha, beta).0;
            &&& (Scalar { bits: LEAST_ALPHA }).at_most(share)
            &&& share.at_most(Scalar { bits: MOST_ALPHA })
            &&& shares(receiver_count, less, beta).0.at_most(share)
        },
{
    lemma_positive_order(Scalar { bits: LEAST_ALPHA }, Scalar { bits: MOST_ALPHA });
}

/// A fix of good quality: the dilution and the residual are small enough for the number of
/// receivers, and it is no farther from a position of the last ten minutes than an aircraft can
/// fly.
pub open spec fn is_sound(ac: TrackedAircraft, now: u64, fix: Fix, d: Distances) -> bool {
    &&& fix.receiver_count >= 4 ==> 10 * fix.gdop.units() <= 46 * one()
    &&& fix.receiver_count == 3 ==> 10 * fix.gdop.units() <= 38 * one()
    &&& 2 * fix.residual_rms.units() <= 9 * one()
    &&& !fix.gdop.is_nan()
    &&& ac.last_confirmed_pos matches Some(p) ==> now > p.1 + 600_000_000_000 || (now >= p.1
        && 1_000_000_000 * d.confirmed.units() <= (340 * (now - p.1) + 1_200_000_000_000) * one())
}

/// A sound fix of four receivers or more starts a track where there is none, or none with a fix
/// of the last 45 seconds.
pub proof fn law_sound_fix_starts_a_track(ac: TrackedAircraft, now: u64, fix: Fix, d: Distances)
    requires
        is_sound(ac, now, fix, d),
        fix.receiver_count >= 4,
        ac.filter matches Some(f) ==> now > f.last_update + 45_000_000_000,
    ensures
        verdict(ac, now, fix, d) == Verdict::Acquire,
{
}

/// A second sound fix of four receivers or more, up to 15 seconds later, confirms a track if it
/// is within 340 metres per second and 500 metres of the first; else it takes its place.
pub proof fn law_second_fix_confirms(ac: TrackedAircraft, now: u64, fix: Fix, d: Distances)
    requires
        is_sound(ac, now, fix, d),
        fix.receiver_count >= 4,
        ac.filter matches Some(f) && f.hits < 2 && !f.is_locked_stationary && f.last_update
            + 80_000_000 <= now <= f.last_update + 45_000_000_000,
        !d.track.is_nan(),
    ensures
        ac.filter matches Some(f) ==> {
            let dt = now - f.last_update;
            if dt <= 15_000_000_000 && 1_000_000_000 * d.track.units() <= (340 * dt
                + 500_000_000_000) * one() {
                verdict(ac, now, fix, d) == Verdict::Confirm
            } else {
                verdict(ac, now, fix, d) == Verdict::Restart
            }
        },
{
}

/// A sound fix of four receivers or more is smoothed into a confirmed track if it is within 500
/// metres of the prediction, or within 270 metres per second and 350 metres of it.
pub proof fn law_consistent_fix_is_smoothed(ac: TrackedAircraft, now: u64, fix: Fix, d: Distances)
    requires
        is_sound(ac, now, fix, d),
        fix.receiver_count >= 4,
        ac.filter matches Some(f) && f.hits >= 2 && !f.is_locked_stationary && f.last_update
            + 80_000_000 <= now <= f.last_update + 45_000_000_000,
        !d.prediction.is_nan(),
    ensures
        ac.filter matches Some(f) ==> {
            let dt = now - f.last_update;
            if d.prediction.units() <= 500 * one() || 1_000_000_000 * d.prediction.units() <= (270
                * dt + 350_000_000_000) * one() {
                verdict(ac, now, fix, d) == Verdict::Smooth
            } else if f.consecutive_rejects >= 2 && 2 * fix.gdop.units() <= 7 * one()
                && d.prediction.units() < 2000 * one() {
                verdict(ac, now, fix, d) == Verdict::Recover
            } else {
                verdict(ac, now, fix, d) == Verdict::Deviate
            }
        },
{
}

/// A sound fix of three receivers is smoothed into a track of three hits or more, the last within
/// 30 seconds, if it is within 500 metres and within 160 metres per second and 200 metres of the
/// prediction.
pub proof fn law_three_receivers_must_agree(ac: TrackedAircraft, now: u64, fix: Fix, d: Distances)
    requires
        is_sound(ac, now, fix, d),
        fix.receiver_count == 3,
        ac.filter matches Some(f) && f.hits >= 3 && !f.is_locked_stationary && f.last_update
            + 80_000_000 <= now <= f.last_update + 30_000_000_000,
        !d.prediction.is_nan(),
    ensures
        ac.filter matches Some(f) ==> {
            let dt = now - f.last_update;
            if d.prediction.units() <= 500 * one() && 1_000_000_000 * d.prediction.units() <= (160
                * dt + 200_000_000_000) * one() {
                verdict(ac, now, fix, d) == Verdict::Smooth
            } else {
                verdict(ac, now, fix, d) == Verdict::Deviate
            }
        },
{
    lemma_pow2_pos(1074);
    if let Some(f) = ac.filter {
        let dt = now - f.last_update;
        assert((160 * dt + 200_000_000_000) * one() <= (270 * dt + 350_000_000_000) * one())
            by (nonlinear_arith)
            requires
                dt >= 0,
                one() > 0,
        ;
    }
}

/// A fix that is not sound, one less than 80 milliseconds after another, one of fewer than four
/// receivers where no track of three hits is fresh, and one more than 3.5 km from the place of a
/// target that does not move are not taken.
pub proof fn law_unsound_fix_is_not_taken(ac: TrackedAircraft, now: u64, fix: Fix, d: Distances)
    requires
        !fix.gdop.is_nan(),
        !fix.residual_rms.is_nan(),
        !d.confirmed.is_nan(),
        !d.anchor.is_nan(),
    ensures
        fix.receiver_count >= 4 && 10 * fix.gdop.units() > 46 * one() ==> is_refused(
            verdict(ac, now, fix, d),
        ),
        fix.receiver_count == 3 && 10 * fix.gdop.units() > 38 * one() ==> is_refused(
            verdict(ac, now, fix, d),
        ),
        2 * fix.residual_rms.units() > 9 * one() ==> is_refused(verdict(ac, now, fix, d)),
        fix.receiver_count < 3 && !(ac.filter matches Some(f) && f.hits >= 3 && now
            <= f.last_update + 30_000_000_000) ==> is_refused(verdict(ac, now, fix, d)),
        fix.receiver_count == 3 && !(ac.filter matches Some(f) && f.hits >= 3 && now
            <= f.last_update + 30_000_000_000) ==> is_refused(verdict(ac, now, fix, d)),
        ac.last_confirmed_pos matches Some(p) ==> p.1 <= now <= p.1 + 600_000_000_000
            && 1_000_000_000 * d.confirmed.units() > (340 * (now - p.1) + 1_200_000_000_000) * one()
            ==> verdict(ac, now, fix, d) == Verdict::Teleport,
        ac.filter matches Some(f) ==> now < f.last_update + 80_000_000 ==> is_refused(
            verdict(ac, now, fix, d),
        ),
        ac.filter matches Some(f) ==> f.is_locked_stationary && now <= f.last_update
            + 45_000_000_000 && d.anchor.units() > 3500 * one() ==> is_refused(
            verdict(ac, now, fix, d),
        ),
{
}

/// The verdicts by which a fix is not taken.
pub open spec fn is_refused(v: Verdict) -> bool {
    v == Verdict::Teleport || v == Verdict::TooFewStations || v == Verdict::PoorQuality || v
        == Verdict::Duplicate || v == Verdict::OffAnchor || v == Verdict::Deviate
}

/// A sound fix of a target that does not move is taken if it is within 3.5 km of its place.
pub proof fn law_beacon_in_its_place_is_held(
    ac: TrackedAircraft,
    now: u64,
    fix: Fix,
    d: Distances,
)
    requires
        is_sound(ac, now, fix, d),
        fix.receiver_count >= 4,
        ac.filter matches Some(f) && f.is_locked_stationary && f.last_update + 80_000_000 <= now
            <= f.last_update + 45_000_000_000,
        d.anchor.units() <= 3500 * one(),
    ensures
        verdict(ac, now, fix, d) == Verdict::Hold,
{
}

/// What a fix leaves as it was: the address, the altitude, the vertical rate, when the aircraft
/// was seen and who sees it.
pub proof fn law_fix_touches_the_track_alone(
    ac: TrackedAircraft,
    fixed: bool,
    now: u64,
    fix: Fix,
    d: Distances,
    m: Motion,
)
    ensures
        ({
            let after = after_fix(ac, fixed, now, fix, d, m);
            &&& after.icao == ac.icao
            &&& after.altitude_ft == ac.altitude_ft
            &&& after.last_altitude_time == ac.last_altitude_time
            &&& after.vertical_rate_fpm == ac.vertical_rate_fpm
            &&& after.last_seen == ac.last_seen
            &&& after.last_adsb_time == ac.last_adsb_time
            &&& after.tracking_receivers == ac.tracking_receivers
        }),
{
}

/// A first fix is a track of one hit at its place, at rest, and is not reported; it is locked if
/// and only if the transmitter is known not to move.
pub proof fn law_first_fix_is_one_hit(
    ac: TrackedAircraft,
    fixed: bool,
    now: u64,
    fix: Fix,
    d: Distances,
    m: Motion,
)
    requires
        verdict(ac, now, fix, d) == Verdict::Acquire,
    ensures
        report_of(ac, now, fix, d, m) is None,
        after_fix(ac, fixed, now, fix, d, m).last_confirmed_pos == ac.last_confirmed_pos,
        after_fix(ac, fixed, now, fix, d, m).last_confirmed_vel == ac.last_confirmed_vel,
        after_fix(ac, fixed, now, fix, d, m).filter matches Some(g) && g.pos_ecef == fix.ecef && g.geo
            == fix.geo && g.hits == 1 && g.last_update == now && g.anchor_pos == fix.ecef
            && g.anchor_time == now && g.consecutive_rejects == 0 && g.is_locked_stationary == fixed
            && g.vel_ecef.x.units() == 0 && g.vel_ecef.y.units() == 0 && g.vel_ecef.z.units() == 0,
{
}

/// A fix that replaces the first, or that confirms or recovers a track, sets its place to that of
/// the fix; the latter two are reported there at once, without speed, and count as confirmed.
pub proof fn law_fix_is_where_the_track_is(
    ac: TrackedAircraft,
    fixed: bool,
    now: u64,
    fix: Fix,
    d: Distances,
    m: Motion,
)
    requires
        ({
            let v = verdict(ac, now, fix, d);
            v == Verdict::Restart || v == Verdict::Confirm || v == Verdict::Recover
        }),
    ensures
        ({
            let v = verdict(ac, now, fix, d);
            let after = after_fix(ac, fixed, now, fix, d, m);
            &&& after.filter matches Some(g) && g.pos_ecef == fix.ecef && g.geo == fix.geo
                && g.last_update == now
            &&& v == Verdict::Restart ==> report_of(ac, now, fix, d, m) is None && after.filter->Some_0.hits
                == ac.filter->Some_0.hits && after.last_confirmed_pos == ac.last_confirmed_pos
            &&& v != Verdict::Restart ==> report_of(ac, now, fix, d, m) == Some(
                (fix.geo, None::<Scalar>, None::<Scalar>, None::<i32>),
            ) && after.last_confirmed_pos == Some((fix.ecef, now)) && after.last_confirmed_vel
                == Some(m.velocity) && after.filter->Some_0.vel_ecef == m.velocity
                && after.filter->Some_0.anchor_pos == fix.ecef && after.filter->Some_0.anchor_time == now
            &&& v == Verdict::Confirm ==> after.filter->Some_0.hits == 2
            &&& v == Verdict::Recover ==> after.filter->Some_0.hits == 3
                && after.filter->Some_0.consecutive_rejects == 0
        }),
{
}

/// A fix that is smoothed moves the track to the smoothed place, which counts as confirmed, and
/// is one more hit. It is reported there if and only if the last report is 900 milliseconds old.
/// The anchor is set again after six seconds; a target that came from it at less than 40 knots
/// stands still, one with four hits before that is faster than 55 knots has heading and speed.
pub proof fn law_smoothed_fix_moves_the_track(
    ac: TrackedAircraft,
    fixed: bool,
    now: u64,
    fix: Fix,
    d: Distances,
    m: Motion,
)
    requires
        verdict(ac, now, fix, d) == Verdict::Smooth,
        ac.filter matches Some(f) && f.hits < usize::MAX && f.last_sbs_emission <= now
            && f.anchor_time <= now,
        !m.speed_kts.is_nan(),
        !m.anchor_kts.is_nan(),
    ensures
        ({
            let f = ac.filter->0;
            let after = after_fix(ac, fixed, now, fix, d, m);
            let g = after.filter->0;
            let due = now - f.anchor_time >= 6_000_000_000;
            let stands = due && m.anchor_kts.units() < 40 * one();
            let shown = f.hits >= 4 && m.speed_kts.units() > 55 * one() && !stands;
            &&& after.filter is Some
            &&& g.pos_ecef == m.smoothed
            &&& g.geo == m.smoothed_geo
            &&& g.last_update == now
            &&& g.hits == f.hits + 1
            &&& g.consecutive_rejects == 0
            &&& g.is_locked_stationary == f.is_locked_stationary
            &&& after.last_confirmed_pos == Some((m.smoothed, now))
            &&& after.last_confirmed_vel == Some(g.vel_ecef)
            &&& !stands ==> g.vel_ecef == m.smoothed_velocity
            &&& stands ==> g.vel_ecef.x.units() == 0 && g.vel_ecef.y.units() == 0
                && g.vel_ecef.z.units() == 0
            &&& g.anchor_time == (if due {
                now
            } else {
                f.anchor_time
            })
            &&& g.anchor_pos == (if due {
                m.smoothed
            } else {
                f.anchor_pos
            })
            &&& g.track_deg == (if shown {
                Some(m.heading)
            } else {
                None
            })
            &&& g.speed_kts == (if shown {
                Some(m.speed_kts)
            } else {
                None
            })
            &&& report_of(ac, now, fix, d, m) is Some <==> now - f.last_sbs_emission >= 900_000_000
            &&& g.last_sbs_emission == (if now - f.last_sbs_emission >= 900_000_000 {
                now
            } else {
                f.last_sbs_emission
            })
            &&& report_of(ac, now, fix, d, m) matches Some(r) ==> r.0 == m.smoothed_geo && r.1
                == g.track_deg && r.2 == g.speed_kts && (r.3 is Some <==> ac.vertical_rate_fpm is Some)
        }),
{
}

/// A moving target is reported to climb where it climbs and to descend where it descends: the
/// rate in a report is within 32 feet per minute of the known one and has its sign, or is zero
/// where that is below 100 feet per minute.
pub proof fn law_climb_is_shown_as_climb(
    ac: TrackedAircraft,
    now: u64,
    fix: Fix,
    d: Distances,
    m: Motion,
)
    requires
        verdict(ac, now, fix, d) == Verdict::Smooth,
        ac.vertical_rate_fpm matches Some(rate) && !rate.is_nan() && -8000 * one() <= rate.units()
            <= 8000 * one(),
    ensures
        report_of(ac, now, fix, d, m) matches Some(r) ==> {
            let rate = ac.vertical_rate_fpm->Some_0.units();
            &&& r.3 is Some
            &&& since(now, ac.filter->Some_0.anchor_time) < 6_000_000_000 || m.anchor_kts.units() >= 40
                * one() ==> {
                &&& -100 * one() < rate < 100 * one() ==> r.3 == Some(0i32)
                &&& rate >= 100 * one() ==> r.3->Some_0 > 0
                &&& rate <= -100 * one() ==> r.3->Some_0 < 0
                &&& rate >= 100 * one() || rate <= -100 * one() ==> -32 * one() <= r.3->Some_0 * one()
                    - rate <= 32 * one()
            }
        },
{
    let x = ac.vertical_rate_fpm->0;
    lemma_pow2_pos(1074);
    assert(pow2(6) == 64) by {
        lemma2_to64();
    }
    law_reported_rate(x);
    law_rate_is_near(x);
}

/// A rate of 100 feet per minute or more is reported within 32 feet per minute, with its sign.
pub proof fn law_rate_is_near(rate: Scalar)
    requires
        !rate.is_nan(),
        -8000 * one() <= rate.units() <= 8000 * one(),
    ensures
        -100 * one() < rate.units() < 100 * one() ==> reported_rate(rate) == 0,
        rate.units() >= 100 * one() ==> reported_rate(rate) > 0,
        rate.units() <= -100 * one() ==> reported_rate(rate) < 0,
        rate.units() >= 100 * one() || rate.units() <= -100 * one() ==> -32 * one()
            <= reported_rate(rate) * one() - rate.units() <= 32 * one(),
{
    lemma_pow2_pos(1074);
    assert(pow2(6) == 64) by {
        lemma2_to64();
    }
    law_reported_rate(rate);
    let r = rate.rounded(6);
    let step = one() * 64;
    assert(-125 <= r <= 125) by {
        let u = rate.units();
        let a: int = if u < 0 {
            -u
        } else {
            u
        };
        let q = (2 * a + step) / (2 * step);
        assert(0 <= q <= 125) by (nonlinear_arith)
            requires
                0 <= a <= 8000 * one(),
                step == one() * 64,
                one() > 0,
                q == (2 * a + step) / (2 * step),
        ;
        assert(r == q || r == -q);
    }
    law_rounded_is_nearest(rate, 6);
    assert(r * step == 64 * (r * one())) by (nonlinear_arith)
        requires
            step == one() * 64,
    ;
    assert((r * 64) * one() == 64 * (r * one())) by (nonlinear_arith);
    if rate.units() >= 100 * one() && r <= 0 {
        assert(r * one() <= 0) by (nonlinear_arith)
            requires
                r <= 0,
                one() > 0,
        ;
    }
    if rate.units() <= -100 * one() && r >= 0 {
        assert(r * one() >= 0) by (nonlinear_arith)
            requires
                r >= 0,
                one() > 0,
        ;
    }
}

/// A target that does not move is reported every five seconds, at the mean of its first three
/// fixes, with a speed of zero and without climb.
pub proof fn law_held_target_is_reported_in_place(
    ac: TrackedAircraft,
    fixed: bool,
    now: u64,
    fix: Fix,
    d: Distances,
    m: Motion,
)
    requires
        verdict(ac, now, fix, d) == Verdict::Hold,
        ac.filter matches Some(f) && f.last_sbs_emission <= now,
    ensures
        ({
            let f = ac.filter->0;
            let g = after_fix(ac, fixed, now, fix, d, m).filter->0;
            let place = if f.hits < 3 {
                m.mean_geo
            } else {
                f.geo
            };
            &&& after_fix(ac, fixed, now, fix, d, m).filter is Some
            &&& g.is_locked_stationary
            &&& g.last_update == now
            &&& g.geo == place
            &&& f.hits < 3 ==> g.pos_ecef == m.mean && g.anchor_pos == m.mean && g.hits == f.hits + 1
            &&& f.hits >= 3 ==> g.pos_ecef == f.pos_ecef && g.anchor_pos == f.anchor_pos && g.hits
                == f.hits
            &&& now - f.last_sbs_emission >= 5_000_000_000 ==> report_of(ac, now, fix, d, m) == Some(
                (place, None::<Scalar>, Some(Scalar { bits: 0 }), Some(0i32)),
            )
            &&& now - f.last_sbs_emission < 5_000_000_000 ==> report_of(ac, now, fix, d, m) is None
            &&& after_fix(ac, fixed, now, fix, d, m).last_confirmed_pos == ac.last_confirmed_pos
        }),
{
}

/// A fix that is out of reach of the last confirmed position or of the prediction counts as one
/// rejection; the other refusals are not counted.
pub proof fn law_rejections_are_counted(
    ac: TrackedAircraft,
    fixed: bool,
    now: u64,
    fix: Fix,
    d: Distances,
    m: Motion,
)
    requires
        ac.filter matches Some(f) && f.consecutive_rejects < usize::MAX,
        is_refused(verdict(ac, now, fix, d)),
    ensures
        after_fix(ac, fixed, now, fix, d, m).filter matches Some(g) && g.consecutive_rejects
            == ac.filter->Some_0.consecutive_rejects + (if verdict(ac, now, fix, d) == Verdict::Teleport
            || verdict(ac, now, fix, d) == Verdict::Deviate {
            1int
        } else {
            0int
        }) && g.hits == ac.filter->Some_0.hits && g.pos_ecef == ac.filter->Some_0.pos_ecef && g.last_update
            == ac.filter->Some_0.last_update,
{
}

/// A vertical rate is believed if and only if its magnitude is at most 8000 feet per minute.
pub proof fn law_rates_up_to_8000(rate: Scalar)
    requires
        !rate.is_nan(),
    ensures
        rate_in_range(rate) <==> -8000 * one() <= rate.units() <= 8000 * one(),
        rate_in_range(rate.opposite()) == rate_in_range(rate),
{
}

/// What the shares are worth, to a thousand-millionth: 0.10 and 0.02 for three receivers, else
/// from 0.15 to 0.35 of the way and from 0.04 to 0.12 of the speed.
pub proof fn law_shares_in_numbers()
    ensures
        99999999999 * one() <= 1_000_000_000_000 * (Scalar { bits: GENTLE_ALPHA }).units() <= 100000000001 * one(),
        19999999999 * one() <= 1_000_000_000_000 * (Scalar { bits: GENTLE_BETA }).units() <= 20000000001 * one(),
        149999999999 * one() <= 1_000_000_000_000 * (Scalar { bits: LEAST_ALPHA }).units() <= 150000000001 * one(),
        349999999999 * one() <= 1_000_000_000_000 * (Scalar { bits: MOST_ALPHA }).units() <= 350000000001 * one(),
        39999999999 * one() <= 1_000_000_000_000 * (Scalar { bits: LEAST_BETA }).units() <= 40000000001 * one(),
        119999999999 * one() <= 1_000_000_000_000 * (Scalar { bits: MOST_BETA }).units() <= 120000000001 * one(),
{
    lemma2_to64();
    lemma2_to64_rest();
    lemma_pow2_pos(1074);
    lemma_units(GENTLE_ALPHA as int, 0x1999999999999a, 0x100000000000000);
    lemma_units(GENTLE_BETA as int, 0x147ae147ae147b, 0x400000000000000);
    lemma_units(LEAST_ALPHA as int, 0x13333333333333, 0x80000000000000);
    lemma_units(MOST_ALPHA as int, 0x16666666666666, 0x40000000000000);
    lemma_units(LEAST_BETA as int, 0x147ae147ae147b, 0x200000000000000);
    lemma_units(MOST_BETA as int, 0x1eb851eb851eb8, 0x100000000000000);
}

/// A fix of three receivers pulls a track the least, and less than any share of more receivers; a
/// young track is pulled harder than an old one, and the velocity never harder than the place.
pub proof fn law_three_receivers_pull_least(
    hits: int,
    receiver_count: int,
    alpha: Scalar,
    beta: Scalar,
)
    requires
        receiver_count != 3,
        !alpha.is_nan(),
        !beta.is_nan(),
    ensures
        gains_for(hits, 3).alpha < gains_for(hits, receiver_count).alpha,
        gains_for(hits, 3).beta < gains_for(hits, receiver_count).beta,
        !gains_for(hits, 3).adaptive,
        gains_for(hits, receiver_count).adaptive,
        hits < 4 ==> gains_for(hits, receiver_count).alpha == 2 * gains_for(4, receiver_count).alpha,
        hits >= 4 ==> gains_for(hits, receiver_count).alpha == 25 && gains_for(
            hits,
            receiver_count,
        ).beta == 8,
        hits < 4 ==> gains_for(hits, receiver_count).beta == 20,
        gains_for(hits, 3).alpha == 10 && gains_for(hits, 3).beta == 2,
        shares(3, alpha, beta).0.less(shares(receiver_count, alpha, beta).0),
        shares(3, alpha, beta).1.less(shares(receiver_count, alpha, beta).1),
        ({
            let (least, most) = ((Scalar { bits: LEAST_BETA }), (Scalar { bits: MOST_BETA }));
            &&& least.at_most(shares(receiver_count, alpha, beta).1)
            &&& shares(receiver_count, alpha, beta).1.at_most(most)
            &&& least.at_most(beta) && beta.at_most(most) ==> shares(receiver_count, alpha, beta).1
                == beta
        }),
        (Scalar { bits: LEAST_ALPHA }).at_most(alpha) && alpha.at_most(
            Scalar { bits: MOST_ALPHA },
        ) ==> shares(receiver_count, alpha, beta).0 == alpha,
{
    law_shares_in_numbers();
    lemma_pow2_pos(1074);
}


} // verus!
