//! All aircraft, and which receiver hears which of them.

use crate::altitude::{law_projection_follows_the_rate, project, projected};
use crate::coordinates::{EcefPoint, GeodeticPoint};
use crate::scalar::{lemma_nearest_is_near, nearest, one, Scalar};
use crate::sets::{law_added_address_is_there, with_icao, IcaoSet};
use crate::table::{ById, ByName, Table};
use crate::text::{format_icao, icao_text};
use crate::track::{
    absorb, after_fix, elapsed, is_free, is_locked, judge, law_free_track_shows_whole_motion,
    law_locked_track_never_moves, rate_in_range, report_of, shows_no_motion, shows_whole_motion,
    since, verdict, Distances, Fix, Motion, Report, TrackedAircraft, Verdict, MAX_RATE,
    MILLISECOND, SECOND,
};
use std::collections::HashSet;
use vstd::arithmetic::power2::lemma_pow2_pos;
use vstd::prelude::*;

verus! {

/// Known aircraft, by address.
pub type Fleet = Map<u64, TrackedAircraft>;

/// Where the search for an aircraft starts.
#[derive(Clone, Copy, Debug, PartialEq, Eq, Structural)]
pub enum StartingPoint {
    /// At a position.
    At(EcefPoint),
    /// At a position from which the aircraft has moved for `after` nanoseconds.
    Moved { from: EcefPoint, velocity: EcefPoint, after: u64 },
}

/// One aircraft of the fleet, or a new one, goes over into another state; the rest stays.
pub open spec fn one_changes(
    old_fleet: Fleet,
    new_fleet: Fleet,
    icao: u32,
    now: u64,
    change: spec_fn(TrackedAircraft, TrackedAircraft) -> bool,
) -> bool {
    &&& new_fleet.dom() == old_fleet.dom().insert(icao as u64)
    &&& forall|k: u64|
        k != icao && #[trigger] old_fleet.contains_key(k) ==> new_fleet[k] == old_fleet[k]
    &&& if old_fleet.contains_key(icao as u64) {
        change(old_fleet[icao as u64], new_fleet[icao as u64])
    } else {
        exists|fresh: TrackedAircraft| #[trigger]
            fresh.is_fresh(icao, now) && change(fresh, new_fleet[icao as u64])
    }
}

/// A receiver has seen an aircraft.
pub open spec fn seen_by(
    before: TrackedAircraft,
    after: TrackedAircraft,
    user: Seq<char>,
    now: u64,
) -> bool {
    &&& after == TrackedAircraft {
        last_seen: now,
        tracking_receivers: after.tracking_receivers,
        ..before
    }
    &&& after.tracking_receivers@ == before.tracking_receivers@.insert(user)
}

/// An aircraft has reported its own position within a minute.
pub open spec fn reports_itself(fleet: Fleet, icao: u32, now: u64) -> bool {
    fleet.contains_key(icao as u64) && (fleet[icao as u64].last_adsb_time matches Some(t)
        && since(now, t) < 60 * SECOND)
}

/// An aircraft is located by multilateration unless it reports its own position, or is a
/// transmitter that is known not to move.
pub open spec fn mlat_candidate(fleet: Fleet, beacons: Set<u32>, icao: u32, now: u64) -> bool {
    !beacons.contains(icao) && !reports_itself(fleet, icao, now)
}

/// The frames of an aircraft are wanted for multilateration if two receivers or more see it,
/// or if it has a track.
pub open spec fn frames_wanted(fleet: Fleet, beacons: Set<u32>, icao: u32, now: u64) -> bool {
    mlat_candidate(fleet, beacons, icao, now) && fleet.contains_key(icao as u64) && (
    fleet[icao as u64].tracking_receivers@.len() >= 2 || fleet[icao as u64].filter is Some)
}

/// Those of the aircraft whose frames are wanted for multilateration.
pub open spec fn wanted(fleet: Fleet, beacons: Set<u32>, heard: Seq<u32>, now: u64) -> Seq<u32>
    decreases heard.len(),
{
    if heard.len() == 0 {
        heard
    } else {
        let rest = wanted(fleet, beacons, heard.drop_last(), now);
        if frames_wanted(fleet, beacons, heard.last(), now) {
            rest.push(heard.last())
        } else {
            rest
        }
    }
}

/// The first 16 of the aircraft that report their own position: their frames synchronise
/// clocks.
pub open spec fn references(fleet: Fleet, heard: Seq<u32>, now: u64) -> Seq<u32>
    decreases heard.len(),
{
    if heard.len() == 0 {
        heard
    } else {
        let rest = references(fleet, heard.drop_last(), now);
        if reports_itself(fleet, heard.last(), now) && rest.len() < 16 {
            rest.push(heard.last())
        } else {
            rest
        }
    }
}

/// The two altitude reports lie between half a second and 25 seconds apart and give a
/// vertical rate that is believed.
pub open spec fn gives_rate(ac: TrackedAircraft, alt_ft: i32, now: u64) -> bool {
    match (ac.altitude_ft, ac.last_altitude_time) {
        (Some(prev), Some(then)) => {
            let dt = since(now, then);
            let climb = alt_ft - prev;
            &&& 500 * MILLISECOND <= dt <= 25 * SECOND
            &&& climb * 60 * SECOND < MAX_RATE * dt
            &&& -climb * 60 * SECOND < MAX_RATE * dt
        },
        _ => false,
    }
}

/// An aircraft reports its barometric altitude; `rate` is the vertical rate that this and
/// earlier reports give.
pub open spec fn altitude_reported(
    before: TrackedAircraft,
    after: TrackedAircraft,
    alt_ft: i32,
    now: u64,
    rate: Scalar,
) -> bool {
    after == TrackedAircraft {
        altitude_ft: Some(alt_ft),
        last_altitude_time: Some(now),
        vertical_rate_fpm: if gives_rate(before, alt_ft, now) && rate_in_range(rate) {
            Some(rate)
        } else {
            before.vertical_rate_fpm
        },
        ..before
    }
}

/// The altitude of an aircraft between two reports: the last one for two seconds or where
/// there is no vertical rate, a projection for a minute, then none.
pub open spec fn altitude_estimate(ac: TrackedAircraft, now: u64) -> Option<i32> {
    match (ac.altitude_ft, ac.last_altitude_time) {
        (Some(base), Some(then)) => {
            let after = since(now, then);
            if after > 60 * SECOND {
                None
            } else {
                match ac.vertical_rate_fpm {
                    Some(rate) => if after < 2 * SECOND {
                        Some(base)
                    } else {
                        Some(projected(base as int, rate, after) as i32)
                    },
                    None => Some(base),
                }
            }
        },
        _ => None,
    }
}

/// Where the search for an aircraft starts: at its confirmed position, moved along, for three
/// minutes; else at the position of its track for one minute.
pub open spec fn starting_point(ac: TrackedAircraft, now: u64) -> Option<StartingPoint> {
    let by_track = match ac.filter {
        Some(f) => if since(now, f.last_update) <= 60 * SECOND {
            Some(StartingPoint::At(f.pos_ecef))
        } else {
            None
        },
        None => None,
    };
    match ac.last_confirmed_pos {
        Some((pos, then)) => if since(now, then) <= 180 * SECOND {
            match ac.last_confirmed_vel {
                Some(velocity) => Some(
                    StartingPoint::Moved {
                        from: pos,
                        velocity,
                        after: since(now, then) as u64,
                    },
                ),
                None => Some(StartingPoint::At(pos)),
            }
        } else {
            by_track
        },
        None => by_track,
    }
}

/// An aircraft that was seen within three minutes.
pub open spec fn is_recent(ac: TrackedAircraft, now: u64) -> bool {
    since(now, ac.last_seen) < 180 * SECOND
}

/// All aircraft, and which receiver hears which of them.
pub struct AircraftTracker {
    aircraft: Table<ById, TrackedAircraft>,
    receiver_positions: Table<ByName, (EcefPoint, GeodeticPoint)>,
    receiver_tracking: Table<ByName, IcaoSet>,
    fixed_ground_beacons: HashSet<u32>,
}

impl AircraftTracker {
    /// An aircraft stands under its own address, and its track is locked if and only if the
    /// transmitter is known not to move.
    spec fn in_place(self, k: u64) -> bool {
        let ac = self.aircraft@[k];
        &&& ac.wf()
        &&& ac.icao == k
        &&& self.fixed_ground_beacons@.contains(ac.icao) ==> is_locked(ac)
        &&& !self.fixed_ground_beacons@.contains(ac.icao) ==> is_free(ac)
    }

    /// Every aircraft is in its place, and no receiver hears an aircraft twice.
    pub closed spec fn wf(self) -> bool {
        &&& self.aircraft.wf()
        &&& self.receiver_positions.wf()
        &&& self.receiver_tracking.wf()
        &&& forall|k: u64| #[trigger]
            self.aircraft@.contains_key(k) ==> self.in_place(k)
        &&& forall|u: Seq<char>| #[trigger]
            self.receiver_tracking@.contains_key(u) ==> self.receiver_tracking@[u].wf()
    }

    /// Every aircraft stands under its own address, and its track is locked if and only if the
    /// transmitter is known not to move.
    pub proof fn law_fleet_in_order(self)
        requires
            self.wf(),
        ensures
            forall|k: u64| #[trigger]
                self.fleet().contains_key(k) ==> {
                    let ac = self.fleet()[k];
                    &&& ac.wf()
                    &&& ac.icao == k
                    &&& self.beacons().contains(ac.icao) ==> is_locked(ac)
                    &&& !self.beacons().contains(ac.icao) ==> is_free(ac)
                },
    {
        assert forall|k: u64| #[trigger] self.fleet().contains_key(k) implies self.in_place(k) by {}
    }

    /// A transmitter that is known not to move is never reported to move, whatever came before.
    pub proof fn law_beacon_never_moves(self, icao: u32, now: u64, fix: Fix, d: Distances, m: Motion)
        requires
            self.wf(),
            self.beacons().contains(icao),
            self.fleet().contains_key(icao as u64),
        ensures
            shows_no_motion(report_of(self.fleet()[icao as u64], now, fix, d, m)),
    {
        assert(self.in_place(icao as u64));
        law_locked_track_never_moves(self.fleet()[icao as u64], now, fix, d, m);
    }

    /// An aircraft that is no such transmitter is reported with heading and speed or with
    /// neither, the speed above 55 knots, whatever came before.
    pub proof fn law_heading_and_speed_together(
        self,
        icao: u32,
        now: u64,
        fix: Fix,
        d: Distances,
        m: Motion,
    )
        requires
            self.wf(),
            !self.beacons().contains(icao),
            self.fleet().contains_key(icao as u64),
        ensures
            shows_whole_motion(report_of(self.fleet()[icao as u64], now, fix, d, m), m),
    {
        assert(self.in_place(icao as u64));
        law_free_track_shows_whole_motion(self.fleet()[icao as u64], now, fix, d, m);
    }

    /// The aircraft.
    pub closed spec fn fleet(self) -> Fleet {
        self.aircraft@
    }

    /// The positions of the receivers.
    pub closed spec fn positions(self) -> Map<Seq<char>, (EcefPoint, GeodeticPoint)> {
        self.receiver_positions@
    }

    /// The aircraft that each receiver hears.
    pub closed spec fn heard(self) -> Map<Seq<char>, Seq<u32>> {
        self.receiver_tracking@.map_values(|s: IcaoSet| s@)
    }

    /// The transmitters that are known not to move.
    pub closed spec fn beacons(self) -> Set<u32> {
        self.fixed_ground_beacons@
    }

    /// A tracker that knows these fixed transmitters and nothing else.
    pub fn new(fixed: HashSet<u32>) -> (t: Self)
        ensures
            t.wf(),
            t.fleet() == Fleet::empty(),
            t.positions() == Map::<Seq<char>, (EcefPoint, GeodeticPoint)>::empty(),
            t.heard() == Map::<Seq<char>, Seq<u32>>::empty(),
            t.beacons() == fixed@,
    {
        let t: AircraftTracker = AircraftTracker {
            aircraft: Table::new(),
            receiver_positions: Table::new(),
            receiver_tracking: Table::new(),
            fixed_ground_beacons: fixed,
        };
        assert(t.heard() =~= Map::<Seq<char>, Seq<u32>>::empty());
        t
    }

    /// Whether a transmitter is known not to move.
    pub fn is_fixed_beacon(&self, icao: u32) -> (r: bool)
        ensures
            r == self.beacons().contains(icao),
    {
        broadcast use vstd::std_specs::hash::group_hash_axioms;

        self.fixed_ground_beacons.contains(&icao)
    }

    /// What is known of an aircraft.
    pub fn get_aircraft(&self, icao: u32) -> (r: Option<&TrackedAircraft>)
        requires
            self.wf(),
        ensures
            r is Some <==> self.fleet().contains_key(icao as u64),
            r matches Some(ac) ==> *ac == self.fleet()[icao as u64] && ac.wf(),
    {
        self.aircraft.get(&(icao as u64))
    }

    /// The place of an aircraft, which is added where it is not known.
    fn entry(&mut self, icao: u32, now: u64) -> (i: usize)
        requires
            old(self).wf(),
        ensures
            final(self).wf(),
            i < final(self).aircraft.keys().len(),
            final(self).aircraft.keys()[i as int] == icao as u64,
            final(self).fleet().contains_key(icao as u64),
            old(self).fleet().contains_key(icao as u64) ==> final(self).fleet() == old(self).fleet(),
            !old(self).fleet().contains_key(icao as u64) ==> {
                let fresh = final(self).fleet()[icao as u64];
                &&& final(self).fleet() == old(self).fleet().insert(icao as u64, fresh)
                &&& fresh.is_fresh(icao, now)
            },
            final(self).receiver_positions == old(self).receiver_positions,
            final(self).receiver_tracking == old(self).receiver_tracking,
            final(self).fixed_ground_beacons == old(self).fixed_ground_beacons,
    {
        match self.aircraft.find(&(icao as u64)) {
            Some(i) => i,
            None => {
                let i: usize = self.aircraft.len();
                self.aircraft.add(icao as u64, TrackedAircraft::new(icao, now));
                i
            },
        }
    }

    /// The position of a receiver; from now on it is asked what it hears.
    pub fn set_receiver_position(&mut self, user: String, ecef: EcefPoint, geo: GeodeticPoint)
        requires
            old(self).wf(),
        ensures
            final(self).wf(),
            final(self).positions() == old(self).positions().insert(user@, (ecef, geo)),
            final(self).heard() == (if old(self).heard().contains_key(user@) {
                old(self).heard()
            } else {
                old(self).heard().insert(user@, Seq::<u32>::empty())
            }),
            final(self).fleet() == old(self).fleet(),
            final(self).beacons() == old(self).beacons(),
    {
        self.receiver_positions.put(user.clone(), (ecef, geo));
        if self.receiver_tracking.find(&user).is_none() {
            self.receiver_tracking.add(user, IcaoSet::new());
            assert(self.heard() =~= old(self).heard().insert(user@, Seq::<u32>::empty()));
        }
    }

    /// A receiver is gone: it has no position, hears nothing, and sees no aircraft.
    pub fn remove_receiver(&mut self, user: &String)
        requires
            old(self).wf(),
        ensures
            final(self).wf(),
            final(self).positions() == old(self).positions().remove(user@),
            final(self).heard() == old(self).heard().remove(user@),
            final(self).fleet().dom() == old(self).fleet().dom(),
            forall|k: u64| #[trigger]
                final(self).fleet().contains_key(k) ==> final(self).fleet()[k] == (
                TrackedAircraft {
                    tracking_receivers: final(self).fleet()[k].tracking_receivers,
                    ..old(self).fleet()[k]
                }) && final(self).fleet()[k].tracking_receivers@ == old(
                    self).fleet()[k].tracking_receivers@.remove(user@),
            final(self).beacons() == old(self).beacons(),
    {
        self.receiver_positions.remove(user);
        self.receiver_tracking.remove(user);
        assert(self.heard() =~= old(self).heard().remove(user@));
        let n: usize = self.aircraft.len();
        let mut i: usize = 0;
        proof {
            self.aircraft.lemma_keys();
        }
        while i < n
            invariant
                i <= n,
                n == self.aircraft.keys().len(),
                self.wf(),
                self.receiver_positions@ == old(self).receiver_positions@.remove(user@),
                self.heard() == old(self).heard().remove(user@),
                self.fixed_ground_beacons == old(self).fixed_ground_beacons,
                self.aircraft.keys() == old(self).aircraft.keys(),
                self.aircraft@.dom() == old(self).aircraft@.dom(),
                old(self).wf(),
                forall|j: int, k: int|
                    0 <= j < k < n ==> #[trigger] self.aircraft.keys()[j]
                        != #[trigger] self.aircraft.keys()[k],
                forall|j: int|
                    i <= j < n ==> self.aircraft@[#[trigger] self.aircraft.keys()[j]] == old(
                        self).aircraft@[self.aircraft.keys()[j]],
                forall|j: int|
                    0 <= j < i ==> {
                        let k = #[trigger] self.aircraft.keys()[j];
                        &&& self.aircraft@[k] == TrackedAircraft {
                            tracking_receivers: self.aircraft@[k].tracking_receivers,
                            ..old(self).aircraft@[k]
                        }
                        &&& self.aircraft@[k].tracking_receivers@ == old(
                            self).aircraft@[k].tracking_receivers@.remove(user@)
                    },
            decreases n - i,
        {
            let ghost before = *self;
            let ghost k = self.aircraft.keys()[i as int];
            proof {
                self.aircraft.lemma_keys();
            }
            let row = self.aircraft.row_at_mut(i);
            row.tracking_receivers.remove(user);
            proof {
                assert(self.aircraft@.dom() =~= before.aircraft@.dom());
                assert forall|q: u64| #[trigger] self.aircraft@.contains_key(q) implies
                    self.in_place(q) by {
                    assert(before.aircraft@.contains_key(q));
                }
            }
            i += 1;
        }
        proof {
            old(self).aircraft.lemma_keys();
            assert forall|k: u64| #[trigger] self.fleet().contains_key(k) implies self.fleet()[k] == (
            TrackedAircraft {
                tracking_receivers: self.fleet()[k].tracking_receivers,
                ..old(self).fleet()[k]
            }) && self.fleet()[k].tracking_receivers@ == old(self).fleet()[k].tracking_receivers@.remove(
                user@,
            ) by {
                assert(old(self).aircraft@.contains_key(k));
                assert(self.aircraft.keys().contains(k));
            }
        }
    }

    /// A receiver has sent a frame of an aircraft.
    pub fn record_add(&mut self, icao: u32, user: &String, now: u64)
        requires
            old(self).wf(),
        ensures
            final(self).wf(),
            one_changes(
                old(self).fleet(),
                final(self).fleet(),
                icao,
                now,
                |before: TrackedAircraft, after: TrackedAircraft|
                    seen_by(before, after, user@, now),
            ),
            final(self).heard() == (if old(self).heard().contains_key(user@) {
                old(self).heard().insert(user@, with_icao(old(self).heard()[user@], icao))
            } else {
                old(self).heard()
            }),
            final(self).positions() == old(self).positions(),
            final(self).fleet().contains_key(icao as u64),
            final(self).fleet()[icao as u64].last_seen == now,
            final(self).fleet()[icao as u64].tracking_receivers@.contains(user@),
            old(self).heard().contains_key(user@) ==> final(self).heard()[user@].contains(icao),
            final(self).beacons() == old(self).beacons(),
    {
        let i: usize = self.entry(icao, now);
        let ghost mid = *self;
        let row = self.aircraft.row_at_mut(i);
        row.last_seen = now;
        row.tracking_receivers.insert(user);
        proof {
            assert(self.aircraft@.dom() =~= old(self).aircraft@.dom().insert(icao as u64));
            assert(seen_by(mid.fleet()[icao as u64], self.fleet()[icao as u64], user@, now));
            assert forall|q: u64| #[trigger] self.aircraft@.contains_key(q) implies
                self.in_place(q) by {
                assert(mid.aircraft@.contains_key(q));
            }
        }
        if let Some(j) = self.receiver_tracking.find(user) {
            let ghost middle = *self;
            let set = self.receiver_tracking.row_at_mut(j);
            set.insert(icao);
            proof {
                assert(self.heard() =~= old(self).heard().insert(
                    user@,
                    with_icao(old(self).heard()[user@], icao),
                ));
                law_added_address_is_there(old(self).heard()[user@], icao, icao);
                assert forall|u: Seq<char>| #[trigger]
                    self.receiver_tracking@.contains_key(u) implies self.receiver_tracking@[u].wf() by {
                    assert(middle.receiver_tracking@.contains_key(u));
                }
            }
        }
    }

    /// A receiver has reported that it sees an aircraft.
    pub fn record_seen(&mut self, icao: u32, user: &String, now: u64)
        requires
            old(self).wf(),
        ensures
            final(self).wf(),
            one_changes(
                old(self).fleet(),
                final(self).fleet(),
                icao,
                now,
                |before: TrackedAircraft, after: TrackedAircraft|
                    seen_by(before, after, user@, now),
            ),
            final(self).heard() == (if old(self).heard().contains_key(user@) {
                old(self).heard().insert(user@, with_icao(old(self).heard()[user@], icao))
            } else {
                old(self).heard()
            }),
            final(self).positions() == old(self).positions(),
            final(self).fleet().contains_key(icao as u64),
            final(self).fleet()[icao as u64].last_seen == now,
            final(self).fleet()[icao as u64].tracking_receivers@.contains(user@),
            old(self).heard().contains_key(user@) ==> final(self).heard()[user@].contains(icao),
            final(self).beacons() == old(self).beacons(),
    {
        self.record_add(icao, user, now);
    }

    /// An aircraft has reported its own position.
    pub fn mark_adsb_seen(&mut self, icao: u32, now: u64)
        requires
            old(self).wf(),
        ensures
            final(self).wf(),
            one_changes(
                old(self).fleet(),
                final(self).fleet(),
                icao,
                now,
                |before: TrackedAircraft, after: TrackedAircraft|
                    after == (TrackedAircraft {
                        last_seen: now,
                        last_adsb_time: Some(now),
                        ..before
                    }),
            ),
            final(self).fleet().contains_key(icao as u64),
            final(self).fleet()[icao as u64].last_adsb_time == Some(now),
            forall|later: u64|
                later < now + 60_000_000_000 ==> !#[trigger] mlat_candidate(
                    final(self).fleet(),
                    final(self).beacons(),
                    icao,
                    later,
                ),
            final(self).heard() == old(self).heard(),
            final(self).positions() == old(self).positions(),
            final(self).beacons() == old(self).beacons(),
    {
        let i: usize = self.entry(icao, now);
        let ghost mid = *self;
        let row = self.aircraft.row_at_mut(i);
        row.last_seen = now;
        row.last_adsb_time = Some(now);
        proof {
            assert(self.aircraft@.dom() =~= old(self).aircraft@.dom().insert(icao as u64));
            assert(mid.fleet()[icao as u64].is_fresh(icao, now) || old(self).fleet().contains_key(
                icao as u64,
            ));
            assert forall|q: u64| #[trigger] self.aircraft@.contains_key(q) implies
                self.in_place(q) by {
                assert(mid.aircraft@.contains_key(q));
            }
        }
    }

    /// A known aircraft is to be located by multilateration after all.
    pub fn mark_mlat_candidate(&mut self, icao: u32)
        requires
            old(self).wf(),
        ensures
            final(self).wf(),
            final(self).fleet() == (if old(self).fleet().contains_key(icao as u64) {
                old(self).fleet().insert(
                    icao as u64,
                    TrackedAircraft { last_adsb_time: None, ..old(self).fleet()[icao as u64] },
                )
            } else {
                old(self).fleet()
            }),
            !old(self).beacons().contains(icao) ==> forall|later: u64| #[trigger]
                mlat_candidate(final(self).fleet(), final(self).beacons(), icao, later),
            final(self).heard() == old(self).heard(),
            final(self).positions() == old(self).positions(),
            final(self).beacons() == old(self).beacons(),
    {
        if let Some(i) = self.aircraft.find(&(icao as u64)) {
            let row = self.aircraft.row_at_mut(i);
            row.last_adsb_time = None;
            assert forall|q: u64| #[trigger] self.aircraft@.contains_key(q) implies
                self.in_place(q) by {
                assert(old(self).aircraft@.contains_key(q));
            }
        }
    }

    /// Whether an aircraft is to be located by multilateration.
    pub fn is_mlat_candidate(&self, icao: u32, now: u64) -> (r: bool)
        requires
            self.wf(),
        ensures
            r == mlat_candidate(self.fleet(), self.beacons(), icao, now),
            self.beacons().contains(icao) ==> !r,
            !self.beacons().contains(icao) && !self.fleet().contains_key(icao as u64) ==> r,
    {
        !self.is_fixed_beacon(icao) && !self.locates_itself(icao, now)
    }

    /// Whether an aircraft has reported its own position within a minute.
    fn locates_itself(&self, icao: u32, now: u64) -> (r: bool)
        requires
            self.wf(),
        ensures
            r == reports_itself(self.fleet(), icao, now),
    {
        match self.aircraft.get(&(icao as u64)) {
            Some(ac) => match ac.last_adsb_time {
                Some(t) => elapsed(now, t) < 60 * SECOND,
                None => false,
            },
            None => false,
        }
    }

    /// The addresses of the aircraft whose frames a receiver is asked for: those that are
    /// located by multilateration, then those that synchronise clocks.
    pub fn get_receiver_candidate_icaos(&self, user: &String, now: u64) -> (r: Vec<String>)
        requires
            self.wf(),
        ensures
            ({
                let heard = if self.heard().contains_key(user@) {
                    self.heard()[user@]
                } else {
                    Seq::empty()
                };
                let asked = wanted(self.fleet(), self.beacons(), heard, now) + references(
                    self.fleet(),
                    heard,
                    now,
                );
                &&& r@.len() == asked.len()
                &&& forall|i: int|
                    0 <= i < asked.len() ==> (#[trigger] r@[i])@ == icao_text(asked[i], false)
            }),
    {
        let mut mlat: Vec<String> = Vec::new();
        let mut sync: Vec<String> = Vec::new();
        let set: &IcaoSet = match self.receiver_tracking.get(user) {
            Some(set) => set,
            None => return mlat,
        };
        let n: usize = set.len();
        let ghost heard = set@;
        assert(heard == self.heard()[user@]);
        let mut i: usize = 0;
        assert(heard.take(0) =~= Seq::<u32>::empty());
        while i < n
            invariant
                i <= n,
                n == heard.len(),
                set@ == heard,
                self.wf(),
                mlat@.len() == wanted(self.fleet(), self.beacons(), heard.take(i as int), now).len(),
                sync@.len() == references(self.fleet(), heard.take(i as int), now).len(),
                forall|j: int|
                    0 <= j < mlat@.len() ==> (#[trigger] mlat@[j])@ == icao_text(
                        wanted(self.fleet(), self.beacons(), heard.take(i as int), now)[j],
                        false,
                    ),
                forall|j: int|
                    0 <= j < sync@.len() ==> (#[trigger] sync@[j])@ == icao_text(
                        references(self.fleet(), heard.take(i as int), now)[j],
                        false,
                    ),
            decreases n - i,
        {
            let icao: u32 = set.at(i);
            assert(heard.take(i + 1).drop_last() =~= heard.take(i as int));
            if self.is_mlat_candidate(icao, now) {
                let shared: bool = match self.aircraft.get(&(icao as u64)) {
                    Some(ac) => {
                        assert(self.aircraft@.contains_key(icao as u64));
                        ac.tracking_receivers.len() >= 2 || ac.filter.is_some()
                    },
                    None => false,
                };
                if shared {
                    mlat.push(format_icao(icao, false));
                }
            } else if sync.len() < 16 && self.locates_itself(icao, now) {
                sync.push(format_icao(icao, false));
            }
            i += 1;
        }
        assert(heard.take(n as int) =~= heard);
        mlat.append(&mut sync);
        mlat
    }

    /// Whether an aircraft has had a fix within `max_age` nanoseconds.
    pub fn has_recent_position(&self, icao: u32, max_age: u64, now: u64) -> (r: bool)
        requires
            self.wf(),
        ensures
            r == (self.fleet().contains_key(icao as u64) && (
            self.fleet()[icao as u64].filter matches Some(f) && since(now, f.last_update)
                <= max_age)),
            r ==> self.fleet().contains_key(icao as u64) && (
            self.fleet()[icao as u64].filter matches Some(f) && now <= f.last_update + max_age),
    {
        match self.aircraft.get(&(icao as u64)) {
            Some(ac) => match &ac.filter {
                Some(f) => elapsed(now, f.last_update) <= max_age,
                None => false,
            },
            None => false,
        }
    }

    /// Where the search for an aircraft starts.
    pub fn get_last_ecef(&self, icao: u32, now: u64) -> (r: Option<StartingPoint>)
        requires
            self.wf(),
        ensures
            r == (if self.fleet().contains_key(icao as u64) {
                starting_point(self.fleet()[icao as u64], now)
            } else {
                None
            }),
    {
        let ac: &TrackedAircraft = match self.aircraft.get(&(icao as u64)) {
            Some(ac) => ac,
            None => return None,
        };
        if let Some((pos, then)) = ac.last_confirmed_pos {
            let after: u64 = elapsed(now, then);
            if after <= 180 * SECOND {
                return match ac.last_confirmed_vel {
                    Some(velocity) => Some(StartingPoint::Moved { from: pos, velocity, after }),
                    None => Some(StartingPoint::At(pos)),
                };
            }
        }
        match &ac.filter {
            Some(f) => if elapsed(now, f.last_update) <= 60 * SECOND {
                Some(StartingPoint::At(f.pos_ecef))
            } else {
                None
            },
            None => None,
        }
    }

    /// What becomes of a fix of an aircraft.
    pub fn judge_fix(&self, icao: u32, now: u64, fix: &Fix, d: &Distances) -> (v: Verdict)
        requires
            self.wf(),
        ensures
            self.fleet().contains_key(icao as u64) ==> v == verdict(
                self.fleet()[icao as u64],
                now,
                *fix,
                *d,
            ),
            !self.fleet().contains_key(icao as u64) ==> forall|fresh: TrackedAircraft| #[trigger]
                fresh.is_fresh(icao, now) ==> v == verdict(fresh, now, *fix, *d),
    {
        match self.aircraft.get(&(icao as u64)) {
            Some(ac) => judge(ac, now, fix, d),
            None => judge(&TrackedAircraft::new(icao, now), now, fix, d),
        }
    }

    /// An aircraft takes a fix; the result is what there is to report.
    pub fn update_mlat_position(
        &mut self,
        icao: u32,
        now: u64,
        fix: &Fix,
        d: &Distances,
        m: &Motion,
    ) -> (r: Option<Report>)
        requires
            old(self).wf(),
        ensures
            final(self).wf(),
            one_changes(
                old(self).fleet(),
                final(self).fleet(),
                icao,
                now,
                |before: TrackedAircraft, after: TrackedAircraft|
                    after == after_fix(before, old(self).beacons().contains(icao), now, *fix, *d, *m)
                        && r == report_of(before, now, *fix, *d, *m),
            ),
            old(self).beacons().contains(icao) ==> shows_no_motion(r),
            !old(self).beacons().contains(icao) ==> shows_whole_motion(r, *m),
            final(self).heard() == old(self).heard(),
            final(self).positions() == old(self).positions(),
            final(self).beacons() == old(self).beacons(),
    {
        let fixed: bool = self.is_fixed_beacon(icao);
        let i: usize = self.entry(icao, now);
        let ghost mid = *self;
        let row = self.aircraft.row_at_mut(i);
        let r: Option<Report> = absorb(row, fixed, now, fix, d, m);
        proof {
            assert(mid.in_place(icao as u64));
            if fixed {
                law_locked_track_never_moves(mid.fleet()[icao as u64], now, *fix, *d, *m);
            } else {
                law_free_track_shows_whole_motion(mid.fleet()[icao as u64], now, *fix, *d, *m);
            }
            assert(self.aircraft@.dom() =~= old(self).aircraft@.dom().insert(icao as u64));
            assert(mid.fleet()[icao as u64].is_fresh(icao, now) || old(self).fleet().contains_key(
                icao as u64,
            ));
            assert forall|q: u64| #[trigger] self.aircraft@.contains_key(q) implies
                self.in_place(q) by {
                assert(mid.aircraft@.contains_key(q));
            }
        }
        r
    }

    /// The barometric altitude of an aircraft in feet, as it was last reported.
    pub fn get_altitude(&self, icao: u32) -> (r: Option<i32>)
        requires
            self.wf(),
        ensures
            r == (if self.fleet().contains_key(icao as u64) {
                self.fleet()[icao as u64].altitude_ft
            } else {
                None
            }),
    {
        match self.aircraft.get(&(icao as u64)) {
            Some(ac) => ac.altitude_ft,
            None => None,
        }
    }

    /// The barometric altitude of an aircraft, carried on since it was last reported.
    pub fn get_interpolated_altitude(&self, icao: u32, now: u64) -> (r: Option<i32>)
        requires
            self.wf(),
        ensures
            r == (if self.fleet().contains_key(icao as u64) {
                altitude_estimate(self.fleet()[icao as u64], now)
            } else {
                None
            }),
    {
        let ac: &TrackedAircraft = match self.aircraft.get(&(icao as u64)) {
            Some(ac) => ac,
            None => return None,
        };
        match (ac.altitude_ft, ac.last_altitude_time) {
            (Some(base), Some(then)) => {
                let after: u64 = elapsed(now, then);
                if after > 60 * SECOND {
                    return None;
                }
                match ac.vertical_rate_fpm {
                    Some(rate) => if after < 2 * SECOND {
                        Some(base)
                    } else {
                        Some(project(base, rate, after))
                    },
                    None => Some(base),
                }
            },
            _ => None,
        }
    }

    /// An aircraft reports its barometric altitude in feet. `rate` is the vertical rate in feet
    /// per minute that this and earlier reports give; it counts only where the last two
    /// reports give one that is believed.
    pub fn update_altitude_baro(&mut self, icao: u32, alt_ft: i32, now: u64, rate: Scalar)
        requires
            old(self).wf(),
        ensures
            final(self).wf(),
            one_changes(
                old(self).fleet(),
                final(self).fleet(),
                icao,
                now,
                |before: TrackedAircraft, after: TrackedAircraft|
                    altitude_reported(before, after, alt_ft, now, rate),
            ),
            final(self).fleet().contains_key(icao as u64),
            final(self).fleet()[icao as u64].altitude_ft == Some(alt_ft),
            final(self).fleet()[icao as u64].last_altitude_time == Some(now),
            final(self).heard() == old(self).heard(),
            final(self).positions() == old(self).positions(),
            final(self).beacons() == old(self).beacons(),
    {
        let i: usize = self.entry(icao, now);
        let ghost mid = *self;
        let row = self.aircraft.row_at_mut(i);
        if rate_usable(row, alt_ft, now) && !rate.exceeds(MAX_RATE, 1) && !rate.negated().exceeds(
            MAX_RATE,
            1,
        ) {
            row.vertical_rate_fpm = Some(rate);
        }
        row.altitude_ft = Some(alt_ft);
        row.last_altitude_time = Some(now);
        proof {
            assert(self.aircraft@.dom() =~= old(self).aircraft@.dom().insert(icao as u64));
            assert(altitude_reported(
                mid.fleet()[icao as u64],
                self.fleet()[icao as u64],
                alt_ft,
                now,
                rate,
            ));
            assert(mid.fleet()[icao as u64].is_fresh(icao, now) || old(self).fleet().contains_key(
                icao as u64,
            ));
            assert forall|q: u64| #[trigger] self.aircraft@.contains_key(q) implies
                self.in_place(q) by {
                assert(mid.aircraft@.contains_key(q));
            }
        }
    }

    /// Forgets the aircraft that were not seen for three minutes.
    fn forget_aircraft(&mut self, now: u64)
        requires
            old(self).wf(),
        ensures
            final(self).wf(),
            forall|k: u64| #[trigger]
                final(self).fleet().contains_key(k) <==> old(self).fleet().contains_key(k)
                    && is_recent(old(self).fleet()[k], now),
            forall|k: u64| #[trigger]
                final(self).fleet().contains_key(k) ==> final(self).fleet()[k] == old(
                    self).fleet()[k],
            final(self).receiver_positions == old(self).receiver_positions,
            final(self).receiver_tracking == old(self).receiver_tracking,
            final(self).fixed_ground_beacons == old(self).fixed_ground_beacons,
    {
        let mut i: usize = 0;
        while i < self.aircraft.len()
            invariant
                i <= self.aircraft.keys().len(),
                old(self).wf(),
                self.wf(),
                self.receiver_positions == old(self).receiver_positions,
                self.receiver_tracking == old(self).receiver_tracking,
                self.fixed_ground_beacons == old(self).fixed_ground_beacons,
                forall|k: u64| #[trigger]
                    self.aircraft@.contains_key(k) ==> old(self).aircraft@.contains_key(k)
                        && self.aircraft@[k] == old(self).aircraft@[k],
                forall|k: u64| #[trigger]
                    old(self).aircraft@.contains_key(k) && is_recent(old(self).aircraft@[k], now)
                        ==> self.aircraft@.contains_key(k),
                forall|j: int|
                    0 <= j < i ==> is_recent(
                        self.aircraft@[#[trigger] self.aircraft.keys()[j]],
                        now,
                    ),
            decreases self.aircraft.keys().len() - i,
        {
            proof {
                self.aircraft.lemma_keys();
            }
            if elapsed(now, self.aircraft.row_at(i).last_seen) < 180 * SECOND {
                i += 1;
            } else {
                let ghost before = *self;
                let ghost key = self.aircraft.keys()[i as int];
                self.aircraft.remove_at(i);
                proof {
                    assert forall|j: int| 0 <= j < i implies is_recent(
                        self.aircraft@[#[trigger] self.aircraft.keys()[j]],
                        now,
                    ) by {
                        assert(self.aircraft.keys()[j] == before.aircraft.keys()[j]);
                        assert(before.aircraft.keys()[j] != key);
                    }
                    assert forall|q: u64| #[trigger] self.aircraft@.contains_key(q) implies
                        self.in_place(q) by {
                        assert(before.aircraft@.contains_key(q));
                    }
                    assert forall|k: u64| #[trigger] old(self).aircraft@.contains_key(k)
                        && is_recent(old(self).aircraft@[k], now) implies self.aircraft@.contains_key(
                        k,
                    ) by {
                        assert(before.aircraft@.contains_key(k));
                    }
                }
            }
        }
        proof {
            self.aircraft.lemma_keys();
            assert forall|k: u64| #[trigger] self.fleet().contains_key(k) implies is_recent(
                old(self).fleet()[k],
                now,
            ) by {
                assert(self.aircraft@.contains_key(k));
                let j = choose|j: int|
                    0 <= j < self.aircraft.keys().len() && self.aircraft.keys()[j] == k;
                assert(is_recent(self.aircraft@[self.aircraft.keys()[j]], now));
            }
        }
    }

    /// Forgets the aircraft that were not seen for three minutes; no receiver hears them any
    /// more.
    pub fn cleanup_stale(&mut self, now: u64)
        requires
            old(self).wf(),
        ensures
            final(self).wf(),
            forall|k: u64| #[trigger]
                final(self).fleet().contains_key(k) <==> old(self).fleet().contains_key(k)
                    && is_recent(old(self).fleet()[k], now),
            forall|k: u64| #[trigger]
                final(self).fleet().contains_key(k) ==> final(self).fleet()[k] == old(
                    self).fleet()[k],
            final(self).heard().dom() == old(self).heard().dom(),
            forall|u: Seq<char>| #[trigger]
                final(self).heard().contains_key(u) ==> final(self).heard()[u] == still_known(
                    final(self).fleet(),
                    old(self).heard()[u],
                ),
            final(self).positions() == old(self).positions(),
            final(self).beacons() == old(self).beacons(),
    {
        self.forget_aircraft(now);
        let ghost fleet = self.fleet();
        let n: usize = self.receiver_tracking.len();
        let mut i: usize = 0;
        while i < n
            invariant
                i <= n,
                n == self.receiver_tracking.keys().len(),
                self.wf(),
                self.aircraft@ == fleet,
                self.receiver_positions == old(self).receiver_positions,
                self.fixed_ground_beacons == old(self).fixed_ground_beacons,
                self.receiver_tracking.keys() == old(self).receiver_tracking.keys(),
                self.receiver_tracking@.dom() == old(self).receiver_tracking@.dom(),
                old(self).wf(),
                forall|j: int|
                    i <= j < n ==> self.receiver_tracking@[#[trigger] self.receiver_tracking.keys()[j]]
                        == old(self).receiver_tracking@[self.receiver_tracking.keys()[j]],
                forall|j: int|
                    0 <= j < i ==> self.receiver_tracking@[#[trigger] self.receiver_tracking.keys()[j]]@
                        == still_known(
                        fleet,
                        old(self).receiver_tracking@[self.receiver_tracking.keys()[j]]@,
                    ),
            decreases n - i,
        {
            let ghost before = *self;
            proof {
                self.receiver_tracking.lemma_keys();
            }
            let kept: IcaoSet = self.known_only(self.receiver_tracking.row_at(i));
            let row = self.receiver_tracking.row_at_mut(i);
            *row = kept;
            proof {
                assert(self.receiver_tracking@.dom() =~= before.receiver_tracking@.dom());
                assert forall|u: Seq<char>| #[trigger]
                    self.receiver_tracking@.contains_key(u) implies self.receiver_tracking@[u].wf() by {
                    assert(before.receiver_tracking@.contains_key(u));
                }
            }
            i += 1;
        }
        proof {
            old(self).receiver_tracking.lemma_keys();
            assert(self.heard().dom() =~= old(self).heard().dom());
            assert forall|u: Seq<char>| #[trigger] self.heard().contains_key(u) implies self.heard()[u]
                == still_known(self.fleet(), old(self).heard()[u]) by {
                assert(old(self).receiver_tracking@.contains_key(u));
                assert(self.receiver_tracking.keys().contains(u));
            }
        }
    }

    /// Those of the aircraft that are known, in the same order.
    fn known_only(&self, set: &IcaoSet) -> (r: IcaoSet)
        requires
            self.wf(),
            set.wf(),
        ensures
            r.wf(),
            r@ == still_known(self.fleet(), set@),
    {
        let mut r: IcaoSet = IcaoSet::new();
        let n: usize = set.len();
        let mut i: usize = 0;
        assert(set@.take(0) =~= Seq::<u32>::empty());
        while i < n
            invariant
                i <= n,
                n == set@.len(),
                self.wf(),
                set.wf(),
                r.wf(),
                r@ == still_known(self.fleet(), set@.take(i as int)),
                forall|x: u32| #[trigger] r@.contains(x) ==> set@.take(i as int).contains(x),
            decreases n - i,
        {
            let icao: u32 = set.at(i);
            let ghost so_far = set@.take(i as int);
            let ghost next = set@.take(i + 1);
            assert(next.drop_last() =~= so_far);
            assert(!so_far.contains(icao));
            let ghost before = r@;
            if self.aircraft.find(&(icao as u64)).is_some() {
                r.insert(icao);
            }
            proof {
                assert forall|x: u32| #[trigger] r@.contains(x) implies next.contains(x) by {
                    if x != icao {
                        assert(before.contains(x));
                        let j = choose|j: int| 0 <= j < so_far.len() && so_far[j] == x;
                        assert(next[j] == x);
                    } else {
                        assert(next[i as int] == icao);
                    }
                }
            }
            i += 1;
        }
        assert(set@.take(n as int) =~= set@);
        r
    }
}

/// Those of the addresses that stand for a known aircraft, in the same order.
pub open spec fn still_known(fleet: Fleet, icaos: Seq<u32>) -> Seq<u32>
    decreases icaos.len(),
{
    if icaos.len() == 0 {
        icaos
    } else {
        let rest = still_known(fleet, icaos.drop_last());
        if fleet.contains_key(icaos.last() as u64) {
            rest.push(icaos.last())
        } else {
            rest
        }
    }
}

/// Whether the last altitude report and this one give a vertical rate that is believed.
pub fn rate_usable(ac: &TrackedAircraft, alt_ft: i32, now: u64) -> (r: bool)
    ensures
        r == gives_rate(*ac, alt_ft, now),
{
    match (ac.altitude_ft, ac.last_altitude_time) {
        (Some(prev), Some(then)) => {
            let dt: u64 = elapsed(now, then);
            if dt < 500 * MILLISECOND || dt > 25 * SECOND {
                return false;
            }
            let climb: i128 = (alt_ft as i128 - prev as i128) * 60_000_000_000;
            assert(climb == (alt_ft - prev) * 60 * SECOND);
            assert(-climb == -(alt_ft - prev) * 60 * SECOND);
            let limit: i128 = (MAX_RATE * dt) as i128;
            climb < limit && -climb < limit
        },
        _ => false,
    }
}

/// Two altitude reports from half a second to 25 seconds apart give a rate if and only if the
/// magnitude of the change is below 8000 feet per minute; a descent does where a climb by as much
/// does.
pub proof fn law_descent_gives_a_rate_as_a_climb_does(
    ac: TrackedAircraft,
    prev: i32,
    then: u64,
    alt_ft: i32,
    now: u64,
    turned: TrackedAircraft,
)
    requires
        ac.altitude_ft == Some(prev),
        ac.last_altitude_time == Some(then),
        then <= now,
        turned == (TrackedAircraft { altitude_ft: Some(alt_ft), ..ac }),
    ensures
        ({
            let dt = now - then;
            let climb = alt_ft - prev;
            gives_rate(ac, alt_ft, now) <==> 500_000_000 <= dt <= 25_000_000_000 && -8000 * dt
                < climb * 60_000_000_000 < 8000 * dt
        }),
        gives_rate(turned, prev, now) == gives_rate(ac, alt_ft, now),
        !gives_rate(TrackedAircraft { altitude_ft: None, ..ac }, alt_ft, now),
        !gives_rate(TrackedAircraft { last_altitude_time: None, ..ac }, alt_ft, now),
{
}

/// An altitude report is remembered with its time. Where it and the one before give a rate of at
/// most 8000 feet per minute up or down, that is the vertical rate, else the rate stays.
pub proof fn law_altitude_report_is_remembered(
    before: TrackedAircraft,
    after: TrackedAircraft,
    prev: i32,
    then: u64,
    alt_ft: i32,
    now: u64,
    rate: Scalar,
)
    requires
        altitude_reported(before, after, alt_ft, now, rate),
        before.altitude_ft == Some(prev),
        before.last_altitude_time == Some(then),
        then <= now,
        !rate.is_nan(),
    ensures
        after.altitude_ft == Some(alt_ft),
        after.last_altitude_time == Some(now),
        after.filter == before.filter,
        after.icao == before.icao,
        after.last_seen == before.last_seen,
        after.last_adsb_time == before.last_adsb_time,
        ({
            let dt = now - then;
            let climb = alt_ft - prev;
            if 500_000_000 <= dt <= 25_000_000_000 && -8000 * dt < climb * 60_000_000_000 < 8000
                * dt && -8000 * one() <= rate.units() <= 8000 * one() {
                after.vertical_rate_fpm == Some(rate)
            } else {
                after.vertical_rate_fpm == before.vertical_rate_fpm
            }
        }),
{
}

/// An altitude is the one last reported for two seconds, and for a minute where no rate is known;
/// from then on for a minute it follows the rate to half a foot; after a minute, and where none
/// was reported, there is none.
pub proof fn law_altitude_between_reports(ac: TrackedAircraft, base: i32, then: u64, now: u64)
    requires
        ac.altitude_ft == Some(base),
        ac.last_altitude_time == Some(then),
        then <= now,
        -1_000_000 <= base <= 1_000_000,
        ac.vertical_rate_fpm matches Some(rate) ==> !rate.is_nan() && -8000 * one() <= rate.units()
            <= 8000 * one(),
    ensures
        now - then > 60_000_000_000 ==> altitude_estimate(ac, now) is None,
        now - then <= 60_000_000_000 ==> altitude_estimate(ac, now) is Some,
        now - then < 2_000_000_000 ==> altitude_estimate(ac, now) == Some(base),
        now - then <= 60_000_000_000 && ac.vertical_rate_fpm is None ==> altitude_estimate(ac, now)
            == Some(base),
        2_000_000_000 <= now - then <= 60_000_000_000 ==> (ac.vertical_rate_fpm matches Some(rate)
            ==> {
            let minute = 60_000_000_000 * one();
            let shown = altitude_estimate(ac, now)->Some_0;
            &&& -minute <= 2 * ((shown - base) * minute - rate.units() * (now - then)) <= minute
            &&& rate.units() >= 0 ==> shown >= base
            &&& rate.units() <= 0 ==> shown <= base
        }),
        altitude_estimate(TrackedAircraft { altitude_ft: None, ..ac }, now) is None,
{
    lemma_pow2_pos(1074);
    if let Some(rate) = ac.vertical_rate_fpm {
        let after = now - then;
        if after <= 60_000_000_000 {
            let y = one() * 60_000_000_000;
            let x = base * y + rate.units() * after;
            lemma_nearest_is_near(x, y);
            let u = rate.units();
            assert(-8000 * y <= u * after <= 8000 * y) by (nonlinear_arith)
                requires
                    -8000 * one() <= u <= 8000 * one(),
                    0 <= after <= 60_000_000_000,
                    y == one() * 60_000_000_000,
            ;
            let p = nearest(x, y);
            assert(-1_010_000 <= p <= 1_010_000) by (nonlinear_arith)
                requires
                    -y <= 2 * (p * y - x) <= y,
                    x == base * y + u * after,
                    -8000 * y <= u * after <= 8000 * y,
                    -1_000_000 <= base <= 1_000_000,
                    y > 0,
            ;
            law_projection_follows_the_rate(base as int, rate, after);
        }
    }
}

/// An aircraft that has reported its own position is not located for a minute; any other is,
/// unless it is a transmitter that is known not to move.
pub proof fn law_candidates_do_not_report_themselves(
    fleet: Fleet,
    beacons: Set<u32>,
    icao: u32,
    now: u64,
)
    ensures
        beacons.contains(icao) ==> !mlat_candidate(fleet, beacons, icao, now),
        !beacons.contains(icao) && !fleet.contains_key(icao as u64) ==> mlat_candidate(
            fleet,
            beacons,
            icao,
            now,
        ),
        !beacons.contains(icao) && fleet.contains_key(icao as u64) ==> match fleet[icao as u64].last_adsb_time {
            None => mlat_candidate(fleet, beacons, icao, now),
            Some(t) => mlat_candidate(fleet, beacons, icao, now) <==> now >= t + 60_000_000_000,
        },
{
}

/// A receiver is asked for those of the aircraft it hears, in their order, that are located and
/// that another receiver sees too or that have a track; and for the first 16 that report their own
/// position.
pub proof fn law_wanted_are_heard_and_shared(
    fleet: Fleet,
    beacons: Set<u32>,
    heard: Seq<u32>,
    now: u64,
)
    ensures
        wanted(fleet, beacons, heard, now) == heard.filter(
            |x: u32|
                mlat_candidate(fleet, beacons, x, now) && fleet.contains_key(x as u64) && (
                fleet[x as u64].tracking_receivers@.len() >= 2 || fleet[x as u64].filter is Some),
        ),
        ({
            let own = heard.filter(
                |x: u32|
                    fleet.contains_key(x as u64) && (fleet[x as u64].last_adsb_time matches Some(t)
                        && now < t + 60_000_000_000),
            );
            references(fleet, heard, now) == (if own.len() <= 16 {
                own
            } else {
                own.take(16)
            })
        }),
    decreases heard.len(),
{
    reveal(Seq::filter);
    if heard.len() > 0 {
        law_wanted_are_heard_and_shared(fleet, beacons, heard.drop_last(), now);
        let p = |x: u32|
            fleet.contains_key(x as u64) && (fleet[x as u64].last_adsb_time matches Some(t) && now < t
                + 60_000_000_000);
        let before = heard.drop_last().filter(p);
        if before.len() >= 16 {
            assert(before.push(heard.last()).take(16) =~= before.take(16));
            assert(before.take(16).len() == 16);
            if before.len() == 16 {
                assert(before.take(16) =~= before);
            }
        }
    }
}

/// The aircraft that are still known stay with a receiver, in their order.
pub proof fn law_forgotten_are_no_longer_heard(fleet: Fleet, icaos: Seq<u32>)
    ensures
        still_known(fleet, icaos) == icaos.filter(|x: u32| fleet.contains_key(x as u64)),
    decreases icaos.len(),
{
    reveal(Seq::filter);
    if icaos.len() > 0 {
        law_forgotten_are_no_longer_heard(fleet, icaos.drop_last());
    }
}

/// An aircraft is kept for three minutes from when it was last seen.
pub proof fn law_aircraft_kept_for_three_minutes(ac: TrackedAircraft, now: u64)
    ensures
        is_recent(ac, now) <==> now < ac.last_seen + 180_000_000_000,
{
}

/// A search starts at the position that was last confirmed, for three minutes, moved with the
/// velocity that was confirmed with it; else at the track, for one minute; else nowhere.
pub proof fn law_search_starts_where_the_aircraft_was(ac: TrackedAircraft, now: u64)
    requires
        ac.last_confirmed_pos matches Some(p) ==> p.1 <= now,
    ensures
        (ac.last_confirmed_pos matches Some(p) ==> now - p.1 <= 180_000_000_000 ==> starting_point(
            ac,
            now,
        ) == (match ac.last_confirmed_vel {
            Some(v) => Some(
                StartingPoint::Moved { from: p.0, velocity: v, after: (now - p.1) as u64 },
            ),
            None => Some(StartingPoint::At(p.0)),
        })),
        (ac.last_confirmed_pos matches Some(p) ==> now - p.1 > 180_000_000_000) ==> match ac.filter {
            Some(f) => starting_point(ac, now) == (if now <= f.last_update + 60_000_000_000 {
                Some(StartingPoint::At(f.pos_ecef))
            } else {
                None
            }),
            None => starting_point(ac, now) is None,
        },
{
}

/// A receiver that has seen an aircraft is one of those that see it, the aircraft was seen now,
/// and nothing else changes.
pub proof fn law_seen_aircraft_gains_a_receiver(
    before: TrackedAircraft,
    after: TrackedAircraft,
    user: Seq<char>,
    now: u64,
    other: Seq<char>,
)
    requires
        seen_by(before, after, user, now),
    ensures
        after.last_seen == now,
        after.tracking_receivers@.contains(user),
        other != user ==> (after.tracking_receivers@.contains(other)
            <==> before.tracking_receivers@.contains(other)),
        after.icao == before.icao,
        after.filter == before.filter,
        after.altitude_ft == before.altitude_ft,
        after.vertical_rate_fpm == before.vertical_rate_fpm,
        after.last_adsb_time == before.last_adsb_time,
        after.last_confirmed_pos == before.last_confirmed_pos,
{
}

/// What changes one aircraft leaves all others as they are, adds none but that one and takes
/// none away; where it was not known, it starts without a track, an altitude or a receiver.
pub proof fn law_one_aircraft_changes(
    before: Fleet,
    after: Fleet,
    icao: u32,
    now: u64,
    change: spec_fn(TrackedAircraft, TrackedAircraft) -> bool,
    k: u64,
)
    requires
        one_changes(before, after, icao, now, change),
    ensures
        after.contains_key(icao as u64),
        k != icao ==> (after.contains_key(k) <==> before.contains_key(k)),
        k != icao && before.contains_key(k) ==> after[k] == before[k],
        before.contains_key(icao as u64) ==> change(before[icao as u64], after[icao as u64]),
        !before.contains_key(icao as u64) ==> exists|ac: TrackedAircraft| #[trigger]
            change(ac, after[icao as u64]) && ac.icao == icao && ac.last_seen == now && ac.filter is None
                && ac.last_confirmed_pos is None && ac.last_confirmed_vel is None && ac.altitude_ft is None
                && ac.last_altitude_time is None && ac.vertical_rate_fpm is None && ac.last_adsb_time is None
                && (forall|u: Seq<char>| !(#[trigger] ac.tracking_receivers@.contains(u))),
{
    assert(after.dom().contains(icao as u64));
    if k != icao {
        assert(after.dom().contains(k) <==> before.dom().contains(k));
    }
    if !before.contains_key(icao as u64) {
        let fresh = choose|fresh: TrackedAircraft| #[trigger]
            fresh.is_fresh(icao, now) && change(fresh, after[icao as u64]);
        assert(change(fresh, after[icao as u64]));
    }
}

} // verus!
