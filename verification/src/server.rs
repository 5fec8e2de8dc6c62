//! The state of the server, and what a message does to it.

use crate::clock_sync::{
    connected, indices, law_all_connected_are_reached, law_removed_receiver_is_unreachable, leads,
    lemma_reachable_len, links_of, names, reachable,
    ClockSyncGraph, Pairings, Route,
};
use crate::coordinates::{EcefPoint, GeodeticPoint};
use crate::cpr::{decode_cpr_pair, pair_position, CprPosition};
use crate::frames::{
    after_report, hash_payload, joined, payload_hash, row_of, Frame, FrameBuffer,
    PendingSyncReception, SyncBuffer, SyncFrame,
};
use crate::messages::{extract_altitude, extract_icao_and_df, frame_address, frame_altitude};
use crate::protocol::{FrameReport, Sighting, Source, SyncReport};
use crate::receiver::{capped, rate_of, Receiver};
use crate::scalar::{one, Scalar};
use crate::sets::{law_added_address_is_there, with_icao};
use crate::table::{ByName, Table};
use crate::tdoa_solver::{in_horizon, within_horizon};
use crate::text::icao_text;
use crate::track::{elapsed, rate_in_range, since, TrackedAircraft, SECOND};
use crate::tracker::{
    altitude_estimate, altitude_reported, gives_rate, mlat_candidate, one_changes, references,
    seen_by, wanted, AircraftTracker, Fleet,
};
use std::collections::HashSet;
use vstd::prelude::*;

verus! {

/// All that the server knows.
pub struct ServerState {
    pub receivers: Table<ByName, Receiver>,
    pub clock_sync: ClockSyncGraph,
    pub tracker: AircraftTracker,
    pub inflight_frames: FrameBuffer,
    pub inflight_syncs: SyncBuffer,
}

/// The addresses that a receiver hears, with those of a list.
pub open spec fn with_icaos(heard: Seq<u32>, list: Seq<u32>) -> Seq<u32>
    decreases list.len(),
{
    if list.len() == 0 {
        heard
    } else {
        with_icao(with_icaos(heard, list.drop_last()), list.last())
    }
}

/// A receiver has seen aircraft.
pub open spec fn all_seen(
    before: Fleet,
    after: Fleet,
    list: Seq<u32>,
    user: Seq<char>,
    now: u64,
) -> bool {
    &&& forall|k: u64| #[trigger]
        after.contains_key(k) <==> before.contains_key(k) || is_listed(list, k)
    &&& forall|k: u64| #[trigger]
        before.contains_key(k) && !is_listed(list, k) ==> after[k] == before[k]
    &&& forall|k: u64| #[trigger]
        before.contains_key(k) && is_listed(list, k) ==> seen_by(before[k], after[k], user, now)
    &&& forall|k: u64| #[trigger]
        after.contains_key(k) && !before.contains_key(k) ==> newly_seen(after[k], k, user, now)
}

/// An address stands in a list.
pub open spec fn is_listed(list: Seq<u32>, k: u64) -> bool {
    exists|i: int| 0 <= i < list.len() && #[trigger] list[i] as u64 == k
}

/// A receiver has seen an aircraft that was not known.
pub open spec fn newly_seen(ac: TrackedAircraft, k: u64, user: Seq<char>, now: u64) -> bool {
    exists|fresh: TrackedAircraft| #[trigger]
        fresh.is_fresh(k as u32, now) && seen_by(fresh, ac, user, now)
}

/// The aircraft that a receiver hears.
pub open spec fn heard_by(heard: Map<Seq<char>, Seq<u32>>, user: Seq<char>) -> Seq<u32> {
    if heard.contains_key(user) {
        heard[user]
    } else {
        Seq::empty()
    }
}

/// The addresses that a receiver is asked for.
pub open spec fn asked(t: AircraftTracker, user: Seq<char>, now: u64) -> Seq<u32> {
    wanted(t.fleet(), t.beacons(), heard_by(t.heard(), user), now) + references(
        t.fleet(),
        heard_by(t.heard(), user),
        now,
    )
}

/// A list of addresses as texts.
pub open spec fn are_addresses(texts: Seq<String>, list: Seq<u32>) -> bool {
    &&& texts.len() == list.len()
    &&& forall|i: int| 0 <= i < list.len() ==> (#[trigger] texts[i])@ == icao_text(list[i], false)
}

/// The aircraft that a frame is from, and its altitude where the frame holds it.
pub open spec fn frame_subject(payload: Seq<u8>) -> Option<(u32, Option<i32>)> {
    match frame_address(payload) {
        Some((df, icao)) => if icao > 0 {
            Some((icao, frame_altitude(payload)))
        } else {
            None
        },
        None => None,
    }
}

/// A receiver has sent a frame of an aircraft that may hold its altitude.
pub open spec fn frame_heard(
    before: TrackedAircraft,
    after: TrackedAircraft,
    user: Seq<char>,
    now: u64,
    altitude: Option<i32>,
    rate: Scalar,
) -> bool {
    &&& after.tracking_receivers@ == before.tracking_receivers@.insert(user)
    &&& after == TrackedAircraft {
        last_seen: now,
        tracking_receivers: after.tracking_receivers,
        altitude_ft: if altitude is Some {
            altitude
        } else {
            before.altitude_ft
        },
        last_altitude_time: if altitude is Some {
            Some(now)
        } else {
            before.last_altitude_time
        },
        vertical_rate_fpm: if altitude is Some && gives_rate(before, altitude->Some_0, now)
            && rate_in_range(rate) {
            Some(rate)
        } else {
            before.vertical_rate_fpm
        },
        ..before
    }
}

/// A station whose report of a frame can be brought to the common clock.
#[derive(Debug)]
pub struct Synced {
    /// Which of the reports it is.
    pub at: usize,
    /// How its time is brought there.
    pub route: Route,
    /// Where the station is, where that is known.
    pub position: Option<EcefPoint>,
}

/// A frame to be located.
#[derive(Debug)]
pub struct Job {
    pub frame: Frame,
    /// The report whose clock is the common one.
    pub root: usize,
    pub synced: Vec<Synced>,
}

/// The names of the stations that have reported a frame.
pub open spec fn reporters(f: Frame) -> Seq<Seq<char>> {
    f.heard().map_values(|r: (Seq<char>, Scalar)| r.0)
}

/// Which reports of a frame can be brought to the common clock.
pub open spec fn synced_places(synced: Seq<Synced>) -> Seq<int> {
    synced.map_values(|s: Synced| s.at as int)
}

/// A frame can be located, as far as the clocks go: its aircraft is a candidate, three stations
/// have reported it, and three can be brought to the clock of one.
pub open spec fn has_root(pairings: Pairings, now: u64, f: Frame, root: int) -> bool {
    &&& 0 <= root < f.receptions@.len()
    &&& reachable(pairings, now, reporters(f), root).len() >= 3
}

/// The stations of a job.
pub open spec fn are_synced(
    pairings: Pairings,
    positions: Map<Seq<char>, (EcefPoint, GeodeticPoint)>,
    now: u64,
    f: Frame,
    root: int,
    synced: Seq<Synced>,
) -> bool {
    &&& synced_places(synced) == reachable(pairings, now, reporters(f), root)
    &&& forall|i: int|
        0 <= i < synced.len() ==> {
            let s = #[trigger] synced[i];
            &&& s.at < f.receptions@.len()
            &&& leads(
                pairings,
                now,
                f.receptions@[s.at as int].user@,
                f.receptions@[root].user@,
                s.route,
            )
            &&& s.position == (if positions.contains_key(f.receptions@[s.at as int].user@) {
                Some(positions[f.receptions@[s.at as int].user@].0)
            } else {
                None
            })
        }
}

impl ServerState {
    /// Every part is in order, and every receiver stands under its own name.
    pub open spec fn wf(self) -> bool {
        &&& self.receivers.wf()
        &&& self.clock_sync.wf()
        &&& self.tracker.wf()
        &&& self.inflight_frames.wf()
        &&& self.inflight_syncs.wf()
        &&& forall|u: Seq<char>| #[trigger]
            self.receivers@.contains_key(u) ==> self.receivers@[u].user@ == u
    }

    /// A server to which nothing is connected.
    pub fn new(fixed: HashSet<u32>) -> (s: ServerState)
        ensures
            s.wf(),
            (s.receivers@ == Map::<Seq<char>, Receiver>::empty()),
            s.clock_sync.pairings() == Pairings::empty(),
            (s.clock_sync.positions() == Map::<Seq<char>, (EcefPoint, GeodeticPoint)>::empty()),
            s.tracker.fleet() == Fleet::empty(),
            (s.tracker.positions() == Map::<Seq<char>, (EcefPoint, GeodeticPoint)>::empty()),
            (s.tracker.heard() == Map::<Seq<char>, Seq<u32>>::empty()),
            s.tracker.beacons() == fixed@,
            (s.inflight_frames@ == Map::<u64, Frame>::empty()),
            (s.inflight_syncs@ == Map::<u64, SyncFrame>::empty()),
    {
        ServerState {
            receivers: Table::new(),
            clock_sync: ClockSyncGraph::new(),
            tracker: AircraftTracker::new(fixed),
            inflight_frames: FrameBuffer::new(),
            inflight_syncs: SyncBuffer::new(),
        }
    }

    /// A receiver connects.
    pub fn connect(&mut self, receiver: Receiver)
        requires
            old(self).wf(),
        ensures
            final(self).wf(),
            ({
                let place = (receiver.ecef, receiver.geodetic);
                let user = receiver.user@;
                &&& final(self).receivers@ == old(self).receivers@.insert(user, receiver)
                &&& final(self).clock_sync.positions() == old(self).clock_sync.positions().insert(user, place)
                &&& final(self).tracker.positions() == old(self).tracker.positions().insert(
                    user,
                    place,
                )
                &&& final(self).tracker.heard() == (if old(self).tracker.heard().contains_key(
                    user,
                ) {
                    old(self).tracker.heard()
                } else {
                    old(self).tracker.heard().insert(user, Seq::<u32>::empty())
                })
            }),
            final(self).clock_sync.pairings() == old(self).clock_sync.pairings(),
            final(self).tracker.fleet() == old(self).tracker.fleet(),
            final(self).tracker.beacons() == old(self).tracker.beacons(),
            final(self).inflight_frames == old(self).inflight_frames,
            final(self).inflight_syncs == old(self).inflight_syncs,
    {
        let user: String = receiver.user.clone();
        self.clock_sync.set_receiver_position(user.clone(), receiver.ecef, receiver.geodetic);
        self.tracker.set_receiver_position(user.clone(), receiver.ecef, receiver.geodetic);
        self.receivers.put(user, receiver);
    }

    /// A receiver is gone.
    pub fn disconnect(&mut self, user: &String)
        requires
            old(self).wf(),
        ensures
            final(self).wf(),
            final(self).receivers@ == old(self).receivers@.remove(user@),
            final(self).clock_sync.positions() == old(self).clock_sync.positions().remove(user@),
            final(self).clock_sync.pairings() == old(self).clock_sync.pairings().remove_keys(
                Set::new(|k: (Seq<char>, Seq<char>)| k.0 == user@ || k.1 == user@),
            ),
            final(self).tracker.positions() == old(self).tracker.positions().remove(user@),
            final(self).tracker.heard() == old(self).tracker.heard().remove(user@),
            final(self).tracker.fleet().dom() == old(self).tracker.fleet().dom(),
            forall|k: u64| #[trigger]
                final(self).tracker.fleet().contains_key(k) ==> {
                    let before = old(self).tracker.fleet()[k];
                    let after = final(self).tracker.fleet()[k];
                    &&& after == (TrackedAircraft {
                        tracking_receivers: after.tracking_receivers,
                        ..before
                    })
                    &&& after.tracking_receivers@ == before.tracking_receivers@.remove(user@)
                },
            final(self).tracker.beacons() == old(self).tracker.beacons(),
            final(self).inflight_frames == old(self).inflight_frames,
            final(self).inflight_syncs == old(self).inflight_syncs,
    {
        let _ = self.receivers.remove(user);
        self.clock_sync.remove_receiver(user);
        self.tracker.remove_receiver(user);
    }

    /// A receiver has sent a packet of so many lines.
    pub fn packet_heard(&mut self, user: &String, lines: u64, now: u64)
        requires
            old(self).wf(),
        ensures
            final(self).wf(),
            final(self).receivers@ == (if old(self).receivers@.contains_key(user@) {
                let r = old(self).receivers@[user@];
                old(self).receivers@.insert(
                    user@,
                    Receiver {
                        last_seen: now,
                        messages_received: capped(r.messages_received, lines),
                        ..r
                    },
                )
            } else {
                old(self).receivers@
            }),
            *final(self) == (ServerState { receivers: final(self).receivers, ..*old(self) }),
            old(self).receivers@.contains_key(user@)
                && old(self).receivers@[user@].messages_received + lines <= u64::MAX
                ==> final(self).receivers@[user@].messages_received == old(self).receivers@[user@].messages_received
                + lines,
    {
        if let Some(i) = self.receivers.find(user) {
            let row = self.receivers.row_at_mut(i);
            row.hear(lines, now);
        }
    }

    /// A receiver has contributed to a position.
    pub fn credit(&mut self, user: &String)
        requires
            old(self).wf(),
        ensures
            final(self).wf(),
            final(self).receivers@ == (if old(self).receivers@.contains_key(user@) {
                let r = old(self).receivers@[user@];
                old(self).receivers@.insert(
                    user@,
                    Receiver {
                        mlat_positions_contributed: capped(r.mlat_positions_contributed, 1),
                        ..r
                    },
                )
            } else {
                old(self).receivers@
            }),
            *final(self) == (ServerState { receivers: final(self).receivers, ..*old(self) }),
    {
        if let Some(i) = self.receivers.find(user) {
            let row = self.receivers.row_at_mut(i);
            row.contribute();
        }
    }

    /// A receiver has reported aircraft that it sees; the result is what it is asked for.
    pub fn hear_addresses(&mut self, list: &Vec<u32>, user: &String, now: u64) -> (r: Vec<String>)
        requires
            old(self).wf(),
        ensures
            final(self).wf(),
            all_seen(old(self).tracker.fleet(), final(self).tracker.fleet(), list@, user@, now),
            final(self).tracker.heard() == (if old(self).tracker.heard().contains_key(user@) {
                old(self).tracker.heard().insert(
                    user@,
                    with_icaos(old(self).tracker.heard()[user@], list@),
                )
            } else {
                old(self).tracker.heard()
            }),
            final(self).tracker.positions() == old(self).tracker.positions(),
            final(self).tracker.beacons() == old(self).tracker.beacons(),
            *final(self) == (ServerState { tracker: final(self).tracker, ..*old(self) }),
            are_addresses(r@, asked(final(self).tracker, user@, now)),
    {
        let ghost start = self.tracker;
        let n: usize = list.len();
        let mut i: usize = 0;
        proof {
            assert(list@.take(0) =~= Seq::<u32>::empty());
            if start.heard().contains_key(user@) {
                assert(start.heard() =~= start.heard().insert(user@, start.heard()[user@]));
            }
        }
        while i < n
            invariant
                i <= n,
                n == list@.len(),
                self.wf(),
                start == old(self).tracker,
                all_seen(start.fleet(), self.tracker.fleet(), list@.take(i as int), user@, now),
                self.tracker.heard() == (if start.heard().contains_key(user@) {
                    start.heard().insert(
                        user@,
                        with_icaos(start.heard()[user@], list@.take(i as int)),
                    )
                } else {
                    start.heard()
                }),
                self.tracker.positions() == start.positions(),
                self.tracker.beacons() == start.beacons(),
                *self == (ServerState { tracker: self.tracker, ..*old(self) }),
            decreases n - i,
        {
            let ghost before = self.tracker;
            let ghost icao = list@[i as int];
            self.tracker.record_seen(list[i], user, now);
            proof {
                let done = list@.take(i as int);
                let next = list@.take(i + 1);
                assert(next.drop_last() =~= done);
                assert(next.last() == icao);
                lemma_all_seen_step(
                    start.fleet(),
                    before.fleet(),
                    self.tracker.fleet(),
                    done,
                    icao,
                    user@,
                    now,
                );
                assert(next =~= done.push(icao));
                if start.heard().contains_key(user@) {
                    assert(self.tracker.heard() =~= start.heard().insert(
                        user@,
                        with_icaos(start.heard()[user@], next),
                    ));
                }
            }
            i += 1;
        }
        assert(list@.take(n as int) =~= list@);
        self.tracker.get_receiver_candidate_icaos(user, now)
    }

    /// A receiver has sent a frame. `rate` is the vertical rate that the altitude in it and
    /// earlier ones give.
    pub fn hear_frame(&mut self, report: &FrameReport, user: &String, now: u64, rate: Scalar)
        requires
            old(self).wf(),
        ensures
            final(self).wf(),
            match frame_subject(report.payload@) {
                Some((icao, altitude)) => {
                    let before = *old(self);
                    let after = *final(self);
                    let hash = payload_hash(report.payload@);
                    &&& one_changes(
                        before.tracker.fleet(),
                        after.tracker.fleet(),
                        icao,
                        now,
                        |b: TrackedAircraft, a: TrackedAircraft|
                            frame_heard(b, a, user@, now, altitude, rate),
                    )
                    &&& after.tracker.heard() == (if before.tracker.heard().contains_key(user@) {
                        before.tracker.heard().insert(
                            user@,
                            with_icao(before.tracker.heard()[user@], icao),
                        )
                    } else {
                        before.tracker.heard()
                    })
                    &&& after.tracker.positions() == before.tracker.positions()
                    &&& after.tracker.beacons() == before.tracker.beacons()
                    &&& if mlat_candidate(
                        after.tracker.fleet(),
                        after.tracker.beacons(),
                        icao,
                        now,
                    ) {
                        &&& after.inflight_frames@ == before.inflight_frames@.insert(
                            hash,
                            after.inflight_frames@[hash],
                        )
                        &&& after_report(
                            row_of(before.inflight_frames@, hash),
                            icao,
                            user@,
                            report.ts,
                            altitude,
                            now,
                            after.inflight_frames@[hash],
                        )
                    } else {
                        after.inflight_frames == before.inflight_frames
                    }
                    &&& after == (ServerState {
                        tracker: after.tracker,
                        inflight_frames: after.inflight_frames,
                        ..before
                    })
                },
                None => *final(self) == *old(self),
            },
            frame_subject(report.payload@) matches Some(x) ==> {
                let before = *old(self);
                let after = *final(self);
                let hash = payload_hash(report.payload@);
                let k = x.0 as u64;
                &&& after.tracker.fleet().contains_key(k)
                &&& after.tracker.fleet()[k].last_seen == now
                &&& after.tracker.fleet()[k].tracking_receivers@.contains(user@)
                &&& x.1 is Some ==> after.tracker.fleet()[k].altitude_ft == x.1
                    && after.tracker.fleet()[k].last_altitude_time == Some(now)
                &&& mlat_candidate(after.tracker.fleet(), after.tracker.beacons(), x.0, now)
                    ==> after.inflight_frames@.contains_key(hash) && (
                !before.inflight_frames@.contains_key(hash) ==> after.inflight_frames@[hash].icao
                    == x.0 && after.inflight_frames@[hash].heard() == seq![(user@, report.ts)])
                &&& !mlat_candidate(after.tracker.fleet(), after.tracker.beacons(), x.0, now)
                    ==> after.inflight_frames@ == before.inflight_frames@
                &&& after.clock_sync == before.clock_sync
                &&& after.receivers == before.receivers
            },
    {
        let payload: &[u8] = report.payload.as_slice();
        let icao: u32 = match extract_icao_and_df(payload) {
            Some((_, icao)) => icao,
            None => return,
        };
        if icao == 0 {
            return;
        }
        let altitude: Option<i32> = extract_altitude(payload);
        self.tracker.record_add(icao, user, now);
        let ghost mid = self.tracker;
        if let Some(a) = altitude {
            self.tracker.update_altitude_baro(icao, a, now, rate);
        }
        proof {
            let f0 = old(self).tracker.fleet();
            let f1 = mid.fleet();
            let f2 = self.tracker.fleet();
            let k = icao as u64;
            assert(f2.dom() =~= f0.dom().insert(k));
            assert(f1.contains_key(k));
            if f0.contains_key(k) {
                assert(seen_by(f0[k], f1[k], user@, now));
                assert(frame_heard(f0[k], f2[k], user@, now, altitude, rate));
            } else {
                let fresh = choose|fresh: TrackedAircraft| #[trigger]
                    fresh.is_fresh(icao, now) && seen_by(fresh, f1[k], user@, now);
                assert(frame_heard(fresh, f2[k], user@, now, altitude, rate));
            }
            assert forall|q: u64| q != icao && #[trigger] f0.contains_key(q) implies f2[q]
                == f0[q] by {
                assert(f1.contains_key(q));
            }
        }
        if self.tracker.is_mlat_candidate(icao, now) {
            let hash: u64 = hash_payload(payload);
            self.inflight_frames.report(hash, icao, user, report.ts, altitude, now);
        }
    }

    /// A receiver has sent the two position frames of an aircraft. `rate` is the vertical rate
    /// that the altitude in the first and earlier ones give. The result is where the aircraft
    /// and the receiver are.
    pub fn hear_sync(&mut self, report: &SyncReport, user: &String, now: u64, rate: Scalar) -> (r:
        Option<(CprPosition, EcefPoint)>)
        requires
            old(self).wf(),
        ensures
            final(self).wf(),
            match frame_subject(report.even@) {
                Some((icao, Some(altitude))) => {
                    &&& one_changes(
                        old(self).tracker.fleet(),
                        final(self).tracker.fleet(),
                        icao,
                        now,
                        |b: TrackedAircraft, a: TrackedAircraft|
                            altitude_reported(b, a, altitude, now, rate),
                    )
                    &&& final(self).tracker.heard() == old(self).tracker.heard()
                    &&& final(self).tracker.positions() == old(self).tracker.positions()
                    &&& final(self).tracker.beacons() == old(self).tracker.beacons()
                },
                _ => final(self).tracker == old(self).tracker,
            },
            *final(self) == (ServerState { tracker: final(self).tracker, ..*old(self) }),
            r == (match pair_position(report.even@, report.odd@, true) {
                Some(p) => if old(self).clock_sync.positions().contains_key(user@) {
                    Some((p, old(self).clock_sync.positions()[user@].0))
                } else {
                    None
                },
                None => None,
            }),
            r matches Some(x) ==> pair_position(report.even@, report.odd@, true) == Some(x.0),
            pair_position(report.even@, report.odd@, true) is Some
                && old(self).clock_sync.positions().contains_key(user@) ==> r is Some,
            frame_subject(report.even@) matches Some(x) ==> (x.1 is Some
                ==> final(self).tracker.fleet().contains_key(x.0 as u64)
                && final(self).tracker.fleet()[x.0 as u64].altitude_ft == x.1
                && final(self).tracker.fleet()[x.0 as u64].last_altitude_time == Some(now)),
    {
        let even: &[u8] = report.even.as_slice();
        if let Some((_, icao)) = extract_icao_and_df(even) {
            if icao > 0 {
                if let Some(a) = extract_altitude(even) {
                    self.tracker.update_altitude_baro(icao, a, now, rate);
                }
            }
        }
        match decode_cpr_pair(even, report.odd.as_slice(), true) {
            Some(p) => match self.clock_sync.get_receiver_position(user) {
                Some((ecef, _)) => Some((p, ecef)),
                None => None,
            },
            None => None,
        }
    }

    /// Takes a frame out to be located; none where it is gone, where its aircraft is no
    /// candidate, or where fewer than three stations can be brought to one clock.
    pub fn take_job(&mut self, hash: u64, now: u64) -> (r: Option<Job>)
        requires
            old(self).wf(),
        ensures
            final(self).wf(),
            final(self).inflight_frames@ == old(self).inflight_frames@.remove(hash),
            *final(self) == (ServerState {
                inflight_frames: final(self).inflight_frames,
                ..*old(self)
            }),
            match r {
                Some(job) => {
                    let pairings = old(self).clock_sync.pairings();
                    &&& row_of(old(self).inflight_frames@, hash) == Some(job.frame)
                    &&& mlat_candidate(
                        old(self).tracker.fleet(),
                        old(self).tracker.beacons(),
                        job.frame.icao,
                        now,
                    )
                    &&& has_root(pairings, now, job.frame, job.root as int)
                    &&& forall|j: int|
                        0 <= j < job.root ==> !#[trigger] has_root(pairings, now, job.frame, j)
                    &&& are_synced(
                        pairings,
                        old(self).clock_sync.positions(),
                        now,
                        job.frame,
                        job.root as int,
                        job.synced@,
                    )
                },
                None => row_of(old(self).inflight_frames@, hash) matches Some(f) ==> !mlat_candidate(
                    old(self).tracker.fleet(),
                    old(self).tracker.beacons(),
                    f.icao,
                    now,
                ) || forall|j: int| !#[trigger] has_root(old(self).clock_sync.pairings(), now, f, j),
            },
            r matches Some(job) ==> job.frame.receptions@.len() >= 3 && job.synced@.len() >= 3,
            !final(self).inflight_frames@.contains_key(hash),
            r matches Some(job) ==> old(self).inflight_frames@.contains_key(hash) && job.frame
                == old(self).inflight_frames@[hash] && !old(self).tracker.beacons().contains(
                job.frame.icao,
            ),
            old(self).inflight_frames@.contains_key(hash) && mlat_candidate(
                old(self).tracker.fleet(),
                old(self).tracker.beacons(),
                old(self).inflight_frames@[hash].icao,
                now,
            ) && (exists|j: int| #[trigger]
                has_root(
                    old(self).clock_sync.pairings(),
                    now,
                    old(self).inflight_frames@[hash],
                    j,
                )) ==> r is Some,
    {
        let frame: Frame = match self.inflight_frames.take(hash) {
            Some(f) => f,
            None => return None,
        };
        let ghost pairings = self.clock_sync.pairings();
        if !self.tracker.is_mlat_candidate(frame.icao, now) {
            return None;
        }
        let n: usize = frame.receptions.len();
        let mut users: Vec<String> = Vec::new();
        let mut i: usize = 0;
        while i < n
            invariant
                i <= n,
                n == frame.receptions@.len(),
                users@.len() == i,
                forall|j: int|
                    0 <= j < i ==> (#[trigger] users@[j])@ == frame.receptions@[j].user@,
            decreases n - i,
        {
            users.push(frame.receptions[i].user.clone());
            i += 1;
        }
        assert(names(users@) =~= reporters(frame));
        let (root, found) = match self.clock_sync.synchronize_observations(&users, now) {
            Some(x) => x,
            None => {
                proof {
                    assert forall|j: int| !#[trigger] has_root(pairings, now, frame, j) by {
                        if 0 <= j < frame.receptions@.len() {
                            assert(reachable(pairings, now, names(users@), j).len() < 3);
                        }
                    }
                }
                return None;
            },
        };
        proof {
            assert forall|j: int| 0 <= j < root implies !#[trigger] has_root(
                pairings,
                now,
                frame,
                j,
            ) by {
                assert(reachable(pairings, now, names(users@), j).len() < 3);
            }
            assert(found@.len() == indices(found@).len());
        }
        let mut synced: Vec<Synced> = Vec::new();
        let mut rest: Vec<(usize, Route)> = found;
        let ghost all = found@;
        while rest.len() > 0
            invariant
                self.clock_sync.wf(),
                pairings == self.clock_sync.pairings(),
                users@.len() == frame.receptions@.len(),
                forall|j: int|
                    0 <= j < users@.len() ==> (#[trigger] users@[j])@ == frame.receptions@[j].user@,
                root < users@.len(),
                rest@ == all.skip(synced@.len() as int),
                synced@.len() <= all.len(),
                forall|j: int|
                    0 <= j < all.len() ==> (#[trigger] all[j]).0 < users@.len() && leads(
                        pairings,
                        now,
                        users@[all[j].0 as int]@,
                        users@[root as int]@,
                        all[j].1,
                    ),
                forall|i: int|
                    0 <= i < synced@.len() ==> (#[trigger] synced@[i]).at == all[i].0
                        && synced@[i].route == all[i].1 && synced@[i].position == (
                    if self.clock_sync.positions().contains_key(users@[synced@[i].at as int]@) {
                        Some(self.clock_sync.positions()[users@[synced@[i].at as int]@].0)
                    } else {
                        None
                    }),
            decreases rest@.len(),
        {
            let ghost before = rest@;
            let (at, route) = rest.remove(0);
            assert(before[0] == all[synced@.len() as int]);
            let position: Option<EcefPoint> = match self.clock_sync.get_receiver_position(
                &users[at],
            ) {
                Some((ecef, _)) => Some(ecef),
                None => None,
            };
            synced.push(Synced { at, route, position });
            assert(rest@ =~= all.skip(synced@.len() as int));
        }
        assert(synced_places(synced@) =~= indices(all));
        proof {
            lemma_reachable_len(pairings, now, reporters(frame), root as int, n as int);
            assert(synced_places(synced@).len() == synced@.len());
        }
        Some(Job { frame, root, synced })
    }

    /// The local decoder knows an aircraft. `rate` is the vertical rate that its altitude and
    /// earlier ones give.
    pub fn sight(&mut self, s: &Sighting, now: u64, rate: Scalar)
        requires
            old(self).wf(),
        ensures
            final(self).wf(),
            exists|mid: Fleet| #[trigger]
                altitude_sighted(old(self).tracker.fleet(), mid, *s, now, rate) && source_sighted(
                    mid,
                    final(self).tracker.fleet(),
                    *s,
                    now,
                ),
            final(self).tracker.heard() == old(self).tracker.heard(),
            final(self).tracker.positions() == old(self).tracker.positions(),
            final(self).tracker.beacons() == old(self).tracker.beacons(),
            *final(self) == (ServerState { tracker: final(self).tracker, ..*old(self) }),
            s.altitude is Some ==> final(self).tracker.fleet().contains_key(s.icao as u64)
                && final(self).tracker.fleet()[s.icao as u64].altitude_ft == s.altitude,
            s.source is Adsb ==> final(self).tracker.fleet().contains_key(s.icao as u64)
                && final(self).tracker.fleet()[s.icao as u64].last_adsb_time == Some(now),
            s.source is Mlat && final(self).tracker.fleet().contains_key(s.icao as u64)
                ==> final(self).tracker.fleet()[s.icao as u64].last_adsb_time is None,
    {
        if let Some(a) = s.altitude {
            self.tracker.update_altitude_baro(s.icao, a, now, rate);
        }
        let ghost mid = self.tracker.fleet();
        assert(altitude_sighted(old(self).tracker.fleet(), mid, *s, now, rate));
        match s.source {
            Source::Mlat => self.tracker.mark_mlat_candidate(s.icao),
            Source::Adsb => self.tracker.mark_adsb_seen(s.icao, now),
            Source::Other => {},
        }
        assert(source_sighted(mid, self.tracker.fleet(), *s, now));
    }

    /// A row for each receiver.
    pub fn clients(&self, now: u64) -> (r: Vec<ClientRow>)
        requires
            self.wf(),
        ensures
            r@.len() == self.receivers.keys().len(),
            forall|i: int|
                0 <= i < r@.len() ==> is_client_row(
                    self.receivers@[self.receivers.keys()[i]],
                    self.clock_sync.pairings(),
                    now,
                    #[trigger] r@[i],
                ),
            forall|u: Seq<char>| #[trigger]
                self.receivers@.contains_key(u) ==> exists|i: int|
                    0 <= i < r@.len() && (#[trigger] r@[i]).user@ == u,
    {
        let mut r: Vec<ClientRow> = Vec::new();
        let n: usize = self.receivers.len();
        let mut i: usize = 0;
        while i < n
            invariant
                i <= n,
                n == self.receivers.keys().len(),
                r@.len() == i,
                self.wf(),
                forall|j: int|
                    0 <= j < i ==> is_client_row(
                        self.receivers@[self.receivers.keys()[j]],
                        self.clock_sync.pairings(),
                        now,
                        #[trigger] r@[j],
                    ),
            decreases n - i,
        {
            let x = self.receivers.row_at(i);
            r.push(
                ClientRow {
                    user: x.user.clone(),
                    source_ip: x.source_ip.clone(),
                    geodetic: x.geodetic,
                    privacy: x.privacy,
                    version: x.version.clone(),
                    connected_for: elapsed(now, x.connected_at),
                    silent_for: elapsed(now, x.last_seen),
                    messages: x.messages_received,
                    message_rate: x.message_rate(now),
                    positions: x.mlat_positions_contributed,
                    peers: self.clock_sync.get_sync_peer_count(&x.user, now),
                },
            );
            i += 1;
        }
        proof {
            self.receivers.lemma_keys();
            assert forall|u: Seq<char>| #[trigger] self.receivers@.contains_key(u) implies exists|
                i: int,
            | 0 <= i < r@.len() && (#[trigger] r@[i]).user@ == u by {
                let i = choose|i: int|
                    0 <= i < self.receivers.keys().len() && self.receivers.keys()[i] == u;
                assert(r@[i].user@ == u);
            }
        }
        r
    }

    /// A receiver has heard a pair of position frames from a distance in metres: when the first
    /// left the aircraft by its clock, and the time between the two. The result is what other
    /// receivers have reported of them, with whose clocks the receiver's is to be compared.
    /// What is beyond the radio horizon is ignored.
    pub fn compare_clocks(
        &mut self,
        report: &SyncReport,
        user: &String,
        distance: Scalar,
        even: Scalar,
        interval: Scalar,
        now: u64,
    ) -> (r: Vec<PendingSyncReception>)
        requires
            old(self).wf(),
        ensures
            final(self).wf(),
            if in_horizon(distance) {
                joined(
                    old(self).inflight_syncs@,
                    final(self).inflight_syncs@,
                    payload_hash(report.even@),
                    user@,
                    even,
                    interval,
                    now,
                    r@,
                )
            } else {
                final(self).inflight_syncs == old(self).inflight_syncs && r@.len() == 0
            },
            !distance.is_nan() && distance.units() <= 450_000 * one()
                ==> final(self).inflight_syncs@.contains_key(payload_hash(report.even@)),
            !distance.is_nan() && distance.units() > 450_000 * one() ==> r@.len() == 0
                && final(self).inflight_syncs@ == old(self).inflight_syncs@,
            *final(self) == (ServerState { inflight_syncs: final(self).inflight_syncs, ..*old(self) }),
    {
        if !within_horizon(distance) {
            return Vec::new();
        }
        let hash: u64 = hash_payload(report.even.as_slice());
        self.inflight_syncs.join(hash, user, even, interval, now)
    }

    /// The stations of a job have contributed to a position.
    pub fn credit_all(&mut self, job: &Job)
        requires
            old(self).wf(),
            forall|i: int|
                0 <= i < job.synced@.len() ==> (#[trigger] job.synced@[i]).at
                    < job.frame.receptions@.len(),
        ensures
            final(self).wf(),
            final(self).receivers@ == credited(old(self).receivers@, contributors(*job)),
            *final(self) == (ServerState { receivers: final(self).receivers, ..*old(self) }),
    {
        let n: usize = job.synced.len();
        let ghost users = contributors(*job);
        let mut i: usize = 0;
        assert(users.take(0) =~= Seq::<Seq<char>>::empty());
        while i < n
            invariant
                i <= n,
                n == job.synced@.len(),
                users == contributors(*job),
                forall|i: int|
                    0 <= i < job.synced@.len() ==> (#[trigger] job.synced@[i]).at
                        < job.frame.receptions@.len(),
                self.wf(),
                self.receivers@ == credited(old(self).receivers@, users.take(i as int)),
                *self == (ServerState { receivers: self.receivers, ..*old(self) }),
            decreases n - i,
        {
            proof {
                assert(users.take(i + 1).drop_last() =~= users.take(i as int));
                assert(users.take(i + 1).last() == users[i as int]);
            }
            self.credit(&job.frame.receptions[job.synced[i].at].user);
            i += 1;
        }
        assert(users.take(n as int) =~= users);
    }

    /// The altitude of the aircraft that a frame is from: the one in the frame, or an estimate.
    pub fn altitude_of(&self, frame: &Frame, now: u64) -> (r: Option<i32>)
        requires
            self.wf(),
        ensures
            r == (match frame.altitude {
                Some(a) => Some(a),
                None => if self.tracker.fleet().contains_key(frame.icao as u64) {
                    altitude_estimate(self.tracker.fleet()[frame.icao as u64], now)
                } else {
                    None
                },
            }),
            frame.altitude is Some ==> r == frame.altitude,
            frame.altitude is None && !self.tracker.fleet().contains_key(frame.icao as u64)
                ==> r is None,
    {
        match frame.altitude {
            Some(a) => Some(a),
            None => self.tracker.get_interpolated_altitude(frame.icao, now),
        }
    }
}

/// The stations of a job, by name.
pub open spec fn contributors(job: Job) -> Seq<Seq<char>> {
    job.synced@.map_values(|s: Synced| job.frame.receptions@[s.at as int].user@)
}

/// The receivers, once those of a list have contributed to a position; what is not connected
/// is passed over.
pub open spec fn credited(receivers: Map<Seq<char>, Receiver>, users: Seq<Seq<char>>) -> Map<
    Seq<char>,
    Receiver,
>
    decreases users.len(),
{
    if users.len() == 0 {
        receivers
    } else {
        let before = credited(receivers, users.drop_last());
        let u = users.last();
        if before.contains_key(u) {
            before.insert(
                u,
                Receiver {
                    mlat_positions_contributed: capped(before[u].mlat_positions_contributed, 1),
                    ..before[u]
                },
            )
        } else {
            before
        }
    }
}

/// A receiver in the exported table.
#[derive(Debug)]
pub struct ClientRow {
    pub user: String,
    pub source_ip: String,
    pub geodetic: GeodeticPoint,
    pub privacy: bool,
    pub version: String,
    /// Nanoseconds since the receiver connected, and since it was last heard.
    pub connected_for: u64,
    pub silent_for: u64,
    pub messages: u64,
    /// Messages in a second.
    pub message_rate: u64,
    /// Positions to which it has contributed.
    pub positions: u64,
    /// Receivers to which it has a usable pairing.
    pub peers: usize,
}

/// The row that a receiver is exported as.
pub open spec fn is_client_row(x: Receiver, pairings: Pairings, now: u64, r: ClientRow) -> bool {
    &&& r.user@ == x.user@
    &&& r.source_ip@ == x.source_ip@
    &&& r.geodetic == x.geodetic
    &&& r.privacy == x.privacy
    &&& r.version@ == x.version@
    &&& r.connected_for == since(now, x.connected_at)
    &&& r.silent_for == since(now, x.last_seen)
    &&& r.messages == x.messages_received
    &&& r.message_rate == rate_of(x.messages_received, since(now, x.connected_at))
    &&& r.positions == x.mlat_positions_contributed
    &&& r.peers == links_of(pairings, now, x.user@).len()
}

/// The local decoder knows the altitude of an aircraft, or does not.
pub open spec fn altitude_sighted(
    before: Fleet,
    after: Fleet,
    s: Sighting,
    now: u64,
    rate: Scalar,
) -> bool {
    match s.altitude {
        Some(altitude) => one_changes(
            before,
            after,
            s.icao,
            now,
            |b: TrackedAircraft, a: TrackedAircraft| altitude_reported(b, a, altitude, now, rate),
        ),
        None => after == before,
    }
}

/// The local decoder knows the position of an aircraft in some way.
pub open spec fn source_sighted(before: Fleet, after: Fleet, s: Sighting, now: u64) -> bool {
    let k = s.icao as u64;
    match s.source {
        Source::Mlat => after == (if before.contains_key(k) {
            before.insert(k, TrackedAircraft { last_adsb_time: None, ..before[k] })
        } else {
            before
        }),
        Source::Adsb => one_changes(
            before,
            after,
            s.icao,
            now,
            |b: TrackedAircraft, a: TrackedAircraft|
                a == (TrackedAircraft { last_seen: now, last_adsb_time: Some(now), ..b }),
        ),
        Source::Other => after == before,
    }
}

/// Of a receiver that is gone nothing is left: no place, no clock, and no aircraft that it
/// hears.
pub proof fn law_disconnected_receiver_leaves_no_trace(
    before: ServerState,
    after: ServerState,
    user: Seq<char>,
)
    requires
        after.receivers@ == before.receivers@.remove(user),
        after.clock_sync.positions() == before.clock_sync.positions().remove(user),
        after.clock_sync.pairings() == before.clock_sync.pairings().remove_keys(
            Set::new(|k: (Seq<char>, Seq<char>)| k.0 == user || k.1 == user),
        ),
        after.tracker.heard() == before.tracker.heard().remove(user),
        forall|k: u64| #[trigger]
            after.tracker.fleet().contains_key(k) ==> after.tracker.fleet()[k].tracking_receivers@
                == before.tracker.fleet()[k].tracking_receivers@.remove(user),
    ensures
        !after.receivers@.contains_key(user),
        !after.clock_sync.positions().contains_key(user),
        !after.tracker.heard().contains_key(user),
        forall|now: u64, other: Seq<char>|
            user != other ==> !#[trigger] connected(
                after.clock_sync.pairings(),
                now,
                user,
                other,
            ),
        forall|k: u64| #[trigger]
            after.tracker.fleet().contains_key(k)
                ==> !after.tracker.fleet()[k].tracking_receivers@.contains(user),
{
    assert forall|now: u64, other: Seq<char>| user != other implies !#[trigger] connected(
        after.clock_sync.pairings(),
        now,
        user,
        other,
    ) by {
        law_removed_receiver_is_unreachable(before.clock_sync.pairings(), now, user, other);
    }
}

/// A transmitter that is known not to move is never located, whatever is heard of it.
pub proof fn law_beacons_are_not_located(t: AircraftTracker, icao: u32, now: u64)
    requires
        t.beacons().contains(icao),
    ensures
        !mlat_candidate(t.fleet(), t.beacons(), icao, now),
{
}

/// An aircraft that has just reported its own position is not located for a minute, unless the
/// decoder says otherwise.
pub proof fn law_own_position_comes_first(
    before: Fleet,
    after: Fleet,
    beacons: Set<u32>,
    s: Sighting,
    now: u64,
    later: u64,
)
    requires
        s.source is Adsb,
        source_sighted(before, after, s, now),
        since(later, now) < 60 * SECOND,
    ensures
        !mlat_candidate(after, beacons, s.icao, later),
{
    assert(after.contains_key(s.icao as u64));
}

/// One aircraft more is seen.
proof fn lemma_all_seen_step(
    start: Fleet,
    before: Fleet,
    after: Fleet,
    done: Seq<u32>,
    icao: u32,
    user: Seq<char>,
    now: u64,
)
    requires
        all_seen(start, before, done, user, now),
        one_changes(
            before,
            after,
            icao,
            now,
            |b: TrackedAircraft, a: TrackedAircraft| seen_by(b, a, user, now),
        ),
    ensures
        all_seen(start, after, done.push(icao), user, now),
{
    let list = done.push(icao);
    assert forall|k: u64| #[trigger] is_listed(list, k) <==> is_listed(done, k) || k == icao as u64 by {
        if is_listed(list, k) {
            let i = choose|i: int| 0 <= i < list.len() && #[trigger] list[i] as u64 == k;
            if i < done.len() {
                assert(done[i] as u64 == k);
            }
        }
        if is_listed(done, k) {
            let i = choose|i: int| 0 <= i < done.len() && #[trigger] done[i] as u64 == k;
            assert(list[i] as u64 == k);
        }
        if k == icao as u64 {
            assert(list[done.len() as int] as u64 == k);
        }
    }
    let q = icao as u64;
    assert(after.contains_key(q));
    assert forall|k: u64| #[trigger] after.contains_key(k) implies (start.contains_key(k)
        || is_listed(list, k)) by {
        if k != q {
            assert(before.contains_key(k));
        }
    }
    assert forall|k: u64| start.contains_key(k) || is_listed(list, k) implies #[trigger] after.contains_key(
        k,
    ) by {
        if k != q {
            assert(before.contains_key(k));
        }
    }
    assert forall|k: u64| #[trigger] start.contains_key(k) && !is_listed(list, k) implies after[k]
        == start[k] by {
        assert(before.contains_key(k));
    }
    assert forall|k: u64| #[trigger] start.contains_key(k) && is_listed(list, k) implies seen_by(
        start[k],
        after[k],
        user,
        now,
    ) by {
        assert(before.contains_key(k));
        if k == q {
            assert(seen_by(before[k], after[k], user, now));
            if is_listed(done, k) {
                assert(seen_by(start[k], before[k], user, now));
                assert(after[k].tracking_receivers@ =~= start[k].tracking_receivers@.insert(user));
            }
        }
    }
    assert forall|k: u64| #[trigger]
        after.contains_key(k) && !start.contains_key(k) implies newly_seen(after[k], k, user, now) by {
        if k == q {
            if before.contains_key(k) {
                assert(newly_seen(before[k], k, user, now));
                let fresh = choose|fresh: TrackedAircraft| #[trigger]
                    fresh.is_fresh(k as u32, now) && seen_by(fresh, before[k], user, now);
                assert(after[k].tracking_receivers@ =~= fresh.tracking_receivers@.insert(user));
                assert(seen_by(fresh, after[k], user, now));
            }
        } else {
            assert(before.contains_key(k));
        }
    }
}

/// A frame is about the aircraft that it is from, and tells its altitude where it holds one; a
/// frame from nobody, or from address zero, is about nothing.
pub proof fn law_frame_is_about_its_sender(payload: Seq<u8>)
    ensures
        frame_address(payload) is None ==> frame_subject(payload) is None,
        frame_address(payload) matches Some(x) ==> (x.1 > 0 ==> frame_subject(payload) == Some(
            (x.1, frame_altitude(payload)),
        )),
        frame_address(payload) matches Some(x) ==> (x.1 == 0 ==> frame_subject(payload) is None),
{
}

/// A frame shows that its aircraft was seen now by the receiver; an altitude in it is the last one
/// known, and gives a rate where it and the one before do.
pub proof fn law_frame_tells_of_its_aircraft(
    before: TrackedAircraft,
    after: TrackedAircraft,
    user: Seq<char>,
    now: u64,
    altitude: Option<i32>,
    rate: Scalar,
)
    requires
        frame_heard(before, after, user, now, altitude, rate),
    ensures
        after.icao == before.icao,
        after.last_seen == now,
        after.tracking_receivers@.contains(user),
        after.filter == before.filter,
        after.last_adsb_time == before.last_adsb_time,
        after.last_confirmed_pos == before.last_confirmed_pos,
        altitude is None ==> after.altitude_ft == before.altitude_ft && after.last_altitude_time
            == before.last_altitude_time && after.vertical_rate_fpm == before.vertical_rate_fpm,
        altitude matches Some(a) ==> after.altitude_ft == Some(a) && after.last_altitude_time == Some(
            now,
        ) && after.vertical_rate_fpm == (if gives_rate(before, a, now) && rate_in_range(rate) {
            Some(rate)
        } else {
            before.vertical_rate_fpm
        }),
{
}

/// A receiver hears all that it has reported and all that it heard before, each once.
pub proof fn law_reported_addresses_are_heard(heard: Seq<u32>, list: Seq<u32>, icao: u32)
    ensures
        with_icaos(heard, list).contains(icao) <==> heard.contains(icao) || list.contains(icao),
        heard.no_duplicates() ==> with_icaos(heard, list).no_duplicates(),
    decreases list.len(),
{
    if list.len() > 0 {
        let before = list.drop_last();
        law_reported_addresses_are_heard(heard, before, icao);
        law_added_address_is_there(with_icaos(heard, before), list.last(), icao);
        if before.contains(icao) {
            let i = choose|i: int| 0 <= i < before.len() && before[i] == icao;
            assert(list[i] == icao);
        }
        if list.contains(icao) && icao != list.last() {
            let i = choose|i: int| 0 <= i < list.len() && list[i] == icao;
            assert(before[i] == icao);
        }
        assert(list[list.len() - 1] == list.last());
    }
}

/// Every station that has contributed to a position is credited with one, and no other is.
pub proof fn law_contributors_are_credited(
    receivers: Map<Seq<char>, Receiver>,
    users: Seq<Seq<char>>,
    u: Seq<char>,
)
    requires
        users.no_duplicates(),
        receivers.contains_key(u),
        receivers[u].mlat_positions_contributed < u64::MAX,
    ensures
        credited(receivers, users).dom() == receivers.dom(),
        ({
            let r = credited(receivers, users)[u];
            &&& r.mlat_positions_contributed == receivers[u].mlat_positions_contributed + (
            if users.contains(u) {
                1int
            } else {
                0int
            })
            &&& r.user == receivers[u].user
            &&& r.messages_received == receivers[u].messages_received
            &&& r.last_seen == receivers[u].last_seen
        }),
    decreases users.len(),
{
    if users.len() > 0 {
        let before = users.drop_last();
        assert(before.no_duplicates());
        law_contributors_are_credited(receivers, before, u);
        assert(credited(receivers, users).dom() =~= receivers.dom());
        if before.contains(u) {
            let i = choose|i: int| 0 <= i < before.len() && before[i] == u;
            assert(users[i] == u);
            assert(users[users.len() - 1] != u);
        }
        if users.contains(u) && users.last() != u {
            let i = choose|i: int| 0 <= i < users.len() && users[i] == u;
            assert(before[i] == u);
        }
        assert(users[users.len() - 1] == users.last());
    }
}

/// A frame can be located by the clock of one of its stations if and only if the clocks of two
/// others or more are connected with it; each station of a job is brought over live pairings.
pub proof fn law_job_has_three_stations(
    pairings: Pairings,
    positions: Map<Seq<char>, (EcefPoint, GeodeticPoint)>,
    now: u64,
    f: Frame,
    root: int,
    synced: Seq<Synced>,
    j: int,
)
    requires
        has_root(pairings, now, f, root),
        are_synced(pairings, positions, now, f, root, synced),
        0 <= j < f.receptions@.len(),
    ensures
        synced.len() >= 3,
        synced[0].at == root,
        synced_places(synced).contains(j) <==> j == root || connected(
            pairings,
            now,
            f.receptions@[j].user@,
            f.receptions@[root].user@,
        ),
        forall|i: int|
            0 <= i < synced.len() ==> (positions.contains_key(
                f.receptions@[(#[trigger] synced[i]).at as int].user@,
            ) ==> synced[i].position == Some(
                positions[f.receptions@[synced[i].at as int].user@].0,
            )),
{
    law_all_connected_are_reached(pairings, now, reporters(f), root, j);
    assert(synced_places(synced).len() == synced.len());
    assert(synced_places(synced)[0] == synced[0].at);
    assert(reporters(f)[j] == f.receptions@[j].user@);
    assert(reporters(f)[root] == f.receptions@[root].user@);
}

/// A row shows how long a receiver has been connected and silent, and what it has sent and
/// contributed.
pub proof fn law_row_shows_its_receiver(x: Receiver, pairings: Pairings, now: u64, r: ClientRow)
    requires
        is_client_row(x, pairings, now, r),
        x.connected_at <= now,
        x.last_seen <= now,
    ensures
        r.user@ == x.user@,
        r.geodetic == x.geodetic,
        r.privacy == x.privacy,
        r.connected_for == now - x.connected_at,
        r.silent_for == now - x.last_seen,
        r.messages == x.messages_received,
        r.positions == x.mlat_positions_contributed,
        r.version@ == x.version@,
        r.source_ip@ == x.source_ip@,
        r.message_rate == rate_of(x.messages_received, now - x.connected_at),
        r.peers == links_of(pairings, now, x.user@).len(),
{
}

/// What the decoder says to be multilaterated is a candidate from then on, unless it is a
/// transmitter that is known not to move; what it knows otherwise changes nothing.
pub proof fn law_decoder_hands_over(
    before: Fleet,
    after: Fleet,
    beacons: Set<u32>,
    s: Sighting,
    now: u64,
    later: u64,
)
    requires
        source_sighted(before, after, s, now),
    ensures
        s.source is Mlat && !beacons.contains(s.icao) ==> mlat_candidate(
            after,
            beacons,
            s.icao,
            later,
        ),
        s.source is Other ==> after == before,
        s.source is Adsb ==> after.contains_key(s.icao as u64) && after[s.icao as u64].last_adsb_time
            == Some(now) && after[s.icao as u64].last_seen == now,
        s.source is Mlat ==> after.dom() == before.dom(),
{
    assert(s.source is Mlat ==> after.dom() =~= before.dom());
}

/// The stations of a job are those of its reports, one for each.
pub proof fn law_contributors_are_the_stations(job: Job, i: int)
    requires
        0 <= i < job.synced@.len(),
    ensures
        contributors(job).len() == job.synced@.len(),
        contributors(job)[i] == job.frame.receptions@[job.synced@[i].at as int].user@,
{
}

/// What a receiver is asked for comes from what it hears; one that is not connected is asked for
/// nothing.
pub proof fn law_asked_for_what_is_heard(t: AircraftTracker, user: Seq<char>, now: u64)
    ensures
        !t.heard().contains_key(user) ==> asked(t, user, now).len() == 0,
        t.heard().contains_key(user) ==> asked(t, user, now) == wanted(
            t.fleet(),
            t.beacons(),
            t.heard()[user],
            now,
        ) + references(t.fleet(), t.heard()[user], now),
{
}

/// Three stations whose clocks are connected are enough to locate a frame by the clock of one.
pub proof fn law_three_connected_are_enough(
    pairings: Pairings,
    now: u64,
    f: Frame,
    root: int,
    i: int,
    j: int,
)
    requires
        0 <= root < f.receptions@.len(),
        0 <= i < f.receptions@.len(),
        0 <= j < f.receptions@.len(),
        i != root && j != root && i != j,
        connected(pairings, now, f.receptions@[i].user@, f.receptions@[root].user@),
        connected(pairings, now, f.receptions@[j].user@, f.receptions@[root].user@),
    ensures
        has_root(pairings, now, f, root),
{
    let s = reachable(pairings, now, reporters(f), root);
    law_all_connected_are_reached(pairings, now, reporters(f), root, root);
    law_all_connected_are_reached(pairings, now, reporters(f), root, i);
    law_all_connected_are_reached(pairings, now, reporters(f), root, j);
    assert(reporters(f)[i] == f.receptions@[i].user@);
    assert(reporters(f)[j] == f.receptions@[j].user@);
    assert(reporters(f)[root] == f.receptions@[root].user@);
    let a = choose|a: int| 0 <= a < s.len() && s[a] == root;
    let b = choose|b: int| 0 <= b < s.len() && s[b] == i;
    let c = choose|c: int| 0 <= c < s.len() && s[c] == j;
    assert(a != b && b != c && a != c);
}

} // verus!
