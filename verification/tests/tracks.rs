use mlat_server::coordinates::{EcefPoint, GeodeticPoint};
use mlat_server::scalar::Scalar;
use mlat_server::track::{
    absorb, elapsed, gains, judge, report_rate, weights, Distances, Fix, Gains, Motion,
    TrackedAircraft, Verdict, MILLISECOND, SECOND,
};
use mlat_server::tracker::{rate_usable, AircraftTracker, StartingPoint};
use std::collections::HashSet;

fn sc(x: f64) -> Scalar {
    Scalar::new(x.to_bits())
}

fn at(x: f64) -> EcefPoint {
    EcefPoint::new(sc(x), sc(0.0), sc(0.0))
}

fn geo(alt: f64) -> GeodeticPoint {
    GeodeticPoint::new(sc(45.0), sc(9.0), sc(alt))
}

fn fix(receivers: usize) -> Fix {
    Fix {
        ecef: at(1.0),
        geo: geo(10_000.0),
        receiver_count: receivers,
        gdop: sc(2.0),
        residual_rms: sc(1.0),
    }
}

fn near() -> Distances {
    far(0.0)
}

fn far(d: f64) -> Distances {
    Distances { confirmed: sc(d), anchor: sc(d), track: sc(d), prediction: sc(d) }
}

fn motion(speed: f64, anchor: f64, alt: f64) -> Motion {
    Motion {
        mean: at(5.0),
        mean_geo: geo(5.0),
        velocity: at(6.0),
        smoothed: at(7.0),
        smoothed_geo: geo(alt),
        smoothed_velocity: at(8.0),
        heading: sc(90.0),
        speed_kts: sc(speed),
        anchor_kts: sc(anchor),
    }
}

fn moving() -> Motion {
    motion(400.0, 400.0, 10_000.0)
}

// An aircraft whose track has had `hits` fixes, one a second, the last one at the time given.
fn followed(hits: usize) -> (TrackedAircraft, u64) {
    let mut ac = TrackedAircraft::new(1, 0);
    let mut now = 0;
    for i in 0..hits {
        if i > 0 {
            now += SECOND;
        }
        absorb(&mut ac, false, now, &fix(4), &near(), &moving());
    }
    (ac, now)
}

#[test]
fn time_does_not_run_backwards() {
    assert_eq!(elapsed(5, 3), 2);
    assert_eq!(elapsed(3, 5), 0);
}

#[test]
fn first_fix_is_not_reported() {
    let mut ac = TrackedAircraft::new(1, 0);
    assert_eq!(judge(&ac, 0, &fix(4), &near()), Verdict::Acquire);
    assert!(absorb(&mut ac, false, 0, &fix(4), &near(), &moving()).is_none());
    let f = ac.filter.unwrap();
    assert_eq!(f.hits, 1);
    assert!(f.speed_kts.is_none());
    assert!(ac.last_confirmed_pos.is_none());
    assert_eq!(judge(&ac, SECOND, &fix(4), &near()), Verdict::Confirm);
    let r = absorb(&mut ac, false, SECOND, &fix(4), &near(), &moving());
    assert_eq!(r, Some((geo(10_000.0), None, None, None)));
    assert_eq!(ac.last_confirmed_pos, Some((at(1.0), SECOND)));
    assert_eq!(ac.last_confirmed_vel, Some(at(6.0)));
}

#[test]
fn three_stations_start_no_track() {
    let ac = TrackedAircraft::new(1, 0);
    assert_eq!(judge(&ac, 0, &fix(3), &near()), Verdict::TooFewStations);
    let (ac, now) = followed(2);
    assert_eq!(judge(&ac, now + SECOND, &fix(3), &near()), Verdict::TooFewStations);
    let (ac, now) = followed(3);
    assert_eq!(judge(&ac, now + SECOND, &fix(3), &near()), Verdict::Smooth);
    assert_eq!(judge(&ac, now + 30 * SECOND, &fix(3), &near()), Verdict::Smooth);
    assert_eq!(judge(&ac, now + 31 * SECOND, &fix(3), &near()), Verdict::TooFewStations);
}

#[test]
fn poor_fixes_are_refused() {
    let (ac, now) = followed(5);
    let t = now + SECOND;
    let mut f = fix(4);
    f.gdop = sc(4.6);
    assert_eq!(judge(&ac, t, &f, &near()), Verdict::Smooth);
    f.gdop = sc(4.61);
    assert_eq!(judge(&ac, t, &f, &near()), Verdict::PoorQuality);
    let mut f = fix(3);
    f.gdop = sc(3.8);
    assert_eq!(judge(&ac, t, &f, &near()), Verdict::Smooth);
    f.gdop = sc(3.81);
    assert_eq!(judge(&ac, t, &f, &near()), Verdict::PoorQuality);
    let mut f = fix(5);
    f.residual_rms = sc(4.5);
    assert_eq!(judge(&ac, t, &f, &near()), Verdict::Smooth);
    f.residual_rms = sc(4.51);
    assert_eq!(judge(&ac, t, &f, &near()), Verdict::PoorQuality);
}

#[test]
fn nothing_jumps_farther_than_it_can_fly() {
    let (mut ac, now) = followed(3);
    let t = now + 10 * SECOND;
    let d = |x: f64| Distances { confirmed: sc(x), ..near() };
    assert_eq!(judge(&ac, t, &fix(4), &d(4600.0)), Verdict::Smooth);
    assert_eq!(judge(&ac, t, &fix(4), &d(4600.1)), Verdict::Teleport);
    let before = ac.filter.unwrap().consecutive_rejects;
    assert!(absorb(&mut ac, false, t, &fix(4), &d(1e6), &moving()).is_none());
    assert_eq!(ac.filter.unwrap().consecutive_rejects, before + 1);
    assert_eq!(ac.last_confirmed_pos.unwrap().1, now);
    assert_eq!(judge(&ac, now + 600 * SECOND, &fix(4), &d(1e6)), Verdict::Teleport);
    assert_eq!(judge(&ac, now + 601 * SECOND, &fix(4), &d(1e6)), Verdict::Acquire);
}

#[test]
fn fixes_too_close_in_time_are_duplicates() {
    let (ac, now) = followed(4);
    assert_eq!(judge(&ac, now + 80 * MILLISECOND - 1, &fix(4), &near()), Verdict::Duplicate);
    assert_eq!(judge(&ac, now + 80 * MILLISECOND, &fix(4), &near()), Verdict::Smooth);
}

#[test]
fn second_fix_must_agree_with_the_first() {
    let (ac, now) = followed(1);
    let d = |x: f64| Distances { track: sc(x), ..near() };
    assert_eq!(judge(&ac, now + SECOND, &fix(4), &d(840.0)), Verdict::Confirm);
    assert_eq!(judge(&ac, now + SECOND, &fix(4), &d(840.1)), Verdict::Restart);
    assert_eq!(judge(&ac, now + 15 * SECOND, &fix(4), &near()), Verdict::Confirm);
    assert_eq!(judge(&ac, now + 15 * SECOND + 1, &fix(4), &near()), Verdict::Restart);
    assert_eq!(judge(&ac, now + 46 * SECOND, &fix(4), &near()), Verdict::Acquire);
}

#[test]
fn deviations_are_refused_and_then_followed() {
    let (mut ac, now) = followed(4);
    let d = |x: f64| Distances { prediction: sc(x), ..near() };
    let t = now + SECOND;
    assert_eq!(judge(&ac, t, &fix(3), &d(360.0)), Verdict::Smooth);
    assert_eq!(judge(&ac, t, &fix(3), &d(360.1)), Verdict::Deviate);
    assert_eq!(judge(&ac, now + 3 * SECOND, &fix(3), &d(500.1)), Verdict::Deviate);
    assert_eq!(judge(&ac, t, &fix(4), &d(620.0)), Verdict::Smooth);
    assert_eq!(judge(&ac, t, &fix(4), &d(620.1)), Verdict::Deviate);
    assert_eq!(judge(&ac, now + 100 * MILLISECOND, &fix(4), &d(499.0)), Verdict::Smooth);
    absorb(&mut ac, false, t, &fix(4), &d(1500.0), &moving());
    absorb(&mut ac, false, t, &fix(4), &d(1500.0), &moving());
    assert_eq!(ac.filter.unwrap().consecutive_rejects, 2);
    assert_eq!(judge(&ac, t, &fix(4), &d(2000.0)), Verdict::Deviate);
    let mut wide = fix(4);
    wide.gdop = sc(3.6);
    assert_eq!(judge(&ac, t, &wide, &d(1500.0)), Verdict::Deviate);
    assert_eq!(judge(&ac, t, &fix(4), &d(1500.0)), Verdict::Recover);
    let r = absorb(&mut ac, false, t, &fix(4), &d(1500.0), &moving());
    assert_eq!(r, Some((geo(10_000.0), None, None, None)));
    let f = ac.filter.unwrap();
    assert_eq!((f.hits, f.consecutive_rejects), (3, 0));
    assert_eq!(ac.last_confirmed_pos, Some((at(1.0), t)));
}

#[test]
fn moving_target_has_heading_and_speed() {
    let (mut ac, now) = followed(4);
    let r = absorb(&mut ac, false, now + SECOND, &fix(4), &near(), &moving());
    assert_eq!(r, Some((geo(10_000.0), Some(sc(90.0)), Some(sc(400.0)), None)));
    let (mut ac, now) = followed(3);
    let r = absorb(&mut ac, false, now + SECOND, &fix(4), &near(), &moving());
    assert_eq!(r, Some((geo(10_000.0), None, None, None)));
    let (mut ac, now) = followed(4);
    let slow = motion(55.0, 400.0, 10_000.0);
    let r = absorb(&mut ac, false, now + SECOND, &fix(4), &near(), &slow);
    assert_eq!(r, Some((geo(10_000.0), None, None, None)));
}

#[test]
fn stationary_target_has_no_speed() {
    let (ac, now) = followed(8);
    let t = now + 2 * SECOND;
    let anchor = ac.filter.unwrap().anchor_time;
    let due = anchor + 6 * SECOND;
    let t = if due > t { due } else { t };
    let mut ac = ac;
    let still = motion(100.0, 39.9, 1499.0);
    let r = absorb(&mut ac, false, t, &fix(4), &near(), &still);
    assert_eq!(r, Some((geo(1499.0), None, None, None)));
    let f = ac.filter.unwrap();
    assert_eq!(f.vel_ecef, at(0.0));
    assert_eq!(f.anchor_time, t);
    let (mut ac, _) = followed(8);
    ac.vertical_rate_fpm = Some(sc(640.0));
    let high = motion(100.0, 39.9, 15_000.0);
    let r = absorb(&mut ac, false, t, &fix(4), &near(), &high);
    assert_eq!(r, Some((geo(15_000.0), None, None, Some(0))));
    assert_eq!(ac.filter.unwrap().vel_ecef, at(0.0));
    let (mut ac, _) = followed(8);
    let fast = motion(100.0, 40.0, 100.0);
    let r = absorb(&mut ac, false, t, &fix(4), &near(), &fast);
    assert_eq!(r, Some((geo(100.0), Some(sc(90.0)), Some(sc(100.0)), None)));
}

#[test]
fn reports_are_throttled() {
    let (mut ac, now) = followed(5);
    assert!(absorb(&mut ac, false, now + 899 * MILLISECOND, &fix(4), &near(), &moving()).is_none());
    assert_eq!(ac.filter.unwrap().hits, 6);
    assert!(absorb(&mut ac, false, now + 999 * MILLISECOND, &fix(4), &near(), &moving()).is_some());
}

#[test]
fn known_beacon_stays_in_its_place() {
    let mut ac = TrackedAircraft::new(1, 0);
    assert!(absorb(&mut ac, true, 0, &fix(4), &near(), &moving()).is_none());
    let f = ac.filter.unwrap();
    assert!(f.is_locked_stationary);
    assert_eq!(f.speed_kts, Some(sc(0.0)));
    assert_eq!(judge(&ac, SECOND, &fix(4), &far(3500.0)), Verdict::Hold);
    assert_eq!(judge(&ac, SECOND, &fix(4), &far(3500.1)), Verdict::OffAnchor);
    assert!(absorb(&mut ac, true, SECOND, &fix(4), &near(), &moving()).is_none());
    assert_eq!(ac.filter.unwrap().pos_ecef, at(5.0));
    assert_eq!(ac.filter.unwrap().hits, 2);
    let r = absorb(&mut ac, true, 5 * SECOND, &fix(4), &near(), &moving());
    assert_eq!(r, Some((geo(5.0), None, Some(sc(0.0)), Some(0))));
    assert!(absorb(&mut ac, true, 6 * SECOND, &fix(4), &near(), &moving()).is_none());
    assert_eq!(ac.filter.unwrap().hits, 3);
}

#[test]
fn vertical_rates_are_multiples_of_64() {
    for (rate, shown) in [
        (0.0, 0),
        (99.9, 0),
        (-99.9, 0),
        (100.0, 128),
        (-100.0, -128),
        (96.0, 0),
        (160.0, 192),
        (1000.0, 1024),
        (8000.0, 8000),
        (-8000.0, -8000),
    ] {
        assert_eq!(report_rate(sc(rate)), shown, "{}", rate);
    }
}

#[test]
fn gains_depend_on_age_and_stations() {
    assert_eq!(gains(10, 3), Gains { alpha: 10, beta: 2, adaptive: false });
    assert_eq!(gains(3, 4), Gains { alpha: 50, beta: 20, adaptive: true });
    assert_eq!(gains(4, 4), Gains { alpha: 25, beta: 8, adaptive: true });
}

fn tracker(beacons: &[u32]) -> AircraftTracker {
    AircraftTracker::new(beacons.iter().copied().collect::<HashSet<u32>>())
}

fn user(s: &str) -> String {
    s.to_string()
}

#[test]
fn aircraft_that_report_themselves_are_no_candidates() {
    let mut t = tracker(&[7]);
    assert!(t.is_mlat_candidate(1, 0));
    t.mark_adsb_seen(1, 10);
    assert!(!t.is_mlat_candidate(1, 10 + 60 * SECOND - 1));
    assert!(t.is_mlat_candidate(1, 10 + 60 * SECOND));
    t.mark_adsb_seen(1, 100 * SECOND);
    t.mark_mlat_candidate(1);
    assert!(t.is_mlat_candidate(1, 100 * SECOND));
    t.mark_mlat_candidate(2);
    assert!(t.get_aircraft(2).is_none());
    assert!(t.is_fixed_beacon(7));
    assert!(!t.is_mlat_candidate(7, 0));
}

#[test]
fn receivers_are_asked_for_shared_aircraft() {
    let mut t = tracker(&[]);
    t.set_receiver_position(user("a"), at(0.0), geo(0.0));
    t.set_receiver_position(user("b"), at(0.0), geo(0.0));
    t.record_seen(0xabc, &user("a"), 0);
    t.record_seen(0xdef, &user("a"), 0);
    assert!(t.get_receiver_candidate_icaos(&user("a"), 0).is_empty());
    t.record_add(0xabc, &user("b"), 0);
    t.record_seen(0x123, &user("b"), 0);
    t.mark_adsb_seen(0x123, 0);
    assert_eq!(t.get_receiver_candidate_icaos(&user("a"), 0), vec!["000abc"]);
    assert_eq!(t.get_receiver_candidate_icaos(&user("b"), 0), vec!["000abc", "000123"]);
    assert!(t.get_receiver_candidate_icaos(&user("c"), 0).is_empty());
    t.update_mlat_position(0xdef, 0, &fix(4), &near(), &moving());
    assert_eq!(t.get_receiver_candidate_icaos(&user("a"), 0), vec!["000abc", "000def"]);
    t.remove_receiver(&user("b"));
    assert_eq!(t.get_receiver_candidate_icaos(&user("a"), 0), vec!["000def"]);
    assert!(t.get_receiver_candidate_icaos(&user("b"), 0).is_empty());
}

#[test]
fn sixteen_references_are_enough() {
    let mut t = tracker(&[]);
    t.set_receiver_position(user("a"), at(0.0), geo(0.0));
    for i in 0..20 {
        t.record_seen(i, &user("a"), 0);
        t.mark_adsb_seen(i, 0);
    }
    let r = t.get_receiver_candidate_icaos(&user("a"), 0);
    assert_eq!(r.len(), 16);
    assert_eq!(r[15], "00000f");
}

#[test]
fn altitudes_are_projected() {
    let mut t = tracker(&[]);
    assert_eq!(t.get_altitude(1), None);
    assert_eq!(t.get_interpolated_altitude(1, 0), None);
    t.update_altitude_baro(1, 10_000, 0, sc(500.0));
    assert_eq!(t.get_altitude(1), Some(10_000));
    assert_eq!(t.get_interpolated_altitude(1, 60 * SECOND), Some(10_000));
    assert_eq!(t.get_interpolated_altitude(1, 60 * SECOND + 1), None);
    assert_eq!(t.get_aircraft(1).unwrap().vertical_rate_fpm, None);
    assert!(rate_usable(t.get_aircraft(1).unwrap(), 10_100, SECOND));
    assert!(!rate_usable(t.get_aircraft(1).unwrap(), 10_100, 400 * MILLISECOND));
    assert!(!rate_usable(t.get_aircraft(1).unwrap(), 10_100, 26 * SECOND));
    assert!(!rate_usable(t.get_aircraft(1).unwrap(), 10_134, SECOND));
    assert!(rate_usable(t.get_aircraft(1).unwrap(), 10_133, SECOND));
    t.update_altitude_baro(1, 10_100, SECOND, sc(6000.0));
    assert_eq!(t.get_aircraft(1).unwrap().vertical_rate_fpm, Some(sc(6000.0)));
    assert_eq!(
        t.get_interpolated_altitude(1, 3 * SECOND - 1),
        Some(10_100)
    );
    assert_eq!(
        t.get_interpolated_altitude(1, 3 * SECOND),
        Some(10_300)
    );
    t.update_altitude_baro(1, 20_000, 2 * SECOND, sc(1.0));
    assert_eq!(t.get_aircraft(1).unwrap().vertical_rate_fpm, Some(sc(6000.0)));
}

#[test]
fn search_starts_where_the_aircraft_was() {
    let mut t = tracker(&[]);
    assert_eq!(t.get_last_ecef(1, 0), None);
    t.update_mlat_position(1, 0, &fix(4), &near(), &moving());
    assert_eq!(t.get_last_ecef(1, 60 * SECOND), Some(StartingPoint::At(at(1.0))));
    assert_eq!(t.get_last_ecef(1, 61 * SECOND), None);
    assert!(t.has_recent_position(1, 10, 10));
    assert!(!t.has_recent_position(1, 10, 11));
    assert!(!t.has_recent_position(2, 10, 0));
    assert_eq!(t.judge_fix(1, SECOND, &fix(4), &near()), Verdict::Confirm);
    assert_eq!(t.judge_fix(2, SECOND, &fix(4), &near()), Verdict::Acquire);
    let r = t.update_mlat_position(1, SECOND, &fix(4), &near(), &moving());
    assert_eq!(r, Some((geo(10_000.0), None, None, None)));
    assert_eq!(
        t.get_last_ecef(1, 181 * SECOND),
        Some(StartingPoint::Moved { from: at(1.0), velocity: at(6.0), after: 180 * SECOND })
    );
    assert_eq!(t.get_last_ecef(1, 182 * SECOND), None);
}

#[test]
fn aircraft_not_seen_are_forgotten() {
    let mut t = tracker(&[]);
    t.set_receiver_position(user("a"), at(0.0), geo(0.0));
    t.set_receiver_position(user("b"), at(0.0), geo(0.0));
    t.record_seen(1, &user("a"), 0);
    t.record_seen(2, &user("a"), 10 * SECOND);
    t.record_seen(2, &user("b"), 10 * SECOND);
    t.cleanup_stale(180 * SECOND);
    assert!(t.get_aircraft(1).is_none());
    assert!(t.get_aircraft(2).is_some());
    assert_eq!(t.get_receiver_candidate_icaos(&user("a"), 180 * SECOND), vec!["000002"]);
    t.cleanup_stale(190 * SECOND);
    assert!(t.get_aircraft(2).is_none());
}

#[test]
fn projection_rounds_to_the_nearest_foot() {
    for base in [0i32, 1000, -1000, 45_000, i32::MAX, i32::MIN] {
        for rate in [0.0, 15.0, -15.0, 45.0, -45.0, 64.0, 1.5, 7999.5, -7999.5, 8000.0, 1e-300] {
            for after in [2_000_000_000u64, 2_000_000_001, 10 * SECOND, 33_333_333_333, 60 * SECOND] {
                let mut t = tracker(&[]);
                t.update_altitude_baro(1, base, 0, sc(0.0));
                t.update_altitude_baro(1, base, SECOND, sc(rate));
                let shown = t.get_interpolated_altitude(1, SECOND + after);
                let delta = rate * (after as f64 / 1e9 / 60.0);
                let expected = (base as f64 + delta).round() as i32;
                let frac = (base as f64 + delta).abs().fract();
                if (frac - 0.5).abs() > 1e-6 || after == 2 * SECOND {
                    assert_eq!(shown, Some(expected), "{} {} {}", base, rate, after);
                }
            }
        }
    }
}

#[test]
fn share_of_a_fix_is_bounded() {
    assert_eq!(weights(3, sc(0.9), sc(0.9)), (sc(0.10), sc(0.02)));
    assert_eq!(weights(4, sc(0.9), sc(0.9)), (sc(0.35), sc(0.12)));
    assert_eq!(weights(4, sc(0.01), sc(0.01)), (sc(0.15), sc(0.04)));
    assert_eq!(weights(5, sc(0.2), sc(0.1)), (sc(0.2), sc(0.1)));
}

#[test]
fn known_beacon_is_never_reported_with_motion() {
    let mut t = tracker(&[7]);
    let mut reported = 0;
    let mut now = 0;
    for i in 0..200u64 {
        now += (i % 7) * 700 * MILLISECOND + if i % 50 == 49 { 60 * SECOND } else { 0 };
        t.update_altitude_baro(7, 1000 + 100 * (i as i32 % 5), now, sc(640.0));
        t.mark_adsb_seen(7, now);
        if i % 60 == 59 {
            t.cleanup_stale(now);
        }
        let d = if i % 11 == 10 { far(4000.0) } else { near() };
        let r = t.update_mlat_position(7, now, &fix(3 + i as usize % 3), &d, &moving());
        if let Some((_, track, speed, rate)) = r {
            reported += 1;
            assert_eq!((track, speed, rate), (None, Some(sc(0.0)), Some(0)));
        }
    }
    assert!(reported > 10);
}

#[test]
fn heading_and_speed_are_shown_together() {
    let mut t = tracker(&[7]);
    let (mut with, mut without) = (0, 0);
    let mut now = 0;
    for i in 0..300u64 {
        now += SECOND + if i % 40 == 39 { 50 * SECOND } else { 0 };
        let speed = [30.0, 55.0, 55.1, 400.0][i as usize % 4];
        let anchor = if i % 9 < 4 { 39.0 } else { 300.0 };
        let d = if i % 13 == 12 { far(1500.0) } else { near() };
        let r = t.update_mlat_position(9, now, &fix(4), &d, &motion(speed, anchor, 9000.0));
        assert!(t.get_aircraft(9).unwrap().filter.map_or(true, |f| !f.is_locked_stationary));
        match r {
            Some((_, Some(track), Some(shown), _)) => {
                with += 1;
                assert_eq!((track, shown), (sc(90.0), sc(speed)));
                assert!(speed > 55.0);
            }
            Some((_, track, shown, _)) => {
                without += 1;
                assert_eq!((track, shown), (None, None));
            }
            None => {}
        }
    }
    assert!(with > 10 && without > 10);
    t.update_mlat_position(7, now, &fix(4), &near(), &moving());
    assert!(t.get_aircraft(7).unwrap().filter.unwrap().is_locked_stationary);
}
