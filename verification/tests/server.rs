use mlat_server::clock_sync::{Estimate, Route, SyncPoint};
use mlat_server::coordinates::{EcefPoint, GeodeticPoint};
use mlat_server::frames::hash_payload;
use mlat_server::messages::modes_crc_residual;
use mlat_server::protocol::{FrameReport, Sighting, Source, SyncReport};
use mlat_server::receiver::{HandshakeRequest, Receiver};
use mlat_server::scalar::Scalar;
use mlat_server::server::ServerState;
use std::collections::HashSet;

const SECOND: u64 = 1_000_000_000;
const MS: u64 = 1_000_000;

fn sc(x: f64) -> Scalar {
    Scalar::new(x.to_bits())
}

fn name(s: &str) -> String {
    s.to_string()
}

fn request(user: &str, version: Option<&str>) -> HandshakeRequest {
    HandshakeRequest {
        user: name(user),
        lat: sc(45.0),
        lon: sc(9.0),
        alt: sc(100.0),
        privacy: true,
        client_version: version.map(name),
        uuid: None,
        return_results: Some(true),
    }
}

fn place(x: f64) -> EcefPoint {
    EcefPoint::new(sc(x), sc(0.0), sc(0.0))
}

fn server(users: &[&str]) -> ServerState {
    let mut s = ServerState::new(HashSet::from([0x7cf7cb]));
    for (i, u) in users.iter().enumerate() {
        s.connect(Receiver::new(request(u, None), name("1.2.3.4"), place(i as f64), 0));
    }
    s
}

// A frame with an altitude reply of an aircraft.
fn reply(icao: u32, altitude_code: u16) -> Vec<u8> {
    let mut f = vec![0x20, 0x00, (altitude_code >> 8) as u8, altitude_code as u8, 0, 0, 0];
    let p = modes_crc_residual(&f) ^ icao;
    f[4] = (p >> 16) as u8;
    f[5] = (p >> 8) as u8;
    f[6] = p as u8;
    f
}

fn frame(icao: u32, ts: f64) -> FrameReport {
    FrameReport { ts: sc(ts), payload: reply(icao, 0x0c38) }
}

fn link(s: &mut ServerState, a: &str, b: &str) {
    let p = SyncPoint {
        base_ts: sc(1.0),
        peer_ts: sc(1.0),
        base_interval: sc(1.0),
        peer_interval: sc(1.0),
    };
    let z = sc(0.0);
    let e = Estimate {
        error: z,
        var: z,
        summed_error: z,
        new_drift: z,
        blended_raw_drift: z,
        blended_drift: z,
        i_drift: z,
        factor: sc(1.0),
        i_factor: sc(1.0),
        spread: z,
    };
    s.clock_sync.update_pairing(&name(a), &name(b), 0, &p, &e);
    s.clock_sync.update_pairing(&name(a), &name(b), 0, &p, &e);
}

#[test]
fn receiver_of_a_request() {
    let r = Receiver::new(request("me", Some("1.0")), name("ip"), place(3.0), 7);
    assert_eq!((r.user.as_str(), r.source_ip.as_str(), r.version.as_str()), ("me", "ip", "1.0"));
    assert_eq!(r.geodetic, GeodeticPoint::new(sc(45.0), sc(9.0), sc(100.0)));
    assert_eq!(r.ecef, place(3.0));
    assert!(r.privacy);
    assert_eq!((r.connected_at, r.last_seen), (7, 7));
    assert_eq!((r.messages_received, r.mlat_positions_contributed), (0, 0));
    assert_eq!(Receiver::new(request("me", None), name("ip"), place(3.0), 7).version, "0.4.2");
}

#[test]
fn message_rates() {
    let mut r = Receiver::new(request("me", None), name("ip"), place(0.0), 0);
    r.hear(15, 5);
    assert_eq!((r.last_seen, r.messages_received), (5, 15));
    assert_eq!(r.message_rate(0), 15);
    assert_eq!(r.message_rate(SECOND), 15);
    assert_eq!(r.message_rate(2 * SECOND), 8);
    assert_eq!(r.message_rate(30 * SECOND), 1);
    assert_eq!(r.message_rate(31 * SECOND), 0);
    r.hear(u64::MAX, 6);
    assert_eq!(r.messages_received, u64::MAX);
    assert_eq!(r.message_rate(SECOND), u64::MAX);
    r.contribute();
    assert_eq!(r.mlat_positions_contributed, 1);
}

#[test]
fn connected_receivers_are_counted() {
    let mut s = server(&["a", "b"]);
    link(&mut s, "a", "b");
    s.packet_heard(&name("a"), 12, 2 * SECOND);
    s.packet_heard(&name("x"), 12, 2 * SECOND);
    s.credit(&name("b"));
    s.credit(&name("x"));
    let mut rows = s.clients(4 * SECOND);
    rows.sort_by(|x, y| x.user.cmp(&y.user));
    assert_eq!(rows.len(), 2);
    assert_eq!(rows[0].user, "a");
    assert_eq!(rows[0].source_ip, "1.2.3.4");
    assert_eq!((rows[0].messages, rows[0].message_rate, rows[0].positions), (12, 3, 0));
    assert_eq!((rows[0].connected_for, rows[0].silent_for), (4 * SECOND, 2 * SECOND));
    assert_eq!((rows[1].messages, rows[1].positions), (0, 1));
    assert_eq!((rows[0].peers, rows[1].peers), (1, 1));
}

#[test]
fn receiver_that_leaves_is_forgotten() {
    let mut s = server(&["a", "b"]);
    link(&mut s, "a", "b");
    s.hear_addresses(&vec![1], &name("a"), 0);
    s.hear_addresses(&vec![1], &name("b"), 0);
    s.disconnect(&name("a"));
    assert_eq!(s.clients(0).len(), 1);
    assert!(s.clock_sync.get_receiver_position(&name("a")).is_none());
    assert!(s.clock_sync.pairing(&name("a"), &name("b")).is_none());
    assert!(s.hear_addresses(&vec![], &name("b"), 0).is_empty());
    assert!(s.tracker.get_aircraft(1).is_some());
}

#[test]
fn shared_aircraft_are_asked_for() {
    let mut s = server(&["a", "b"]);
    assert!(s.hear_addresses(&vec![0xabc, 0xdef, 0xabc], &name("a"), 0).is_empty());
    assert_eq!(s.hear_addresses(&vec![0xdef], &name("b"), 0), vec!["000def"]);
    assert_eq!(s.hear_addresses(&vec![], &name("a"), 0), vec!["000def"]);
}

#[test]
fn frames_are_collected() {
    let mut s = server(&["a", "b", "c"]);
    let f = frame(0x4b1234, 1.0);
    for u in ["a", "b", "c"] {
        s.hear_frame(&f, &name(u), 0, sc(0.0));
    }
    assert_eq!(s.tracker.get_altitude(0x4b1234), Some(18800));
    let hash = hash_payload(&f.payload);
    assert_eq!(s.inflight_frames.dispatch(600 * MS), vec![hash]);
    let frame = s.inflight_frames.take(hash).unwrap();
    assert_eq!(frame.icao, 0x4b1234);
    assert_eq!(frame.altitude, Some(18800));
    assert_eq!(frame.receptions.len(), 3);
}

#[test]
fn frames_without_a_subject_are_ignored() {
    let mut s = server(&["a"]);
    s.hear_frame(&FrameReport { ts: sc(1.0), payload: vec![] }, &name("a"), 0, sc(0.0));
    s.hear_frame(&FrameReport { ts: sc(1.0), payload: vec![0xff; 14] }, &name("a"), 0, sc(0.0));
    s.hear_frame(
        &FrameReport { ts: sc(1.0), payload: vec![0x8d, 0, 0, 0] },
        &name("a"),
        0,
        sc(0.0),
    );
    assert_eq!(s.inflight_frames.dispatch(u64::MAX), Vec::<u64>::new());
    assert!(s.inflight_frames.take(hash_payload(&[])).is_none());
    assert!(s.inflight_frames.take(hash_payload(&[0x8d, 0, 0, 0])).is_none());
}

#[test]
fn aircraft_that_report_themselves_are_not_collected() {
    let mut s = server(&["a"]);
    let f = frame(0x4b1234, 1.0);
    let adsb = Sighting { icao: 0x4b1234, altitude: None, source: Source::Adsb };
    s.sight(&adsb, 0, sc(0.0));
    s.hear_frame(&f, &name("a"), SECOND, sc(0.0));
    assert!(s.inflight_frames.take(hash_payload(&f.payload)).is_none());
    s.sight(&Sighting { source: Source::Other, ..adsb }, SECOND, sc(0.0));
    assert!(!s.tracker.is_mlat_candidate(0x4b1234, SECOND));
    s.sight(&Sighting { source: Source::Mlat, altitude: Some(7000), ..adsb }, SECOND, sc(0.0));
    assert_eq!(s.tracker.get_altitude(0x4b1234), Some(7000));
    s.hear_frame(&f, &name("a"), SECOND, sc(0.0));
    assert!(s.inflight_frames.take(hash_payload(&f.payload)).is_some());
}

#[test]
fn known_beacons_are_not_collected() {
    let mut s = server(&["a"]);
    let f = frame(0x7cf7cb, 1.0);
    s.hear_frame(&f, &name("a"), 0, sc(0.0));
    assert!(s.tracker.get_aircraft(0x7cf7cb).is_some());
    assert!(s.inflight_frames.take(hash_payload(&f.payload)).is_none());
}

#[test]
fn job_names_the_clock_and_the_stations() {
    let mut s = server(&["a", "b", "c", "d"]);
    link(&mut s, "b", "c");
    link(&mut s, "c", "d");
    s.disconnect(&name("d"));
    link(&mut s, "c", "d");
    let f = frame(0x4b1234, 1.0);
    for u in ["a", "b", "c", "d"] {
        s.hear_frame(&f, &name(u), 0, sc(0.0));
    }
    let hash = hash_payload(&f.payload);
    let job = s.take_job(hash, 0).unwrap();
    assert_eq!(job.root, 1);
    assert_eq!(job.frame.receptions.len(), 4);
    assert_eq!(job.synced.len(), 3);
    assert_eq!((job.synced[0].at, job.synced[1].at, job.synced[2].at), (1, 2, 3));
    assert!(matches!(job.synced[0].route, Route::Same));
    assert!(matches!(job.synced[1].route, Route::Direct { forward: false }));
    assert!(matches!(job.synced[2].route, Route::Via { .. }));
    assert_eq!(job.synced[1].position, Some(place(2.0)));
    assert_eq!(job.synced[2].position, None);
    assert!(s.take_job(hash, 0).is_none());
}

#[test]
fn job_needs_three_stations_on_one_clock() {
    let mut s = server(&["a", "b", "c"]);
    link(&mut s, "a", "b");
    let f = frame(0x4b1234, 1.0);
    for u in ["a", "b", "c"] {
        s.hear_frame(&f, &name(u), 0, sc(0.0));
    }
    let hash = hash_payload(&f.payload);
    assert!(s.take_job(hash, 0).is_none());
    assert!(s.inflight_frames.take(hash).is_none());
}

#[test]
fn job_needs_a_candidate() {
    let mut s = server(&["a", "b", "c"]);
    link(&mut s, "a", "b");
    link(&mut s, "b", "c");
    let f = frame(0x4b1234, 1.0);
    for u in ["a", "b", "c"] {
        s.hear_frame(&f, &name(u), 0, sc(0.0));
    }
    s.tracker.mark_adsb_seen(0x4b1234, 0);
    assert!(s.take_job(hash_payload(&f.payload), 0).is_none());
}

fn hex(s: &str) -> Vec<u8> {
    (0..s.len() / 2).map(|i| u8::from_str_radix(&s[2 * i..2 * i + 2], 16).unwrap()).collect()
}

#[test]
fn position_frames_place_the_aircraft() {
    let mut s = server(&["a", "b"]);
    let r = SyncReport {
        even_ts: sc(1.0),
        odd_ts: sc(2.0),
        even: hex("8D40621D58C382D690C8AC2863A7"),
        odd: hex("8D40621D58C386435CC412692AD6"),
    };
    let (p, ecef) = s.hear_sync(&r, &name("b"), 0, sc(0.0)).unwrap();
    assert_eq!(p.alt_ft, 38000);
    assert_eq!(ecef, place(1.0));
    assert!(s.hear_sync(&r, &name("x"), 0, sc(0.0)).is_none());
    assert_eq!(s.tracker.get_altitude(0x40621d), None);
    let short = SyncReport { even: hex("20000C38000000"), ..r };
    let icao = modes_crc_residual(&hex("20000C38000000"));
    assert!(s.hear_sync(&short, &name("b"), 0, sc(0.0)).is_none());
    assert_eq!(s.tracker.get_altitude(icao), Some(18800));
}

#[test]
fn positions_are_on_earth() {
    let p = |lat: f64, lon: f64| GeodeticPoint::new(sc(lat), sc(lon), sc(0.0)).on_earth();
    assert!(p(90.0, 180.0));
    assert!(p(-90.0, -180.0));
    assert!(!p(90.1, 0.0));
    assert!(!p(-90.1, 0.0));
    assert!(!p(0.0, 180.1));
    assert!(!p(0.0, -180.1));
    assert!(!p(f64::NAN, 0.0));
    assert!(!p(0.0, f64::NAN));
}

#[test]
fn clocks_are_compared_within_the_horizon() {
    let mut s = server(&["a", "b"]);
    let r = SyncReport {
        even_ts: sc(1.0),
        odd_ts: sc(2.0),
        even: vec![1, 2, 3],
        odd: vec![4],
    };
    assert!(s.compare_clocks(&r, &name("a"), sc(450_000.1), sc(1.0), sc(0.5), 0).is_empty());
    assert!(s.compare_clocks(&r, &name("b"), sc(450_000.0), sc(2.0), sc(0.5), 0).is_empty());
    let met = s.compare_clocks(&r, &name("a"), sc(1.0), sc(3.0), sc(0.5), 0);
    assert_eq!(met.len(), 1);
    assert_eq!((met[0].user.as_str(), met[0].raw_t_even), ("b", sc(2.0)));
    assert_eq!(s.inflight_syncs.join(hash_payload(&[1, 2, 3]), &name("c"), sc(0.0), sc(0.0), 0).len(), 2);
}

#[test]
fn stations_of_a_job_are_credited() {
    let mut s = server(&["a", "b", "c", "d"]);
    link(&mut s, "b", "c");
    link(&mut s, "c", "d");
    let f = frame(0x4b1234, 1.0);
    for u in ["a", "b", "c", "d"] {
        s.hear_frame(&f, &name(u), 0, sc(0.0));
    }
    let job = s.take_job(hash_payload(&f.payload), 0).unwrap();
    s.disconnect(&name("d"));
    s.credit_all(&job);
    let mut rows: Vec<(String, u64)> =
        s.clients(0).into_iter().map(|r| (r.user, r.positions)).collect();
    rows.sort();
    assert_eq!(rows, vec![(name("a"), 0), (name("b"), 1), (name("c"), 1)]);
}

#[test]
fn altitude_in_the_frame_comes_first() {
    let mut s = server(&["a", "b", "c"]);
    let f = frame(0x4b1234, 1.0);
    s.hear_frame(&f, &name("a"), 0, sc(0.0));
    let mut taken = s.inflight_frames.take(hash_payload(&f.payload)).unwrap();
    s.tracker.update_altitude_baro(0x4b1234, 5000, SECOND, sc(0.0));
    assert_eq!(s.altitude_of(&taken, SECOND), Some(18800));
    taken.altitude = None;
    assert_eq!(s.altitude_of(&taken, SECOND), Some(5000));
    taken.icao = 1;
    assert_eq!(s.altitude_of(&taken, SECOND), None);
}
