use mlat_server::frames::{hash_payload, hex_to_bytes, FrameBuffer, SyncBuffer};
use mlat_server::scalar::Scalar;

const MS: u64 = 1_000_000;

fn sc(x: f64) -> Scalar {
    Scalar::new(x.to_bits())
}

fn name(s: &str) -> String {
    s.to_string()
}

#[test]
fn payload_hash_is_fnv() {
    assert_eq!(hash_payload(b""), 0xcbf29ce484222325);
    assert_eq!(hash_payload(b"a"), 0xaf63dc4c8601ec8c);
    assert_eq!(hash_payload(b"foobar"), 0x85944171f73967e8);
}

#[test]
fn hexadecimal_texts() {
    assert_eq!(hex_to_bytes(""), Some(Vec::<u8>::new()));
    assert_eq!(hex_to_bytes("8D4840d6"), Some(vec![0x8d, 0x48, 0x40, 0xd6]));
    assert_eq!(hex_to_bytes("+f"), Some(vec![15]));
    assert_eq!(hex_to_bytes("8D4"), None);
    assert_eq!(hex_to_bytes("8g"), None);
    assert_eq!(hex_to_bytes("f+"), None);
    assert_eq!(hex_to_bytes("++"), None);
    assert_eq!(hex_to_bytes("-1"), None);
    assert_eq!(hex_to_bytes(" 1"), None);
    assert_eq!(hex_to_bytes("é"), None);
    assert_eq!(hex_to_bytes("aéb"), None);
}

fn report(b: &mut FrameBuffer, user: &str, now: u64) {
    b.report(1, 0xabc, &name(user), sc(1.0), None, now);
}

#[test]
fn four_stations_wait_less_than_three() {
    let mut b = FrameBuffer::new();
    report(&mut b, "a", 0);
    report(&mut b, "b", 0);
    report(&mut b, "c", 100 * MS);
    assert_eq!(b.dispatch(320 * MS), Vec::<u64>::new());
    assert_eq!(b.dispatch(599 * MS), Vec::<u64>::new());
    report(&mut b, "d", 599 * MS);
    assert_eq!(b.dispatch(599 * MS), vec![1]);
    assert_eq!(b.dispatch(600 * MS), Vec::<u64>::new());
}

#[test]
fn three_stations_wait_for_a_fourth() {
    let mut b = FrameBuffer::new();
    for u in ["a", "b", "c"] {
        report(&mut b, u, 0);
    }
    assert_eq!(b.dispatch(600 * MS - 1), Vec::<u64>::new());
    assert_eq!(b.dispatch(600 * MS), vec![1]);
    let mut c = FrameBuffer::new();
    for u in ["a", "b", "c", "d"] {
        report(&mut c, u, 0);
    }
    assert_eq!(c.dispatch(320 * MS - 1), Vec::<u64>::new());
    assert_eq!(c.dispatch(320 * MS), vec![1]);
}

#[test]
fn two_stations_are_never_ready() {
    let mut b = FrameBuffer::new();
    report(&mut b, "a", 0);
    report(&mut b, "b", 0);
    assert_eq!(b.dispatch(u64::MAX), Vec::<u64>::new());
}

#[test]
fn station_counts_once() {
    let mut b = FrameBuffer::new();
    b.report(7, 0, &name("a"), sc(1.0), None, 5);
    b.report(7, 0x123, &name("a"), sc(2.0), Some(1000), 6);
    b.report(7, 0x456, &name("b"), sc(3.0), Some(2000), 7);
    let f = b.take(7).unwrap();
    assert_eq!(f.icao, 0x123);
    assert_eq!(f.altitude, Some(1000));
    assert_eq!(f.created, 5);
    assert!(!f.dispatched);
    assert_eq!(f.receptions.len(), 2);
    assert_eq!((f.receptions[0].user.as_str(), f.receptions[0].raw_ts), ("a", sc(1.0)));
    assert_eq!((f.receptions[1].user.as_str(), f.receptions[1].raw_ts), ("b", sc(3.0)));
    assert!(b.take(7).is_none());
}

#[test]
fn sixteen_stations_are_enough() {
    let mut b = FrameBuffer::new();
    for i in 0..20 {
        report(&mut b, &format!("s{}", i), 0);
    }
    assert_eq!(b.take(1).unwrap().receptions.len(), 16);
}

fn kept(stations: usize, dispatch: bool, age: u64) -> bool {
    let mut b = FrameBuffer::new();
    for i in 0..stations {
        report(&mut b, &format!("s{}", i), 0);
    }
    if dispatch {
        assert_eq!(b.dispatch(600 * MS).len(), 1);
    }
    b.purge(age);
    b.take(1).is_some()
}

#[test]
fn frames_are_kept_by_their_stations() {
    assert!(kept(1, false, 500 * MS - 1));
    assert!(!kept(1, false, 500 * MS));
    assert!(kept(2, false, 750 * MS - 1));
    assert!(!kept(2, false, 750 * MS));
    assert!(kept(3, false, 900 * MS - 1));
    assert!(!kept(3, false, 900 * MS));
    assert!(kept(9, false, 900 * MS - 1));
    assert!(kept(3, true, 250 * MS - 1));
    assert!(!kept(3, true, 250 * MS));
    assert!(!kept(4, true, 600 * MS));
}

#[test]
fn purge_keeps_the_others() {
    let mut b = FrameBuffer::new();
    for h in 0..10u64 {
        b.report(h, 1, &name("a"), sc(0.0), None, h * 100 * MS);
    }
    b.purge(900 * MS);
    for h in 0..10u64 {
        assert_eq!(b.take(h).is_some(), h > 4, "{}", h);
    }
}

#[test]
fn comparisons_meet_the_other_stations() {
    let mut b = SyncBuffer::new();
    assert_eq!(b.join(9, &name("a"), sc(1.0), sc(0.1), 0).len(), 0);
    let r = b.join(9, &name("b"), sc(2.0), sc(0.2), 1);
    assert_eq!(r.len(), 1);
    assert_eq!((r[0].user.as_str(), r[0].raw_t_even, r[0].interval), ("a", sc(1.0), sc(0.1)));
    let r = b.join(9, &name("a"), sc(5.0), sc(0.5), 2);
    assert_eq!(r.len(), 1);
    assert_eq!(r[0].user, "b");
    let r = b.join(9, &name("c"), sc(3.0), sc(0.3), 3);
    assert_eq!(r.len(), 2);
    assert_eq!(r[0].raw_t_even, sc(1.0));
    assert_eq!(r[1].user, "b");
    assert_eq!(b.join(8, &name("c"), sc(3.0), sc(0.3), 400 * MS).len(), 0);
    b.purge(500 * MS);
    assert_eq!(b.join(9, &name("d"), sc(4.0), sc(0.4), 500 * MS).len(), 0);
    assert_eq!(b.join(8, &name("d"), sc(4.0), sc(0.4), 500 * MS).len(), 1);
}
