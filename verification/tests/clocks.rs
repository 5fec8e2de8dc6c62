use mlat_server::clock_sync::{
    bounded_error, Clock, ClockPairing, ClockSyncGraph, Estimate, Route, SyncPoint, DRIFT_LIMIT,
    ERROR_LIMIT, MICRO, ONE, OUTLIER_LIMIT,
};
use mlat_server::coordinates::{EcefPoint, GeodeticPoint};
use mlat_server::scalar::Scalar;

const SECOND: u64 = 1_000_000_000;

fn sc(x: f64) -> Scalar {
    Scalar::new(x.to_bits())
}

fn point(n: f64) -> SyncPoint {
    SyncPoint {
        base_ts: sc(n),
        peer_ts: sc(n + 0.5),
        base_interval: sc(10.0),
        peer_interval: sc(11.0),
    }
}

fn estimate(error: f64) -> Estimate {
    Estimate {
        error: sc(error),
        var: sc(error * error),
        summed_error: sc(7.0),
        new_drift: sc(1e-5),
        blended_raw_drift: sc(2e-5),
        blended_drift: sc(3e-5),
        i_drift: sc(-4e-5),
        factor: sc(1.25),
        i_factor: sc(0.75),
        spread: sc(9e-7),
    }
}

fn name(s: &str) -> String {
    s.to_string()
}

#[test]
fn limits_are_what_they_are_called() {
    assert_eq!(f64::from_bits(OUTLIER_LIMIT), 50.0e-6 * 4.0);
    assert_eq!(f64::from_bits(DRIFT_LIMIT), 2.0 * (200e-6 + 200e-6));
    assert_eq!(f64::from_bits(MICRO), 1e-6);
    assert_eq!(f64::from_bits(ONE), 1.0);
    let c = Clock::default();
    assert_eq!((c.freq, c.max_freq_error, c.jitter), (12_000_000, 200, 500));
    assert_eq!((c.delay_factor.num, c.delay_factor.den), (12_000_000, 299_702_547));
    assert_eq!(f64::from_bits(ERROR_LIMIT), 100e-6);
}

#[test]
fn new_pairing_knows_nothing() {
    let p = ClockPairing::new(name("a"), name("b"), 5);
    assert!(!p.valid);
    assert_eq!(p.base_user, "a");
    assert_eq!(p.peer_user, "b");
    assert_eq!(p.updated, 5);
    assert_eq!(p.samples.len(), 0);
    assert_eq!(p.error, sc(1e-6));
    assert_eq!(p.factor, sc(1.0));
    assert!(p.last_sample().is_none());
    assert!(!p.live(5));
}

#[test]
fn second_sample_makes_a_pairing_valid() {
    let mut p = ClockPairing::new(name("a"), name("b"), 0);
    assert!(p.update(10, &point(100.0), &estimate(0.5)));
    assert!(!p.valid);
    assert_eq!(p.samples.len(), 1);
    assert_eq!(p.samples[0].var, sc(0.0));
    assert_eq!(p.drift_n, 1);
    assert_eq!((p.raw_drift, p.drift, p.i_drift), (sc(1e-5), sc(1e-5), sc(-4e-5)));
    assert!(p.update(20, &point(200.0), &estimate(1e-6)));
    assert!(p.valid);
    assert!(p.live(20));
    assert!(p.live(20 + 180 * SECOND - 1));
    assert!(!p.live(20 + 180 * SECOND));
    assert_eq!(p.drift_n, 2);
    assert_eq!((p.raw_drift, p.drift), (sc(2e-5), sc(3e-5)));
    assert_eq!(p.error, sc(9e-7));
    assert_eq!(p.last_sample().unwrap().base, sc(200.0));
    assert_eq!(p.samples[1].var, sc(1e-12));
    assert_eq!(p.update_total, 2);
    assert_eq!(p.cumulative_error, sc(100e-6));
    assert_eq!((p.factor, p.i_factor), (sc(1.25), sc(0.75)));
}

#[test]
fn three_outliers_end_a_history() {
    let mut p = ClockPairing::new(name("a"), name("b"), 0);
    for i in 0..4 {
        assert!(p.update(i, &point(i as f64), &estimate(0.0)));
    }
    assert!(!p.update(5, &point(5.0), &estimate(2.1e-4)));
    assert!(!p.update(6, &point(6.0), &estimate(-2.1e-4)));
    assert!(p.valid);
    assert_eq!(p.samples.len(), 4);
    assert_eq!(p.outliers, 2);
    assert_eq!(p.updated, 3);
    assert!(!p.update(7, &point(7.0), &estimate(1.0)));
    assert!(!p.valid);
    assert_eq!(p.samples.len(), 0);
    assert_eq!(p.outliers, 0);
    assert_eq!(p.outlier_total, 3);
    assert_eq!(p.update_total, 7);
    assert!(p.update(8, &point(8.0), &estimate(1.0)));
    assert_eq!(p.samples.len(), 1);
}

#[test]
fn good_sample_ends_a_run_of_outliers() {
    let mut p = ClockPairing::new(name("a"), name("b"), 0);
    p.update(0, &point(0.0), &estimate(0.0));
    p.update(1, &point(1.0), &estimate(1.0));
    p.update(2, &point(2.0), &estimate(1.0));
    assert_eq!(p.outliers, 2);
    assert!(p.update(3, &point(3.0), &estimate(2.0e-4)));
    assert_eq!(p.outliers, 0);
    assert_eq!(p.samples.len(), 2);
}

#[test]
fn mostly_outliers_end_a_history() {
    let mut p = ClockPairing::new(name("a"), name("b"), 0);
    p.outlier_total = 80;
    p.update_total = 99;
    p.update(0, &point(0.0), &estimate(0.0));
    p.update(1, &point(1.0), &estimate(0.0));
    assert!(p.valid);
    p.update(2, &point(2.0), &estimate(1.0));
    assert_eq!((p.outlier_total, p.update_total), (81, 102));
    assert!(p.valid);
    p.outlier_total = 90;
    p.update(3, &point(3.0), &estimate(1.0));
    assert!(!p.valid);
    assert_eq!(p.samples.len(), 0);
}

#[test]
fn history_is_pruned_by_four() {
    let mut p = ClockPairing::new(name("a"), name("b"), 0);
    for i in 0..31 {
        p.update(i, &point(i as f64), &estimate(0.0));
    }
    assert_eq!(p.samples.len(), 31);
    p.update(31, &point(31.0), &estimate(0.0));
    assert_eq!(p.samples.len(), 28);
    assert_eq!(p.samples[0].base, sc(4.0));
    assert_eq!(p.samples[27].base, sc(31.0));
}

#[test]
fn unbelievable_drift_is_not_taken() {
    let mut p = ClockPairing::new(name("a"), name("b"), 0);
    let mut e = estimate(0.0);
    e.new_drift = sc(9e-4);
    p.update(0, &point(0.0), &e);
    assert_eq!((p.drift_n, p.drift), (0, sc(0.0)));
    e.new_drift = sc(-9e-4);
    p.update(0, &point(0.0), &e);
    assert_eq!(p.drift_n, 0);
    let mut s = point(1.0);
    s.base_interval = sc(0.0);
    p.update(0, &s, &estimate(0.0));
    assert_eq!(p.drift_n, 0);
    s.base_interval = sc(1.0);
    s.peer_interval = sc(-1.0);
    p.update(0, &s, &estimate(0.0));
    assert_eq!(p.drift_n, 0);
    assert_eq!(p.samples.len(), 4);
}

#[test]
fn validity_needs_two_recent_samples() {
    let mut p = ClockPairing::new(name("a"), name("b"), 0);
    assert!(!p.check_valid(0, sc(1.0)));
    assert_eq!(p.error, sc(1e-6));
    p.update(10, &point(0.0), &estimate(0.0));
    p.update(10, &point(1.0), &estimate(0.0));
    assert!(p.check_valid(10 + 179 * SECOND, sc(2.0)));
    assert_eq!(p.error, sc(2.0));
    assert!(!p.check_valid(10 + 180 * SECOND, sc(3.0)));
    assert!(!p.valid);
    p.reset_offsets();
    assert_eq!(p.samples.len(), 0);
}

fn link(g: &mut ClockSyncGraph, a: &str, b: &str, now: u64) {
    g.update_pairing(&name(a), &name(b), now, &point(1.0), &estimate(0.0));
    g.update_pairing(&name(a), &name(b), now, &point(2.0), &estimate(0.0));
}

#[test]
fn pairing_is_the_same_from_either_side() {
    let mut g = ClockSyncGraph::new();
    g.update_pairing(&name("b"), &name("a"), 1, &point(1.0), &estimate(0.0));
    g.update_pairing(&name("a"), &name("b"), 2, &point(2.0), &estimate(0.0));
    let p = g.pairing(&name("b"), &name("a")).unwrap();
    assert_eq!((p.base_user.as_str(), p.peer_user.as_str()), ("a", "b"));
    assert_eq!(p.samples.len(), 2);
    assert_eq!((p.samples[0].base, p.samples[0].peer), (sc(1.5), sc(1.0)));
    assert_eq!((p.samples[1].base, p.samples[1].peer), (sc(2.0), sc(2.5)));
    g.update_pairing(&name("a"), &name("a"), 3, &point(3.0), &estimate(0.0));
    assert!(g.pairing(&name("a"), &name("a")).is_none());
}

#[test]
fn routes_are_direct_or_over_one_station() {
    let mut g = ClockSyncGraph::new();
    link(&mut g, "a", "b", 10);
    link(&mut g, "c", "b", 10);
    link(&mut g, "c", "d", 10);
    assert!(matches!(g.convert_clock(&name("a"), &name("a"), 10), Some(Route::Same)));
    assert!(matches!(
        g.convert_clock(&name("a"), &name("b"), 10),
        Some(Route::Direct { forward: true })
    ));
    assert!(matches!(
        g.convert_clock(&name("b"), &name("a"), 10),
        Some(Route::Direct { forward: false })
    ));
    match g.convert_clock(&name("a"), &name("c"), 10) {
        Some(Route::Via { mid, first_forward, second_forward }) => {
            assert_eq!(mid, "b");
            assert!(first_forward);
            assert!(second_forward);
        }
        other => panic!("{:?}", other),
    }
    match g.convert_clock(&name("c"), &name("a"), 10) {
        Some(Route::Via { mid, first_forward, second_forward }) => {
            assert_eq!(mid, "b");
            assert!(!first_forward);
            assert!(!second_forward);
        }
        other => panic!("{:?}", other),
    }
    assert!(g.convert_clock(&name("a"), &name("d"), 10).is_none());
    assert!(g.convert_clock(&name("d"), &name("a"), 10).is_none());
    assert!(g.convert_clock(&name("a"), &name("b"), 10 + 180 * SECOND).is_none());
}

#[test]
fn one_sample_is_no_route() {
    let mut g = ClockSyncGraph::default();
    g.update_pairing(&name("a"), &name("b"), 0, &point(1.0), &estimate(0.0));
    assert!(g.convert_clock(&name("a"), &name("b"), 0).is_none());
}

#[test]
fn observations_are_brought_to_the_first_clock_that_serves() {
    let mut g = ClockSyncGraph::new();
    link(&mut g, "b", "c", 0);
    link(&mut g, "c", "d", 0);
    let users = vec![name("z"), name("b"), name("c"), name("d")];
    let (root, found) = g.synchronize_observations(&users, 0).unwrap();
    assert_eq!(root, 1);
    let at: Vec<usize> = found.iter().map(|f| f.0).collect();
    assert_eq!(at, vec![1, 2, 3]);
    assert!(matches!(found[0].1, Route::Same));
    assert!(matches!(found[1].1, Route::Direct { forward: false }));
    assert!(matches!(found[2].1, Route::Via { .. }));
    assert!(g.synchronize_observations(&vec![name("b"), name("c")], 0).is_none());
    assert!(g.synchronize_observations(&vec![name("z"), name("y"), name("b")], 0).is_none());
}

#[test]
fn removed_station_leaves_no_pairing() {
    let mut g = ClockSyncGraph::new();
    link(&mut g, "a", "b", 0);
    link(&mut g, "b", "c", 0);
    link(&mut g, "a", "c", 0);
    let e = EcefPoint::new(sc(1.0), sc(2.0), sc(3.0));
    let p = GeodeticPoint::new(sc(4.0), sc(5.0), sc(6.0));
    g.set_receiver_position(name("b"), e, p);
    assert_eq!(g.get_receiver_position(&name("b")), Some((e, p)));
    assert_eq!(g.get_sync_peer_count(&name("a"), 0), 2);
    assert_eq!(g.get_sync_peer_count(&name("b"), 0), 2);
    g.remove_receiver(&name("b"));
    assert_eq!(g.get_receiver_position(&name("b")), None);
    assert_eq!(g.get_sync_peer_count(&name("a"), 0), 1);
    assert_eq!(g.get_sync_peer_count(&name("b"), 0), 0);
    assert!(g.convert_clock(&name("a"), &name("b"), 0).is_none());
    assert!(g.pairing(&name("a"), &name("c")).is_some());
}

#[test]
fn stale_pairings_are_forgotten() {
    let mut g = ClockSyncGraph::new();
    link(&mut g, "a", "b", 0);
    link(&mut g, "b", "c", 100 * SECOND);
    g.cleanup_stale(300 * SECOND - 1);
    assert!(g.pairing(&name("a"), &name("b")).is_some());
    g.cleanup_stale(300 * SECOND);
    assert!(g.pairing(&name("a"), &name("b")).is_none());
    assert!(g.pairing(&name("b"), &name("c")).is_some());
}

#[test]
fn exported_rows() {
    let mut g = ClockSyncGraph::new();
    link(&mut g, "b", "a", 0);
    link(&mut g, "b", "c", 0);
    g.update_pairing(&name("c"), &name("d"), 0, &point(1.0), &estimate(0.0));
    let mut rows = g.sync_rows(3 * SECOND + 5);
    rows.sort_by(|x, y| x.base.cmp(&y.base));
    assert_eq!(rows.len(), 2);
    assert_eq!((rows[0].base.as_str(), rows[0].peer.as_str()), ("a", "b"));
    assert_eq!(rows[0].n, 2);
    assert_eq!(rows[0].age_s, 3);
    assert_eq!((rows[0].base_peers, rows[0].peer_peers), (1, 2));
    assert_eq!((rows[0].outlier_total, rows[0].update_total), (0, 2));
    assert_eq!(rows[0].outlier_scale, 50);
    assert_eq!(rows[0].drift, sc(3e-5));
    assert_eq!(rows[0].i_drift, sc(-4e-5));
    for _ in 0..2 {
        g.update_pairing(&name("a"), &name("b"), 0, &point(1.0), &estimate(0.0));
    }
    let row = g.sync_rows(0).into_iter().find(|r| r.base == "a").unwrap();
    assert_eq!(row.outlier_scale, 100);
}

#[test]
fn pairing_is_exported_under_both_receivers() {
    let mut g = ClockSyncGraph::new();
    link(&mut g, "b", "a", 0);
    link(&mut g, "b", "c", 0);
    g.update_pairing(&name("c"), &name("d"), 0, &point(1.0), &estimate(0.0));
    let mut entries = g.export_sync_map(2 * SECOND);
    entries.sort_by(|x, y| (&x.from, &x.to).cmp(&(&y.from, &y.to)));
    let shown: Vec<(&str, &str, Scalar, usize)> =
        entries.iter().map(|e| (e.from.as_str(), e.to.as_str(), e.drift, e.peers)).collect();
    assert_eq!(
        shown,
        vec![
            ("a", "b", sc(3e-5), 2),
            ("b", "a", sc(-4e-5), 1),
            ("b", "c", sc(3e-5), 1),
            ("c", "b", sc(-4e-5), 2),
        ]
    );
    for e in &entries {
        assert_eq!((e.n, e.error, e.jumped, e.age_s), (2, sc(9e-7), 0, 2));
        assert_eq!((e.outlier_total, e.update_total, e.outlier_scale), (0, 2, 50));
        assert_eq!(e.peers, g.get_sync_peer_count(&e.to, 2 * SECOND));
    }
}

#[test]
fn summed_error_is_bounded() {
    for (sum, held) in [
        (0.0, 0.0),
        (99e-6, 99e-6),
        (100e-6, 100e-6),
        (100.1e-6, 100e-6),
        (-99e-6, -99e-6),
        (-3.0, -100e-6),
        (f64::INFINITY, 100e-6),
        (f64::NEG_INFINITY, -100e-6),
    ] {
        assert_eq!(bounded_error(sc(sum)), sc(held), "{}", sum);
        let mut e = estimate(0.0);
        e.summed_error = sc(sum);
        let mut p = ClockPairing::new(name("a"), name("b"), 0);
        p.update(0, &point(0.0), &e);
        assert_eq!(p.cumulative_error, sc(held), "{}", sum);
    }
}
