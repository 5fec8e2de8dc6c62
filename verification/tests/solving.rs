use mlat_server::cluster::{
    chronological, sector_of, select_optimal_cluster, stable_order, Sight,
};
use mlat_server::coordinates::{EcefPoint, GeodeticPoint};
use mlat_server::scalar::Scalar;
use mlat_server::tdoa_solver::{
    enough_receivers, leave_one_out, starting_altitude, steer, within_horizon, Damping, Descent,
    ExactSolver, Measurement, SolverSolution, Trial,
};
use std::cell::RefCell;

fn sc(x: f64) -> Scalar {
    Scalar::new(x.to_bits())
}

fn measured(n: usize) -> Vec<Measurement> {
    (0..n)
        .map(|i| Measurement {
            receiver_ecef: EcefPoint::new(sc(i as f64), sc(0.0), sc(0.0)),
            timestamp_sec: sc(i as f64 * 1e-6),
            variance: sc(1e-14),
        })
        .collect()
}

fn solution(rms: f64) -> SolverSolution {
    SolverSolution {
        position_ecef: EcefPoint::new(sc(rms), sc(0.0), sc(0.0)),
        position_geodetic: GeodeticPoint::new(sc(0.0), sc(0.0), sc(0.0)),
        offset_meters: sc(0.0),
        gdop: sc(1.0),
        residual_rms: sc(rms),
    }
}

// Solves with the residuals given: of all receivers, and with the one at each place left out.
fn run(n: usize, has_alt: bool, full: Option<f64>, subsets: &[Option<f64>]) -> (Option<f64>, usize) {
    let calls = RefCell::new(0);
    let r = ExactSolver::new().solve(&measured(n), has_alt, |ms: &Vec<Measurement>| {
        *calls.borrow_mut() += 1;
        if ms.len() == n {
            full.map(solution)
        } else {
            let missing = (0..n)
                .find(|i| !ms.iter().any(|m| m.receiver_ecef.x == sc(*i as f64)))
                .unwrap();
            subsets[missing].map(solution)
        }
    });
    let count = *calls.borrow();
    (r.map(|s| f64::from_bits(s.residual_rms.bits)), count)
}

#[test]
fn too_few_receivers_have_no_solution() {
    assert_eq!(run(2, true, Some(1.0), &[]), (None, 0));
    assert_eq!(run(3, false, Some(1.0), &[]), (None, 0));
    assert_eq!(run(3, true, Some(1.0), &[]), (Some(1.0), 1));
    assert_eq!(run(4, false, Some(1.0), &[]), (Some(1.0), 1));
    assert!(!enough_receivers(2, true));
    assert!(enough_receivers(3, true));
    assert!(!enough_receivers(3, false));
    assert!(enough_receivers(4, false));
}

#[test]
fn good_solution_is_taken_at_once() {
    let s = vec![Some(0.1); 6];
    assert_eq!(run(6, true, Some(8.0), &s), (Some(8.0), 1));
    assert_eq!(run(6, true, Some(8.1), &s), (Some(0.1), 7));
}

#[test]
fn four_receivers_with_altitude_are_not_pruned() {
    let s = vec![Some(0.1); 5];
    assert_eq!(run(4, true, Some(17.0), &s), (Some(17.0), 1));
    assert_eq!(run(5, true, Some(17.0), &s), (Some(0.1), 6));
    assert_eq!(run(5, false, Some(17.0), &s), (Some(17.0), 1));
    assert_eq!(run(4, true, None, &s), (None, 1));
}

#[test]
fn six_receivers_without_altitude_are_pruned() {
    let s = vec![Some(0.1); 6];
    assert_eq!(run(6, false, Some(17.0), &s), (Some(0.1), 7));
}

#[test]
fn subset_must_be_much_better() {
    let s = [Some(9.0), Some(7.0), None, Some(6.6), Some(8.0)];
    assert_eq!(run(5, true, Some(10.0), &s).0, Some(10.0));
    let s = [Some(9.0), Some(7.0), None, Some(6.4), Some(6.4)];
    assert_eq!(run(5, true, Some(10.0), &s).0, Some(6.4));
}

#[test]
fn any_subset_serves_where_there_is_nothing_else() {
    let s = [None, Some(17.0), Some(16.0), None, Some(16.5)];
    assert_eq!(run(5, true, None, &s).0, Some(16.0));
    let s = [None, None, None, None, None];
    assert_eq!(run(5, true, None, &s).0, None);
    let s = [Some(999.0), Some(1000.0), None, None, None];
    assert_eq!(run(5, true, None, &s).0, None);
}

#[test]
fn one_measurement_is_left_out() {
    let m = measured(4);
    let r = leave_one_out(&m, 2);
    assert_eq!(r, vec![m[0], m[1], m[3]]);
    assert_eq!(leave_one_out(&m, 0), vec![m[1], m[2], m[3]]);
}

fn descent() -> Descent {
    Descent {
        position_ecef: EcefPoint::new(sc(1.0), sc(2.0), sc(3.0)),
        position_geodetic: GeodeticPoint::new(sc(45.0), sc(9.0), sc(10_000.0)),
        offset_meters: sc(100_000.0),
        distances: vec![sc(100.0), sc(450_000.0), sc(0.0)],
        dilution: Some((sc(4.0), sc(2.0))),
        residual_rms: sc(18.0),
    }
}

fn accepted(d: &Descent, max: Option<f64>) -> bool {
    ExactSolver::default().solve_raw(3, true, d, max.map(sc)).is_some()
}

#[test]
fn plausible_end_of_a_descent_is_a_solution() {
    let s = ExactSolver::new().solve_raw(3, true, &descent(), None).unwrap();
    assert_eq!(s.gdop, sc(2.0));
    assert_eq!(s.residual_rms, sc(18.0));
    assert_eq!(s.offset_meters, sc(100_000.0));
    assert_eq!(s.position_ecef, descent().position_ecef);
    assert_eq!(s.position_geodetic, descent().position_geodetic);
    assert!(ExactSolver::new().solve_raw(3, false, &descent(), None).is_none());
    assert!(ExactSolver::new().solve_raw(2, true, &descent(), None).is_none());
}

#[test]
fn implausible_ends_are_refused() {
    for (off, ok) in [(-5000.0, true), (-5000.1, false), (600_000.0, true), (600_000.1, false)] {
        let mut d = descent();
        d.offset_meters = sc(off);
        assert_eq!(accepted(&d, None), ok, "{}", off);
    }
    let mut d = descent();
    d.distances.push(sc(450_000.1));
    assert!(!accepted(&d, None));
    for (lat, ok) in [(85.0, true), (85.1, false), (-85.0, true), (-85.1, false)] {
        let mut d = descent();
        d.position_geodetic.lat = sc(lat);
        assert_eq!(accepted(&d, None), ok, "{}", lat);
    }
    for (alt, ok) in [(-500.0, true), (-500.1, false), (25_000.0, true), (25_000.1, false)] {
        let mut d = descent();
        d.position_geodetic.alt = sc(alt);
        assert_eq!(accepted(&d, None), ok, "{}", alt);
    }
    let mut d = descent();
    d.residual_rms = sc(18.1);
    assert!(!accepted(&d, None));
}

#[test]
fn dilution_has_a_limit() {
    let mut d = descent();
    d.dilution = Some((sc(144.0), sc(12.0)));
    assert!(accepted(&d, None));
    assert!(!accepted(&d, Some(8.5)));
    d.dilution = Some((sc(145.0), sc(12.1)));
    assert!(!accepted(&d, None));
    d.dilution = Some((sc(0.0), sc(0.0)));
    assert!(!accepted(&d, None));
    assert!(accepted(&d, Some(99.0)));
    d.dilution = Some((sc(f64::NAN), sc(1.0)));
    assert!(!accepted(&d, None));
    d.dilution = None;
    assert!(!accepted(&d, Some(98.9)));
}

fn trial(cost: f64, new_cost: f64, step: f64) -> Option<Trial> {
    Some(Trial {
        cost: sc(cost),
        new_cost: sc(new_cost),
        step_norm: sc(step),
        cost_drop: sc(cost - new_cost),
    })
}

#[test]
fn descent_is_steered() {
    assert_eq!(steer(0, None), (Damping::Escape, true));
    assert_eq!(steer(0, trial(2.0, 1.0, 9.0)), (Damping::Relax, true));
    assert_eq!(steer(0, trial(1.0, 2.0, 9.0)), (Damping::Tighten, true));
    assert_eq!(steer(0, trial(1.0, 1.0, 0.1)), (Damping::Tighten, true));
    assert_eq!(steer(2, trial(2.0, 1.0, 0.1)), (Damping::Relax, true));
    assert_eq!(steer(3, trial(2.0, 1.0, 0.1)), (Damping::Relax, false));
    assert_eq!(steer(3, trial(2.0, 1.0, 0.5)), (Damping::Relax, true));
    assert_eq!(steer(3, trial(1.00009, 1.0, 9.0)), (Damping::Relax, false));
    assert_eq!(steer(38, trial(1.0, 2.0, 9.0)), (Damping::Tighten, true));
    assert_eq!(steer(39, trial(1.0, 2.0, 9.0)), (Damping::Tighten, false));
    assert_eq!(steer(39, None), (Damping::Escape, false));
}

#[test]
fn guessed_altitude_is_bounded() {
    assert_eq!(starting_altitude(sc(-501.0)), sc(-500.0));
    assert_eq!(starting_altitude(sc(-500.0)), sc(-500.0));
    assert_eq!(starting_altitude(sc(123.0)), sc(123.0));
    assert_eq!(starting_altitude(sc(20_001.0)), sc(20_000.0));
}

#[test]
fn horizon_is_450_kilometres() {
    assert!(within_horizon(sc(450_000.0)));
    assert!(!within_horizon(sc(450_000.01)));
    assert!(!within_horizon(sc(f64::NAN)));
}

#[test]
fn order_is_stable() {
    let keys = vec![sc(3.0), sc(1.0), sc(2.0), sc(1.0), sc(-5.0), sc(3.0)];
    assert_eq!(stable_order(&keys), vec![4, 1, 3, 2, 0, 5]);
    assert_eq!(stable_order(&vec![]), Vec::<usize>::new());
    let mut with_nan = stable_order(&vec![sc(1.0), sc(f64::NAN), sc(0.0)]);
    with_nan.sort();
    assert_eq!(with_nan, vec![0, 1, 2]);
}

#[test]
fn earliest_comes_first() {
    let mut m = measured(5);
    m.reverse();
    assert_eq!(chronological(&m), measured(5));
}

#[test]
fn directions_fall_into_sectors() {
    for (b, s) in [(0.0, 0), (44.999, 0), (45.0, 1), (90.0, 2), (314.9, 6), (315.0, 7), (359.9, 7)] {
        assert_eq!(sector_of(sc(b)), s, "{}", b);
    }
    for i in 0..7200 {
        let b = i as f64 * 0.05;
        assert_eq!(sector_of(sc(b)), ((b / 45.0) as usize).min(7));
    }
    assert_eq!(sector_of(sc(f64::NAN)), 0);
    assert_eq!(sector_of(sc(-1.0)), 0);
    assert_eq!(sector_of(sc(1e9)), 7);
}

fn sight(d: f64, b: f64) -> Sight {
    Sight { distance: sc(d), bearing: sc(b) }
}

fn chosen(sights: &Vec<Sight>) -> Vec<usize> {
    let n = sights.len();
    let ms = measured(n);
    let r = select_optimal_cluster(ms.clone(), sights);
    r.iter().map(|m| ms.iter().position(|x| x == m).unwrap()).collect()
}

#[test]
fn eight_receivers_stay_as_they_are() {
    let sights: Vec<Sight> = (0..8).map(|i| sight(1000.0 - i as f64, 0.0)).collect();
    let mut ms = measured(8);
    ms.reverse();
    assert_eq!(select_optimal_cluster(ms.clone(), &sights), ms);
}

#[test]
fn closest_of_each_direction_is_chosen() {
    let mut sights: Vec<Sight> = (0..10).map(|i| sight(100.0 + i as f64, 10.0)).collect();
    sights.push(sight(400_000.0, 100.0));
    sights.push(sight(300_000.0, 110.0));
    sights.push(sight(200_000.0, 350.0));
    assert_eq!(chosen(&sights), vec![0, 1, 2, 3, 4, 5, 11, 12]);
}

#[test]
fn distant_receivers_are_left_out_where_others_are_enough() {
    let mut sights: Vec<Sight> = (0..8).map(|i| sight(100.0 + i as f64, 10.0)).collect();
    sights.push(sight(450_001.0, 200.0));
    assert_eq!(chosen(&sights), vec![0, 1, 2, 3, 4, 5, 6, 7]);
    sights.remove(0);
    sights.push(sight(500_000.0, 300.0));
    assert_eq!(chosen(&sights), vec![0, 1, 2, 3, 4, 5, 7, 8]);
}

#[test]
fn chosen_receivers_are_in_order_of_time() {
    let sights: Vec<Sight> = (0..12).map(|i| sight(1000.0 - i as f64, 30.0 * i as f64)).collect();
    let c = chosen(&sights);
    assert_eq!(c.len(), 8);
    let mut sorted = c.clone();
    sorted.sort();
    assert_eq!(c, sorted);
    assert_eq!(c, vec![1, 2, 4, 5, 7, 8, 10, 11]);
}

#[test]
fn limits_of_the_solver_are_what_they_are_called() {
    assert_eq!(f64::from_bits(mlat_server::tdoa_solver::OFFERED_MAX_GDOP), 8.5);
    assert_eq!(f64::from_bits(mlat_server::tdoa_solver::DEFAULT_MAX_GDOP), 12.0);
    assert_eq!(f64::from_bits(mlat_server::tdoa_solver::GOOD_RMS), 8.0);
    assert_eq!(f64::from_bits(mlat_server::tdoa_solver::NO_RMS), 999.0);
    assert_eq!(f64::from_bits(mlat_server::tdoa_solver::NO_GDOP), 99.0);
    assert_eq!(f64::from_bits(mlat_server::tdoa_solver::SMALL_DROP), 1e-4);
    assert_eq!(f64::from_bits(mlat_server::protocol::MIN_RATE), 0.05);
}

#[test]
fn every_receiver_has_a_distance() {
    let mut d = descent();
    d.distances.pop();
    assert!(!accepted(&d, None));
    d.distances.clear();
    assert!(!accepted(&d, None));
    d.distances = vec![sc(1.0); 3];
    assert!(accepted(&d, None));
    assert!(ExactSolver::new().solve_raw(4, true, &d, None).is_none());
}
