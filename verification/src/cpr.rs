//! Compact position reports: the position that an even and an odd report give together.
//!
//! Reports divide the circle into zones and give the place inside a zone in steps of
//! 1/131072. All of the decoding is exact.

use crate::modes::ac12_steps;
use vstd::arithmetic::div_mod::{
    lemma_fundamental_div_mod, lemma_fundamental_div_mod_converse, lemma_small_mod,
};
use vstd::prelude::*;

verus! {

/// The steps of one zone.
pub const STEPS: i64 = 131072;

/// The latitudes, in units of 10^-8 degrees, at which the number of longitude zones drops.
pub const TRANSITIONS: [u64; 58] = [
    1047047130, 1482817437, 1818626357, 2102939493, 2354504487,
    2582924707, 2793898710, 2991135686, 3177209708, 3353993436,
    3522899598, 3685025108, 3841241892, 3992256684, 4138651832,
    4280914012, 4419454951, 4554626723, 4686733252, 4816039128,
    4942776439, 5067150166, 5189342469, 5309516153, 5427817472,
    5544378444, 5659318756, 5772747354, 5884763776, 5995459277,
    6104917774, 6213216659, 6320427479, 6426616523, 6531845310,
    6636171008, 6739646774, 6842322022, 6944242631, 7045451075,
    7145986473, 7245884545, 7345177442, 7443893416, 7542056257,
    7639684391, 7736789461, 7833374083, 7929428225, 8024923213,
    8119801349, 8213956981, 8307199445, 8399173563, 8489166191,
    8575541621, 8653536998, 8700000000,
];

/// An angle: `index` whole zones and `step` steps, of `zones` zones to the circle, less a
/// whole circle where `wrapped`.
#[derive(Clone, Copy, Debug, PartialEq, Eq, Structural)]
pub struct Angle {
    pub zones: i64,
    pub index: i64,
    pub step: i64,
    pub wrapped: bool,
}

impl Angle {
    /// The zones are those that reports use, and the angle starts less than a circle from
    /// zero.
    pub open spec fn wf(self) -> bool {
        &&& 1 <= self.zones <= 60
        &&& 0 <= self.index < self.zones
        &&& 0 <= self.step < STEPS
    }

    /// The angle in steps.
    pub open spec fn steps(self) -> int {
        self.index * STEPS + self.step - (if self.wrapped {
            self.zones * STEPS
        } else {
            0
        })
    }

    /// The circle in steps.
    pub open spec fn circle(self) -> int {
        self.zones * STEPS
    }

    fn value(self) -> (v: i64)
        requires
            self.wf(),
        ensures
            v == self.steps(),
            -8_000_000 <= v <= 8_000_000,
    {
        let turn: i64 = if self.wrapped {
            self.zones * STEPS
        } else {
            0
        };
        self.index * STEPS + self.step - turn
    }
}

/// A decoded position; the altitude is in feet.
#[derive(Clone, Copy, Debug, PartialEq, Eq, Structural)]
pub struct CprPosition {
    pub lat: Angle,
    pub lon: Angle,
    pub alt_ft: i32,
}

/// The latitude field of a position report.
pub open spec fn report_lat(m: Seq<u8>) -> int {
    (m[6] % 4) * 0x8000 + m[7] * 0x80 + m[8] / 2
}

/// The longitude field of a position report.
pub open spec fn report_lon(m: Seq<u8>) -> int {
    (m[8] % 2) * 0x1_0000 + m[9] * 0x100 + m[10]
}

/// An angle of which the first zones up to `limit` quarters of the circle stay as they are.
pub open spec fn folded(zones: int, index: int, step: int, limit: int) -> Angle {
    Angle {
        zones: zones as i64,
        index: index as i64,
        step: step as i64,
        wrapped: 4 * (index * STEPS + step) >= limit * zones * STEPS,
    }
}

/// How many of the first `n` transition latitudes an angle reaches, on either side of the
/// equator.
pub open spec fn transitions_reached(lat: Angle, n: nat) -> int
    decreases n,
{
    if n == 0 {
        0
    } else {
        transitions_reached(lat, (n - 1) as nat) + (if TRANSITIONS[n - 1] * lat.circle() <= abs(
            lat.steps(),
        ) * 36_000_000_000 {
            1int
        } else {
            0int
        })
    }
}

pub open spec fn abs(x: int) -> int {
    if x < 0 {
        -x
    } else {
        x
    }
}

/// The number of longitude zones at a latitude.
pub open spec fn longitude_zones(lat: Angle) -> int {
    59 - transitions_reached(lat, 58)
}

/// The even or the odd latitude of a pair of reports with these latitude fields.
pub open spec fn pair_lat(even: int, odd: int, is_odd: bool) -> Angle {
    let j = (59 * even - 60 * odd + 65536) / (STEPS as int);
    if is_odd {
        folded(59, j % 59, odd, 3)
    } else {
        folded(60, j % 60, even, 3)
    }
}

/// The longitude of a pair of reports with these longitude fields, where there are `nl`
/// zones. The zone number is one of `nl`; odd reports have one zone less, so their last number
/// is once round the circle.
pub open spec fn pair_lon(even: int, odd: int, nl: int, is_odd: bool) -> Angle {
    let m = (even * (nl - 1) - odd * nl + 65536) / (STEPS as int);
    let zones = zones_of(nl, is_odd);
    folded(
        zones,
        m % nl % zones,
        if is_odd {
            odd
        } else {
            even
        },
        2,
    )
}

/// The longitude zones of even and of odd reports.
pub open spec fn zones_of(nl: int, is_odd: bool) -> int {
    if is_odd && nl > 1 {
        nl - 1
    } else {
        nl
    }
}

/// The altitude that a position report carries, 5000 ft where it counts no steps of 25 ft.
pub open spec fn report_altitude(m: Seq<u8>) -> i32 {
    match ac12_steps((m[5] * 0x10 + m[6] / 0x10) as u16) {
        Some(feet) => feet,
        None => 5000,
    }
}

/// The position of a pair of reports: none where a report is too short, where the latitude
/// is beyond a pole, or where the two latitudes lie in different zones.
pub open spec fn pair_position(even: Seq<u8>, odd: Seq<u8>, even_is_newer: bool) -> Option<
    CprPosition,
> {
    if even.len() < 14 || odd.len() < 14 {
        None
    } else {
        let lat_even = pair_lat(report_lat(even), report_lat(odd), false);
        let lat_odd = pair_lat(report_lat(even), report_lat(odd), true);
        let lat = if even_is_newer {
            lat_even
        } else {
            lat_odd
        };
        let nl = longitude_zones(lat);
        if 4 * abs(lat.steps()) > lat.circle() || longitude_zones(lat_even) != longitude_zones(
            lat_odd,
        ) {
            None
        } else {
            Some(
                CprPosition {
                    lat,
                    lon: pair_lon(report_lon(even), report_lon(odd), nl, !even_is_newer),
                    alt_ft: report_altitude(if even_is_newer {
                        even
                    } else {
                        odd
                    }),
                },
            )
        }
    }
}

proof fn lemma_transitions_bound(lat: Angle, n: nat)
    ensures
        0 <= transitions_reached(lat, n) <= n,
    decreases n,
{
    if n > 0 {
        lemma_transitions_bound(lat, (n - 1) as nat);
    }
}

/// A latitude has between 1 and 59 longitude zones.
pub proof fn law_longitude_zones_range(lat: Angle)
    ensures
        1 <= longitude_zones(lat) <= 59,
{
    lemma_transitions_bound(lat, 58);
}

/// Two reports of one latitude give that latitude back: if the even report says `step_even`
/// in zone `even_zone` and the odd one `step_odd` in zone `odd_zone`, and the two differ by
/// less than half a step of their common grid, the zones are found from the steps alone.
pub proof fn law_latitude_zones_recovered(
    even_zone: int,
    step_even: int,
    odd_zone: int,
    step_odd: int,
)
    requires
        0 <= even_zone < 60,
        0 <= odd_zone < 59,
        0 <= step_even < STEPS,
        0 <= step_odd < STEPS,
        -65536 <= 59 * (even_zone * STEPS + step_even) - 60 * (odd_zone * STEPS + step_odd)
            < 65536,
    ensures
        pair_lat(step_even, step_odd, false).index == even_zone,
        pair_lat(step_even, step_odd, true).index == odd_zone,
{
    let j = (59 * step_even - 60 * step_odd + 65536) / (STEPS as int);
    assert(j == 60 * odd_zone - 59 * even_zone);
    assert(j % 60 == even_zone);
    assert(j % 59 == odd_zone);
}

/// Two reports of one longitude give the zone of the even one back: if it says `step_even` in
/// zone `even_zone` of `nl` and the odd one `step_odd` in zone `odd_zone` of one less, and the
/// two differ by less than half a step of their common grid, the zone is found from the steps
/// alone. The odd report is put into the zone of that same number, which is its own where the
/// two numbers agree on the circle of the odd zones.
pub proof fn law_even_longitude_zone_recovered(
    nl: int,
    even_zone: int,
    step_even: int,
    odd_zone: int,
    step_odd: int,
)
    requires
        2 <= nl <= 59,
        0 <= even_zone < nl,
        0 <= odd_zone < nl - 1,
        0 <= step_even < STEPS,
        0 <= step_odd < STEPS,
        -65536 <= (nl - 1) * (even_zone * STEPS + step_even) - nl * (odd_zone * STEPS + step_odd)
            < 65536,
    ensures
        pair_lon(step_even, step_odd, nl, false).index == even_zone,
        pair_lon(step_even, step_odd, nl, true).index == even_zone % (nl - 1),
        pair_lon(step_even, step_odd, nl, true).index == odd_zone <==> even_zone % (nl - 1)
            == odd_zone,
{
    let s = STEPS as int;
    let x = step_even * (nl - 1) - step_odd * nl + 65536;
    let m = nl * odd_zone - (nl - 1) * even_zone;
    let d = (nl - 1) * (even_zone * s + step_even) - nl * (odd_zone * s + step_odd);
    assert(x == m * s + (d + 65536)) by (nonlinear_arith)
        requires
            x == step_even * (nl - 1) - step_odd * nl + 65536,
            m == nl * odd_zone - (nl - 1) * even_zone,
            d == (nl - 1) * (even_zone * s + step_even) - nl * (odd_zone * s + step_odd),
    ;
    lemma_fundamental_div_mod_converse(x, s, m, d + 65536);
    assert(m == nl * (odd_zone - even_zone) + even_zone) by (nonlinear_arith)
        requires
            m == nl * odd_zone - (nl - 1) * even_zone,
    ;
    assert((odd_zone - even_zone) * nl == nl * (odd_zone - even_zone)) by (nonlinear_arith);
    lemma_fundamental_div_mod_converse(m, nl, odd_zone - even_zone, even_zone);
    lemma_small_mod(even_zone as nat, nl as nat);
}

/// The number of longitude zones at a latitude.
pub fn cpr_nl(lat: Angle) -> (nl: i64)
    requires
        lat.wf(),
    ensures
        nl == longitude_zones(lat),
        1 <= nl <= 59,
{
    let v: i64 = lat.value();
    let reach: u64 = (if v < 0 {
        -v
    } else {
        v
    }) as u64 * 36_000_000_000;
    let circle: u64 = lat.zones as u64 * STEPS as u64;
    let mut nl: i64 = 59;
    let mut i: usize = 0;
    while i < 58
        invariant
            i <= 58,
            nl == 59 - transitions_reached(lat, i as nat),
            0 <= transitions_reached(lat, i as nat) <= i,
            reach == abs(lat.steps()) * 36_000_000_000,
            circle == lat.circle(),
            circle <= 8_000_000,
        decreases 58 - i,
    {
        proof {
            lemma_transitions_bound(lat, (i + 1) as nat);
            lemma_transition_small(i as int);
            assert(TRANSITIONS[i as int] * circle <= 10_000_000_000 * 8_000_000)
                by (nonlinear_arith)
                requires
                    TRANSITIONS[i as int] <= 10_000_000_000,
                    circle <= 8_000_000,
            ;
        }
        if TRANSITIONS[i] * circle <= reach {
            nl -= 1;
        }
        i += 1;
    }
    proof {
        lemma_transitions_bound(lat, 58);
    }
    nl
}

proof fn lemma_transition_small(i: int)
    requires
        0 <= i < 58,
    ensures
        TRANSITIONS[i] <= 10_000_000_000,
{
}

/// The number of longitude zones of even or of odd reports at a latitude.
pub fn cpr_dlon(lat: Angle, is_odd: bool) -> (zones: i64)
    requires
        lat.wf(),
    ensures
        zones == zones_of(longitude_zones(lat), is_odd),
        1 <= zones <= 59,
{
    let nl: i64 = cpr_nl(lat);
    if is_odd && nl > 1 {
        nl - 1
    } else {
        nl
    }
}

fn fold(zones: i64, index: i64, step: i64, limit: i64) -> (a: Angle)
    requires
        1 <= zones <= 60,
        0 <= index < zones,
        0 <= step < STEPS,
        2 <= limit <= 3,
    ensures
        a == folded(zones as int, index as int, step as int, limit as int),
        a.wf(),
        limit == 2 ==> -a.circle() <= 2 * a.steps() <= a.circle(),
{
    let wrapped: bool = {
        assert(limit * zones * STEPS == limit * (zones * STEPS)) by (nonlinear_arith);
        if limit == 2 {
            4 * (index * STEPS + step) >= 2 * zones * STEPS
        } else {
            4 * (index * STEPS + step) >= 3 * zones * STEPS
        }
    };
    Angle { zones, index, step, wrapped }
}

/// The remainder in `0..n` of a number that may be negative.
fn wrap(x: i64, n: i64) -> (r: i64)
    requires
        1 <= n <= 60,
        -1000 <= x <= 1000,
    ensures
        r == x as int % n as int,
        0 <= r < n,
{
    if x >= 0 {
        x % n
    } else {
        let q: i64 = (-x) / n;
        let rest: i64 = (-x) % n;
        proof {
            lemma_fundamental_div_mod(-x as int, n as int);
            assert((-q) * n == -(n * q)) by (nonlinear_arith);
            assert((-q - 1) * n == -(n * q) - n) by (nonlinear_arith);
            if rest == 0 {
                lemma_fundamental_div_mod_converse(x as int, n as int, (-q) as int, 0);
            } else {
                lemma_fundamental_div_mod_converse(x as int, n as int, -q - 1, n - rest);
            }
        }
        if rest == 0 {
            0
        } else {
            n - rest
        }
    }
}

/// The quotient by the steps of a zone, rounded down.
fn whole_zones(x: i64) -> (q: i64)
    requires
        -20_000_000 <= x <= 20_000_000,
    ensures
        q == x as int / STEPS as int,
        -200 <= q <= 200,
{
    (x + 200 * STEPS) / STEPS - 200
}

/// The position that an even and an odd report give together.
pub fn decode_cpr_pair(even_msg: &[u8], odd_msg: &[u8], even_is_newer: bool) -> (r: Option<
    CprPosition,
>)
    ensures
        r == pair_position(even_msg@, odd_msg@, even_is_newer),
        r matches Some(p) ==> p.lat.wf() && p.lon.wf(),
        r matches Some(p) ==> -p.lat.circle() <= 4 * p.lat.steps() <= p.lat.circle(),
        r matches Some(p) ==> -p.lon.circle() <= 2 * p.lon.steps() <= p.lon.circle(),
{
    if even_msg.len() < 14 || odd_msg.len() < 14 {
        return None;
    }
    let lat_e: i64 = ((even_msg[6] % 4) as i64) * 0x8000 + (even_msg[7] as i64) * 0x80 + (
    even_msg[8] / 2) as i64;
    let lat_o: i64 = ((odd_msg[6] % 4) as i64) * 0x8000 + (odd_msg[7] as i64) * 0x80 + (odd_msg[8]
        / 2) as i64;
    let lon_e: i64 = ((even_msg[8] % 2) as i64) * 0x1_0000 + (even_msg[9] as i64) * 0x100
        + even_msg[10] as i64;
    let lon_o: i64 = ((odd_msg[8] % 2) as i64) * 0x1_0000 + (odd_msg[9] as i64) * 0x100
        + odd_msg[10] as i64;
    let j: i64 = whole_zones(59 * lat_e - 60 * lat_o + 65536);
    let lat_even: Angle = fold(60, wrap(j, 60), lat_e, 3);
    let lat_odd: Angle = fold(59, wrap(j, 59), lat_o, 3);
    let lat: Angle = if even_is_newer {
        lat_even
    } else {
        lat_odd
    };
    let v: i64 = lat.value();
    let circle: i64 = lat.zones * STEPS;
    if 4 * v > circle || 4 * v < -circle {
        return None;
    }
    if cpr_nl(lat_even) != cpr_nl(lat_odd) {
        return None;
    }
    let nl: i64 = cpr_nl(lat);
    let zones: i64 = cpr_dlon(lat, !even_is_newer);
    assert(0 <= lon_e * (nl - 1) <= STEPS * 58) by (nonlinear_arith)
        requires
            0 <= lon_e <= STEPS,
            1 <= nl <= 59,
    ;
    assert(0 <= lon_o * nl <= STEPS * 59) by (nonlinear_arith)
        requires
            0 <= lon_o <= STEPS,
            1 <= nl <= 59,
    ;
    let m: i64 = whole_zones(lon_e * (nl - 1) - lon_o * nl + 65536);
    let lon: Angle = fold(
        zones,
        wrap(m, nl) % zones,
        if even_is_newer {
            lon_e
        } else {
            lon_o
        },
        2,
    );
    let newer: &[u8] = if even_is_newer {
        even_msg
    } else {
        odd_msg
    };
    let ac12: u16 = (newer[5] as u16) * 0x10 + (newer[6] / 0x10) as u16;
    let alt_ft: i32 = if ac12 & 0x0010 != 0 {
        (((ac12 / 0x20 % 0x80) * 0x10 + ac12 % 0x10) as i32) * 25 - 1000
    } else {
        5000
    };
    Some(CprPosition { lat, lon, alt_ft })
}

/// Towards either pole there are never more longitude zones: 59 at the equator, one from 87
/// degrees on, and as many to the south as to the north.
pub proof fn law_fewer_zones_towards_the_poles(a: Angle, b: Angle)
    requires
        a.wf(),
        b.wf(),
        abs(a.steps()) * b.circle() <= abs(b.steps()) * a.circle(),
    ensures
        longitude_zones(a) >= longitude_zones(b),
        100 * abs(a.steps()) * 360 < 1047 * a.circle() ==> longitude_zones(a) == 59,
        abs(a.steps()) * 360 >= 87 * a.circle() ==> longitude_zones(a) == 1,
        a.steps() == -b.steps() && a.circle() == b.circle() ==> longitude_zones(a)
            == longitude_zones(b),
{
    lemma_reached_by_farther(a, b, 58);
    if a.steps() == -b.steps() && a.circle() == b.circle() {
        lemma_reached_by_farther(b, a, 58);
    }
    if 100 * abs(a.steps()) * 360 < 1047 * a.circle() {
        lemma_none_reached(a, 58);
    }
    if abs(a.steps()) * 360 >= 87 * a.circle() {
        lemma_all_reached(a, 58);
    }
}

proof fn lemma_reached_by_farther(a: Angle, b: Angle, n: nat)
    requires
        n <= 58,
        a.wf(),
        b.wf(),
        abs(a.steps()) * b.circle() <= abs(b.steps()) * a.circle(),
    ensures
        transitions_reached(a, n) <= transitions_reached(b, n),
    decreases n,
{
    if n > 0 {
        lemma_reached_by_farther(a, b, (n - 1) as nat);
        let t = TRANSITIONS[n - 1] as int;
        let (x, y, c, e) = (abs(a.steps()), abs(b.steps()), a.circle(), b.circle());
        if t * c <= x * 36_000_000_000 {
            assert(t * e <= y * 36_000_000_000) by (nonlinear_arith)
                requires
                    t * c <= x * 36_000_000_000,
                    x * e <= y * c,
                    c > 0,
                    e > 0,
            {
                assert((t * c) * e <= (x * 36_000_000_000) * e);
                assert((x * 36_000_000_000) * e == (x * e) * 36_000_000_000);
                assert((t * c) * e == (t * e) * c);
                assert((y * c) * 36_000_000_000 == (y * 36_000_000_000) * c);
            }
        }
    }
}

proof fn lemma_transition_range(i: int)
    requires
        0 <= i < 58,
    ensures
        1_047_000_000 <= TRANSITIONS[i] <= 8_700_000_000,
{
}

proof fn lemma_none_reached(a: Angle, n: nat)
    requires
        n <= 58,
        a.wf(),
        100 * abs(a.steps()) * 360 < 1047 * a.circle(),
    ensures
        transitions_reached(a, n) == 0,
    decreases n,
{
    if n > 0 {
        lemma_none_reached(a, (n - 1) as nat);
        lemma_transition_range(n - 1);
        let t = TRANSITIONS[n - 1] as int;
        let (x, c) = (abs(a.steps()), a.circle());
        assert(t * c >= 1_047_000_000 * c) by (nonlinear_arith)
            requires
                t >= 1_047_000_000,
                c > 0,
        ;
    }
}

proof fn lemma_all_reached(a: Angle, n: nat)
    requires
        n <= 58,
        a.wf(),
        abs(a.steps()) * 360 >= 87 * a.circle(),
    ensures
        transitions_reached(a, n) == n,
    decreases n,
{
    if n > 0 {
        lemma_all_reached(a, (n - 1) as nat);
        lemma_transition_range(n - 1);
        let t = TRANSITIONS[n - 1] as int;
        let (x, c) = (abs(a.steps()), a.circle());
        assert(t * c <= 8_700_000_000 * c) by (nonlinear_arith)
            requires
                t <= 8_700_000_000,
                c > 0,
        ;
    }
}

/// A latitude between -90 and 90 degrees that is written into an even and an odd report is read
/// back from the steps in the two alone, on its own side of the equator.
pub proof fn law_latitude_is_read_back(
    even_zone: int,
    step_even: int,
    odd_zone: int,
    step_odd: int,
)
    requires
        -15 <= even_zone < 15,
        -15 <= odd_zone < 15,
        0 <= step_even < STEPS,
        0 <= step_odd < STEPS,
        -60 * STEPS <= 4 * (even_zone * STEPS + step_even) <= 60 * STEPS,
        -59 * STEPS <= 4 * (odd_zone * STEPS + step_odd) <= 59 * STEPS,
        -65536 <= 59 * (even_zone * STEPS + step_even) - 60 * (odd_zone * STEPS + step_odd)
            < 65536,
    ensures
        pair_lat(step_even, step_odd, false).steps() == even_zone * STEPS + step_even,
        pair_lat(step_even, step_odd, false).circle() == 60 * STEPS,
        pair_lat(step_even, step_odd, true).steps() == odd_zone * STEPS + step_odd,
        pair_lat(step_even, step_odd, true).circle() == 59 * STEPS,
{
    let j = (59 * step_even - 60 * step_odd + 65536) / (STEPS as int);
    assert(j == 60 * odd_zone - 59 * even_zone);
    let e = if even_zone < 0 {
        even_zone + 60
    } else {
        even_zone
    };
    let o = if odd_zone < 0 {
        odd_zone + 59
    } else {
        odd_zone
    };
    assert(j % 60 == e);
    assert(j % 59 == o);
}

/// A longitude between -180 and 180 degrees that is written into an even and an odd report is read
/// back for the even one, on its own side of the meridian.
pub proof fn law_even_longitude_is_read_back(
    nl: int,
    even_zone: int,
    step_even: int,
    odd_zone: int,
    step_odd: int,
)
    requires
        2 <= nl <= 59,
        0 <= step_even < STEPS,
        0 <= step_odd < STEPS,
        -nl * STEPS <= 2 * (even_zone * STEPS + step_even) < nl * STEPS,
        -(nl - 1) * STEPS <= 2 * (odd_zone * STEPS + step_odd) < (nl - 1) * STEPS,
        -65536 <= (nl - 1) * (even_zone * STEPS + step_even) - nl * (odd_zone * STEPS + step_odd)
            < 65536,
    ensures
        pair_lon(step_even, step_odd, nl, false).steps() == even_zone * STEPS + step_even,
        pair_lon(step_even, step_odd, nl, false).circle() == nl * STEPS,
{
    let e = if even_zone < 0 {
        even_zone + nl
    } else {
        even_zone
    };
    let o = if odd_zone < 0 {
        odd_zone + nl - 1
    } else {
        odd_zone
    };
    let s = STEPS as int;
    assert(-nl <= even_zone < nl && -(nl - 1) <= odd_zone < nl - 1) by (nonlinear_arith)
        requires
            s == 131072,
            0 <= step_even < s,
            0 <= step_odd < s,
            nl >= 2,
            -nl * s <= 2 * (even_zone * s + step_even) < nl * s,
            -(nl - 1) * s <= 2 * (odd_zone * s + step_odd) < (nl - 1) * s,
    ;
    let x = step_even * (nl - 1) - step_odd * nl + 65536;
    let m = nl * odd_zone - (nl - 1) * even_zone;
    let d = (nl - 1) * (even_zone * s + step_even) - nl * (odd_zone * s + step_odd);
    assert(x == m * s + (d + 65536)) by (nonlinear_arith)
        requires
            x == step_even * (nl - 1) - step_odd * nl + 65536,
            m == nl * odd_zone - (nl - 1) * even_zone,
            d == (nl - 1) * (even_zone * s + step_even) - nl * (odd_zone * s + step_odd),
    ;
    lemma_fundamental_div_mod_converse(x, s, m, d + 65536);
    let q = odd_zone - even_zone + (if even_zone < 0 {
        -1int
    } else {
        0int
    });
    assert(m == q * nl + e) by (nonlinear_arith)
        requires
            m == nl * odd_zone - (nl - 1) * even_zone,
            q == odd_zone - even_zone + (if even_zone < 0 {
                -1int
            } else {
                0int
            }),
            e == (if even_zone < 0 {
                even_zone + nl
            } else {
                even_zone
            }),
    ;
    lemma_fundamental_div_mod_converse(m, nl, q, e);
    lemma_small_mod(e as nat, nl as nat);
    let a = pair_lon(step_even, step_odd, nl, false);
    assert(a.index == e);
    assert(2 * nl * s == 2 * (nl * s)) by (nonlinear_arith);
    assert((even_zone + nl) * s == even_zone * s + nl * s) by (nonlinear_arith);
    if even_zone < 0 {
        assert(even_zone * s + step_even < 0) by (nonlinear_arith)
            requires
                even_zone <= -1,
                step_even < s,
                s > 0,
        ;
    } else {
        assert(even_zone * s + step_even >= 0) by (nonlinear_arith)
            requires
                even_zone >= 0,
                step_even >= 0,
                s > 0,
        ;
    }
}

/// The two fields of a position report are the last 17 bits of bytes 6 to 8 without the lowest, and
/// the 17 bits behind them.
pub proof fn law_report_fields(m: Seq<u8>)
    requires
        m.len() >= 14,
    ensures
        0 <= report_lat(m) < STEPS,
        0 <= report_lon(m) < STEPS,
        0x2_0000 * report_lat(m) + report_lon(m) == 0x1_0000_0000 * (m[6] % 4) + 0x100_0000 * m[7]
            + 0x1_0000 * m[8] + 0x100 * m[9] + m[10],
{
}

/// A pair of reports gives a position if and only if both are whole, the latitude of the newer one
/// is between the poles, and both latitudes have the same number of longitude zones. Latitude and
/// altitude are those of the newer report; the altitude is 5000 ft where that counts no steps.
pub proof fn law_position_of_a_pair(even: Seq<u8>, odd: Seq<u8>, even_is_newer: bool)
    requires
        even.len() >= 14,
        odd.len() >= 14,
    ensures
        ({
            let e = pair_lat(report_lat(even), report_lat(odd), false);
            let o = pair_lat(report_lat(even), report_lat(odd), true);
            let newer = if even_is_newer {
                even
            } else {
                odd
            };
            let lat = if even_is_newer {
                e
            } else {
                o
            };
            let r = pair_position(even, odd, even_is_newer);
            &&& r is Some <==> -lat.circle() <= 4 * lat.steps() <= lat.circle() && longitude_zones(e)
                == longitude_zones(o)
            &&& r matches Some(p) ==> p.lat == lat && p.lon.zones == (if even_is_newer
                || longitude_zones(lat) == 1 {
                longitude_zones(lat)
            } else {
                longitude_zones(lat) - 1
            }) && p.lon.step == report_lon(newer)
            &&& r matches Some(p) ==> (newer[5] as int % 2 == 0 ==> p.alt_ft == 5000)
            &&& r matches Some(p) ==> (newer[5] as int % 2 == 1 ==> p.alt_ft == 25 * (16 * (newer[5]
                / 2) + newer[6] / 16) - 1000)
        }),
        pair_position(even.take(13), odd, even_is_newer) is None,
        pair_position(even, odd.take(13), even_is_newer) is None,
{
    let newer = if even_is_newer {
        even
    } else {
        odd
    };
    law_longitude_zones_range(pair_lat(report_lat(even), report_lat(odd), !even_is_newer));
    let (b5, b6) = (newer[5], newer[6]);
    let ac12 = (b5 * 0x10 + b6 / 0x10) as u16;
    assert(b5 as u16 * 16 + b6 as u16 / 16 == ac12);
    assert(ac12 & 0x10 != 0 <==> b5 % 2 == 1) by (bit_vector)
        requires
            ac12 == b5 as u16 * 16 + b6 as u16 / 16,
    ;
    assert(ac12 as int / 0x20 % 0x80 == b5 as int / 2 && ac12 as int % 0x10 == b6 as int / 16);
}

} // verus!
