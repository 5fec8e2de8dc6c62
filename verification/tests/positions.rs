use mlat_server::cpr::{cpr_dlon, cpr_nl, decode_cpr_pair, Angle};

fn hex(s: &str) -> Vec<u8> {
    (0..s.len() / 2).map(|i| u8::from_str_radix(&s[2 * i..2 * i + 2], 16).unwrap()).collect()
}

fn degrees(a: Angle) -> f64 {
    let d = 360.0 / a.zones as f64 * (a.index as f64 + a.step as f64 / 131072.0);
    if a.wrapped {
        d - 360.0
    } else {
        d
    }
}

fn nl(lat_deg: f64) -> i64 {
    let lat = lat_deg.abs();
    if lat >= 87.0 {
        return 1;
    }
    if lat < 1e-6 {
        return 59;
    }
    let num = 1.0 - (std::f64::consts::PI / 30.0).cos();
    let den = lat.to_radians().cos().powi(2);
    let arg = 1.0 - num / den;
    if arg < -1.0 || arg > 1.0 {
        return 1;
    }
    ((2.0 * std::f64::consts::PI) / arg.acos()).floor() as i64
}

fn angle(zones: i64, index: i64, step: i64) -> Angle {
    Angle { zones, index, step, wrapped: 4 * (131072 * index + step) >= 3 * 131072 * zones }
}

#[test]
fn longitude_zones_agree_with_the_formula() {
    for zones in [59i64, 60] {
        for index in 0..zones {
            for step in (0..131072i64).step_by(1009) {
                let a = angle(zones, index, step);
                let d = degrees(a);
                if d.abs() <= 90.0 {
                    assert_eq!(cpr_nl(a), nl(d), "{}", d);
                }
            }
        }
    }
    assert_eq!(cpr_nl(angle(60, 0, 0)), 59);
    assert_eq!(cpr_nl(angle(60, 14, 131071)), 1);
    assert_eq!(cpr_dlon(angle(60, 14, 131071), true), 1);
    assert_eq!(cpr_dlon(angle(60, 0, 0), true), 58);
    assert_eq!(cpr_dlon(angle(60, 0, 0), false), 59);
}

#[test]
fn known_pair_is_decoded() {
    let even = hex("8D40621D58C382D690C8AC2863A7");
    let odd = hex("8D40621D58C386435CC412692AD6");
    let p = decode_cpr_pair(&even, &odd, true).unwrap();
    assert!((degrees(p.lat) - 52.25720214843750).abs() < 1e-9);
    assert!((degrees(p.lon) - 3.91937255859375).abs() < 1e-9);
    assert_eq!(p.alt_ft, 38000);
}

#[test]
fn short_reports_have_no_position() {
    let even = hex("8D40621D58C382D690C8AC2863A7");
    assert!(decode_cpr_pair(&even[..13], &even, true).is_none());
    assert!(decode_cpr_pair(&even, &even[..13], true).is_none());
}

#[test]
fn altitude_without_steps_is_five_thousand_feet() {
    let mut even = hex("8D40621D58C382D690C8AC2863A7");
    let odd = hex("8D40621D58C386435CC412692AD6");
    even[5] = 0;
    even[6] &= 0x0f;
    assert_eq!(decode_cpr_pair(&even, &odd, true).unwrap().alt_ft, 5000);
}

fn encode(lat: f64, lon: f64, odd: bool) -> Vec<u8> {
    let zones = if odd { 59.0 } else { 60.0 };
    let dlat = 360.0 / zones;
    let yz = (131072.0 * (lat.rem_euclid(dlat) / dlat) + 0.5).floor();
    let rlat = dlat * (yz / 131072.0 + (lat / dlat).floor());
    let n = (nl(rlat) - if odd { 1 } else { 0 }).max(1);
    let dlon = 360.0 / n as f64;
    let xz = (131072.0 * (lon.rem_euclid(dlon) / dlon) + 0.5).floor();
    let y = (yz as i64 & 0x1ffff) as u32;
    let x = (xz as i64 & 0x1ffff) as u32;
    let mut f = vec![0u8; 14];
    f[0] = 0x8d;
    f[6] = (y >> 15) as u8;
    f[7] = (y >> 7) as u8;
    f[8] = ((y << 1) | (x >> 16)) as u8;
    f[9] = (x >> 8) as u8;
    f[10] = x as u8;
    f
}

fn read_back(even_is_newer: bool) {
    let mut s: u64 = 99;
    let mut read = 0;
    let mut found = 0;
    for _ in 0..2000 {
        s = s.wrapping_mul(6364136223846793005).wrapping_add(1442695040888963407);
        let lat = ((s >> 11) as f64 / 9007199254740992.0 - 0.5) * 170.0;
        s = s.wrapping_mul(6364136223846793005).wrapping_add(1442695040888963407);
        let lon = ((s >> 11) as f64 / 9007199254740992.0 - 0.5) * 358.0;
        let pair = (encode(lat, lon, false), encode(lat, lon, true));
        if let Some(p) = decode_cpr_pair(&pair.0, &pair.1, even_is_newer) {
            read += 1;
            assert!((degrees(p.lat) - lat).abs() < 1e-3, "{} {}", lat, lon);
            let zones = p.lon.zones as f64;
            let all = cpr_nl(p.lat) as f64;
            let place = lon.rem_euclid(360.0) / 360.0;
            if even_is_newer || (place * all).floor() % zones == (place * zones).floor() {
                found += 1;
                assert!((degrees(p.lon) - lon).abs() < 1e-2, "{} {} {}", lat, lon, degrees(p.lon));
            }
        }
    }
    assert!(read > 1900);
    assert!(found > if even_is_newer { 1900 } else { 800 });
}

#[test]
fn even_positions_are_read_back() {
    read_back(true);
}

#[test]
fn odd_positions_are_read_back_where_the_zone_numbers_agree() {
    read_back(false);
}

// A report with these latitude and longitude fields.
fn report(y: u32, x: u32) -> Vec<u8> {
    let mut f = vec![0u8; 14];
    f[6] = (y >> 15) as u8;
    f[7] = (y >> 7) as u8;
    f[8] = ((y << 1) | (x >> 16)) as u8;
    f[9] = (x >> 8) as u8;
    f[10] = x as u8;
    f
}

#[test]
fn odd_longitude_is_in_the_zone_of_the_even_number() {
    let p = decode_cpr_pair(&report(93_000, 0), &report(74_158, 65_536), false).unwrap();
    assert_eq!((p.lon.zones, p.lon.index, p.lon.step), (35, 18, 65_536));
    let mut s: u64 = 17;
    let mut decoded = 0;
    for i in 0..20_000 {
        let mut next = || {
            s = s.wrapping_mul(6364136223846793005).wrapping_add(1442695040888963407);
            (s >> 40) as u32 & 0x1ffff
        };
        let (ye, yo, xe, xo) = (next(), next(), next(), next());
        let even_is_newer = i % 2 == 0;
        let p = match decode_cpr_pair(&report(ye, xe), &report(yo, xo), even_is_newer) {
            Some(p) => p,
            None => continue,
        };
        decoded += 1;
        let nl = cpr_nl(p.lat) as f64;
        let (fe, fo) = (xe as f64 / 131072.0, xo as f64 / 131072.0);
        let m = (fe * (nl - 1.0) - fo * nl + 0.5).floor();
        let (dlon, x) =
            if even_is_newer { (360.0 / nl, fe) } else { (360.0 / (nl - 1.0).max(1.0), fo) };
        let mut lon = dlon * ((m % nl + nl) % nl + x);
        if lon >= 180.0 {
            lon -= 360.0;
        }
        if nl > 2.0 {
            assert!((degrees(p.lon) - lon).abs() < 1e-9, "{} {}", degrees(p.lon), lon);
        }
    }
    assert!(decoded > 1000);
}

#[test]
fn longitudes_are_within_half_a_circle() {
    let mut even = vec![0u8; 14];
    even[6..11].copy_from_slice(&[0x01, 0xd5, 0x56, 0x27, 0x10]);
    let mut odd = vec![0u8; 14];
    odd[6..11].copy_from_slice(&[0x00, 0xde, 0x95, 0x86, 0xa0]);
    let p = decode_cpr_pair(&even, &odd, false).unwrap();
    assert_eq!(p.lon.zones, 1);
    assert_eq!(p.lon.index, 0);
    assert!((degrees(p.lon) - (100_000.0 / 131_072.0 * 360.0 - 360.0)).abs() < 1e-9);
    let mut s: u64 = 5;
    for i in 0..20_000 {
        for b in 6..11 {
            s = s.wrapping_mul(6364136223846793005).wrapping_add(1442695040888963407);
            even[b] = (s >> 40) as u8;
            odd[b] = (s >> 50) as u8;
        }
        if let Some(p) = decode_cpr_pair(&even, &odd, i % 2 == 0) {
            assert!(degrees(p.lon).abs() <= 180.0);
            assert!(degrees(p.lat).abs() <= 90.0);
        }
    }
}
