use mlat_server::messages::{
    decode_ac13, extract_altitude, extract_icao_and_df, extract_raw_timestamps, make_crc_table,
    modes_crc_residual,
};
use mlat_server::modes;

fn hex(s: &str) -> Vec<u8> {
    (0..s.len() / 2).map(|i| u8::from_str_radix(&s[2 * i..2 * i + 2], 16).unwrap()).collect()
}

fn table() -> Vec<u32> {
    (0..256u32)
        .map(|i| {
            let mut c = i << 16;
            for _ in 0..8 {
                c = if c & 0x800000 != 0 { (c << 1) ^ 0xfff409 } else { c << 1 };
            }
            c & 0xffffff
        })
        .collect()
}

fn residual(p: &[u8]) -> u32 {
    if p.is_empty() {
        return 0;
    }
    let n = if p[0] >> 3 > 15 { 14 } else { 7 };
    if p.len() < n {
        return 0;
    }
    let t = table();
    let mut rem = t[p[0] as usize];
    for i in 1..n - 3 {
        rem = ((rem & 0xffff) << 8) ^ t[((p[i] as u32) ^ (rem >> 16)) as usize & 0xff];
    }
    rem ^ ((p[n - 3] as u32) << 16) ^ ((p[n - 2] as u32) << 8) ^ p[n - 1] as u32
}

fn gillham(ac13: u32) -> Option<i32> {
    if ac13 == 0 || ac13 & 0x40 != 0 {
        return None;
    }
    let alt = if ac13 & 0x10 != 0 {
        let n = ((ac13 & 0x1f80) >> 2) | ((ac13 & 0x20) >> 1) | (ac13 & 0xf);
        n as i32 * 25 - 1000
    } else {
        if ac13 & 0x1500 == 0 {
            return None;
        }
        let mut h = 0i32;
        for (bit, x) in [(0x1000, 7), (0x400, 3), (0x100, 1)] {
            if ac13 & bit != 0 {
                h ^= x;
            }
        }
        if h & 5 != 0 {
            h ^= 5;
        }
        if h > 5 {
            return None;
        }
        let mut f = 0i32;
        for (bit, x) in [
            (0x10, 0x1ff),
            (0x4, 0xff),
            (0x1, 0x7f),
            (0x800, 0x3f),
            (0x200, 0x1f),
            (0x80, 0xf),
            (0x20, 0x7),
            (0x8, 0x3),
            (0x2, 0x1),
        ] {
            if ac13 & bit != 0 {
                f ^= x;
            }
        }
        if f & 1 != 0 {
            h = 6 - h;
        }
        500 * f + 100 * h - 1300
    };
    if (-1500..=75000).contains(&alt) {
        Some(alt)
    } else {
        None
    }
}

fn random_frames() -> Vec<Vec<u8>> {
    let mut s: u64 = 12345;
    let mut v = Vec::new();
    for i in 0..3000usize {
        let len = i % 16;
        let mut f = Vec::new();
        for _ in 0..len {
            s = s.wrapping_mul(6364136223846793005).wrapping_add(1442695040888963407);
            f.push((s >> 40) as u8);
        }
        v.push(f);
    }
    v
}

#[test]
fn parity_table_is_that_of_the_polynomial() {
    assert_eq!(make_crc_table(), table());
    assert_eq!(make_crc_table()[1], 0xfff409);
}

#[test]
fn parity_of_a_good_frame_is_zero() {
    assert_eq!(modes_crc_residual(&hex("8D4840D6202CC371C32CE0576098")), 0);
    assert_eq!(modes::crc_residual(&hex("8D4840D6202CC371C32CE0576098")), 0);
    assert_eq!(modes_crc_residual(&hex("8D4840D6202CC371C32CE0576099")), 1);
    assert_eq!(modes_crc_residual(&[]), 0);
    assert_eq!(modes_crc_residual(&[0x8d, 1, 2]), 0);
}

#[test]
fn parity_agrees_on_many_frames() {
    for f in random_frames() {
        assert_eq!(modes_crc_residual(&f), residual(&f));
        assert_eq!(modes::crc_residual(&f), residual(&f));
    }
}

#[test]
fn parity_recovers_an_address() {
    let mut f = vec![0x20u8, 0x00, 0x05, 0x30, 0, 0, 0];
    let parity = residual(&f);
    let address = 0x4b1234u32;
    let field = parity ^ address;
    f[4] = (field >> 16) as u8;
    f[5] = (field >> 8) as u8;
    f[6] = field as u8;
    assert_eq!(modes_crc_residual(&f), address);
    assert_eq!(extract_icao_and_df(&f), Some((4, address)));
    assert_eq!(modes::extract_icao_and_df(&f), Some((4, address)));
}

#[test]
fn altitude_codes_all_agree() {
    for code in 0..0x2000u32 {
        assert_eq!(decode_ac13(code), gillham(code), "{:x}", code);
    }
    assert_eq!(decode_ac13(0), None);
    assert_eq!(decode_ac13(0x0040), None);
    assert_eq!(decode_ac13(0x0010), Some(-1000));
    assert_eq!(decode_ac13(0x0c38), Some(18800));
}

#[test]
fn altitudes_of_frames() {
    assert_eq!(extract_altitude(&hex("8D40621D58C382D690C8AC2863A7")), None);
    assert_eq!(modes::extract_altitude(&hex("8D40621D58C382D690C8AC2863A7")), Some(38000));
    assert_eq!(extract_altitude(&hex("20000C38000000")), Some(18800));
    assert_eq!(modes::extract_altitude(&hex("20000C38000000")), Some(18800));
    assert_eq!(extract_altitude(&[]), None);
    assert_eq!(extract_altitude(&[0x20, 0]), None);
    assert_eq!(extract_altitude(&hex("5D4840D6000000")), None);
}

#[test]
fn squitter_altitudes_all_agree() {
    for tc in 0..32u32 {
        for code in (0..0x2000u32).step_by(3) {
            let mut f = vec![0x8d, 1, 2, 3, 0, 0, 0, 0, 0, 0, 0, 0, 0, 0];
            f[4] = ((tc << 3) | (code >> 10)) as u8;
            f[5] = (code >> 2) as u8;
            f[6] = (code << 6) as u8;
            let listed = (9..=18).contains(&tc) || (20..=22).contains(&tc);
            let expected = if listed && f[5] & 0x10 != 0 {
                let n = if code & 0x10 != 0 { ((code & 0xff0) >> 1) | (code & 0xf) } else { code };
                let alt = n as i32 * 25 - 1000;
                if (-1500..=75000).contains(&alt) {
                    Some(alt)
                } else {
                    None
                }
            } else {
                None
            };
            assert_eq!(extract_altitude(&f), expected, "{} {:x}", tc, code);
            let raw = ((f[5] as i32) << 4) | (f[6] as i32 >> 4);
            let plain = if listed && raw & 0x10 != 0 {
                Some((((raw & 0xfe0) >> 1) | (raw & 0xf)) * 25 - 1000)
            } else {
                None
            };
            assert_eq!(modes::extract_altitude(&f), plain, "{} {:x}", tc, code);
        }
    }
}

#[test]
fn addresses_of_frames() {
    assert_eq!(extract_icao_and_df(&hex("8D4840D6202CC371C32CE0576098")), Some((17, 0x4840d6)));
    assert_eq!(extract_icao_and_df(&hex("5D4840D6000000")), Some((11, 0x4840d6)));
    assert_eq!(extract_icao_and_df(&[]), None);
    assert_eq!(extract_icao_and_df(&[0x8d, 1]), None);
    assert_eq!(extract_icao_and_df(&[0xff, 1, 2, 3]), None);
    assert_eq!(extract_icao_and_df(&[0, 0, 0, 0, 0, 0, 0]), None);
    assert_eq!(modes::extract_icao_and_df(&[0xff, 1, 2, 3]), Some((31, 0)));
    assert_eq!(modes::extract_icao_and_df(&[0, 0, 0, 0, 0, 0, 0]), Some((0, 0)));
    assert_eq!(modes::extract_icao_and_df(&[0x8d, 1]), None);
}

#[test]
fn raw_timestamps() {
    assert!(extract_raw_timestamps(&[0; 13]).is_none());
    let f: Vec<u8> = (1..=14).collect();
    let r = extract_raw_timestamps(&f).unwrap();
    assert_eq!(r.0, 0x0a090807);
    assert_eq!(r.1, 0x0e0d0c0b);
    assert_eq!(r.2, 0x06050403);
    assert!(r.3.is_none());
}
