use flate2::write::GzEncoder;
use flate2::Compression;
use mlat_server::beacons::{beacons_of, blacklisted_address, listed_address};
use mlat_server::coordinates::GeodeticPoint;
use mlat_server::fixed::format_fixed6;
use mlat_server::messages;
use mlat_server::sbs;
use mlat_server::scalar::Scalar;
use mlat_server::text::format_icao;
use mlat_server::tracker::AircraftTracker;
use std::io::Write;

fn sc(x: f64) -> Scalar {
    Scalar::new(x.to_bits())
}

fn at(lat: f64, lon: f64) -> GeodeticPoint {
    GeodeticPoint::new(sc(lat), sc(lon), sc(0.0))
}

#[test]
fn six_decimals_agree_with_the_machine() {
    for x in [
        0.0,
        -0.0,
        0.0078125,
        0.0234375,
        -0.0078125,
        1e-7,
        5e-7,
        4.9e-7,
        -4.9e-7,
        0.9999995,
        0.99999949,
        1.0,
        45.123456789,
        -179.9999999,
        123456789.123456789,
        4503599627370496.5,
        9007199254740993.0,
        1e22,
        1.7976931348623157e308,
        5e-324,
        f64::NAN,
        f64::INFINITY,
        f64::NEG_INFINITY,
    ] {
        assert_eq!(format_fixed6(sc(x)), format!("{:.6}", x));
    }
    let mut s: u64 = 4711;
    for i in 0..4000 {
        s = s.wrapping_mul(6364136223846793005).wrapping_add(1442695040888963407);
        let x = if i % 4 == 0 {
            f64::from_bits(s)
        } else {
            ((s >> 11) as f64 / 9007199254740992.0 - 0.5) * 360.0
        };
        assert_eq!(format_fixed6(sc(x)), format!("{:.6}", x));
    }
}

#[test]
fn record_of_a_multilaterated_position() {
    let r = messages::format_sbs_msg3(
        "4840D6",
        &at(45.123456, -9.0000006),
        Some(sc(359.5)),
        Some(sc(250.4)),
        Some(38000),
        Some(-64),
        5,
        1431648000,
        123_999_999,
    );
    assert_eq!(
        r.unwrap(),
        "MSG,3,1,1,4840D6,1,2015/05/15,00:00:00.123,2015/05/15,00:00:00.123,,38000,250,360,45.123456,-9.000001,-64,,5,,,0\r\n"
    );
    let r = messages::format_sbs_msg3("0A", &at(1.0, 2.0), None, None, None, None, 0, 86399, 0);
    assert_eq!(
        r.unwrap(),
        "MSG,3,1,1,0A,1,1970/01/01,23:59:59.000,1970/01/01,23:59:59.000,,,,,1.000000,2.000000,,,0,,,0\r\n"
    );
}

#[test]
fn record_of_a_position() {
    let r = sbs::format_sbs_msg3("4840d6", &at(45.1, 9.2), Some("AZA1"), Some(-100), 4, 0, 5_000_000);
    assert_eq!(
        r.unwrap(),
        "MSG,3,1,1,4840D6,1,1970/01/01,00:00:00.005,1970/01/01,00:00:00.005,AZA1,-100,,,45.100000,9.200000,,,4,,,\n"
    );
    let r = sbs::format_sbs_msg3("a", &at(1.0, 2.0), None, None, 0, 0, 0).unwrap();
    assert_eq!(
        r,
        "MSG,3,1,1,A,1,1970/01/01,00:00:00.000,1970/01/01,00:00:00.000,,,,,1.000000,2.000000,,,,,,\n"
    );
    assert_eq!(r.split(',').count(), 22);
}

#[test]
fn moments_out_of_range_have_no_record() {
    assert!(sbs::format_sbs_msg3("a", &at(1.0, 2.0), None, None, 0, i64::MAX, 0).is_none());
    assert!(sbs::format_sbs_msg3("a", &at(1.0, 2.0), None, None, 0, 0, 2_000_000_000).is_none());
    assert!(messages::format_sbs_msg3("a", &at(1.0, 2.0), None, None, None, None, 0, i64::MIN, 0).is_none());
    assert!(sbs::format_sbs_msg3("a", &at(1.0, 2.0), None, None, 0, 253_402_300_799, 0).is_some());
}

#[test]
fn lines_of_given_texts() {
    assert_eq!(
        messages::msg3_line("X", "D", "T", &at(-0.0, 180.0), None, Some(sc(0.5)), None, Some(0), 12),
        "MSG,3,1,1,X,1,D,T,D,T,,,1,,-0.000000,180.000000,0,,12,,,0\r\n"
    );
    assert_eq!(
        sbs::sbs_line("X", "D", "T", None, Some(i32::MIN), &at(0.5, -0.25), 10),
        "MSG,3,1,1,X,1,D,T,D,T,,-2147483648,,,0.500000,-0.250000,,,10,,,\n"
    );
    assert_eq!(
        messages::msg3_line("X", "D", "T", &at(-0.0, 180.0), None, None, None, None, 3).split(',').count(),
        22
    );
}

#[test]
fn addresses_as_text() {
    assert_eq!(format_icao(0xabc, false), "000abc");
    assert_eq!(format_icao(0x4840d6, true), "4840D6");
    assert_eq!(format_icao(0, false), "000000");
    assert_eq!(format_icao(0xffffffff, false), "ffffffff");
    for x in [0u32, 1, 0x4840d6, 0xffffff, u32::MAX] {
        assert_eq!(u32::from_str_radix(&format_icao(x, false), 16), Ok(x));
        assert_eq!(u32::from_str_radix(&format_icao(x, true), 16), Ok(x));
    }
}

#[test]
fn ground_stations_are_listed() {
    assert_eq!(listed_address("4CA001;EI-ABC;TWR;x"), Some(0x4ca001));
    for kind in ["twr", "GND", "Obst", "MAST", "radar"] {
        assert_eq!(listed_address(&format!(" 4ca001 ;;{}", kind)), Some(0x4ca001));
    }
    for reg in ["TWR", "gnd", "SSM2", "ssm"] {
        assert_eq!(listed_address(&format!("4ca001;{};A320", reg)), Some(0x4ca001));
    }
    assert_eq!(listed_address("4ca001;EI-ABC;A320"), None);
    assert_eq!(listed_address("4ca001;EI-ABC;TWR2"), None);
    assert_eq!(listed_address("4ca001;TWR"), None);
    assert_eq!(listed_address("xyz;TWR;"), None);
    assert_eq!(listed_address(""), None);
}

#[test]
fn blacklist_lines() {
    assert_eq!(blacklisted_address("  4ca001 \r"), Some(0x4ca001));
    assert_eq!(blacklisted_address("# 4ca001"), None);
    assert_eq!(blacklisted_address("   "), None);
    assert_eq!(blacklisted_address("4ca001 x"), None);
}

#[test]
fn beacons_of_both_files() {
    let set = beacons_of(b"000001;;TWR\r\n000002;;A320\n\xff;;TWR\n000003;GND;", b"#no\n4\n\n000005");
    let mut v: Vec<u32> = set.into_iter().collect();
    v.sort();
    assert_eq!(v, vec![1, 3, 4, 5, 0x7cf7cb]);
    let set = beacons_of(b"", b"");
    assert_eq!(set.len(), 1);
    assert!(set.contains(&0x7cf7cb));
}

#[test]
fn packed_list_is_unpacked() {
    let mut e = GzEncoder::new(Vec::new(), Compression::default());
    e.write_all(b"000011;;MAST\n000012;;B738\n").unwrap();
    let packed = e.finish().unwrap();
    let set = AircraftTracker::load_fixed_beacons(Some(&packed), Some(b"13\n"));
    let mut v: Vec<u32> = set.into_iter().collect();
    v.sort();
    assert_eq!(v, vec![0x11, 0x13, 0x7cf7cb]);
    assert_eq!(AircraftTracker::load_fixed_beacons(None, None).len(), 1);
    assert!(AircraftTracker::load_fixed_beacons(Some(b"junk"), Some(b"13\n")).contains(&0x13));
}

#[test]
fn dates_follow_the_calendar() {
    for (secs, date) in [
        (0i64, "1970/01/01"),
        (951_782_400, "2000/02/29"),
        (951_868_800, "2000/03/01"),
        (1_709_164_800, "2024/02/29"),
        (4_107_542_400, "2100/03/01"),
        (253_402_300_799, "9999/12/31"),
    ] {
        let r = sbs::format_sbs_msg3("a", &at(1.0, 2.0), None, None, 0, secs, 0).unwrap();
        assert_eq!(r.split(',').nth(6), Some(date));
    }
}

// The days from the start of 1970 to a day, as the contract of the dates counts them.
fn day_number(year: i64, month: usize, day: i64) -> i64 {
    let before = [0, 31, 59, 90, 120, 151, 181, 212, 243, 273, 304, 334, 365];
    let leap = year % 4 == 0 && (year % 100 != 0 || year % 400 == 0);
    let y = year - 1;
    365 * y + y / 4 - y / 100 + y / 400 + before[month - 1] + if leap && month > 2 { 1 } else { 0 } + day
        - 719_163
}

#[test]
fn dates_agree_with_the_count_of_days() {
    for day in (0..2_932_896i64).step_by(997) {
        let r = sbs::format_sbs_msg3("a", &at(1.0, 2.0), None, None, 0, day * 86_400 + 5, 0).unwrap();
        let date: Vec<i64> = r.split(',').nth(6).unwrap().split('/').map(|x| x.parse().unwrap()).collect();
        assert_eq!(day_number(date[0], date[1] as usize, date[2]), day);
    }
}

#[test]
fn records_have_22_fields() {
    for secs in [0i64, 86_399, 951_782_400, 253_402_300_799] {
        for nanos in [0u32, 999_999_999] {
            let r = sbs::format_sbs_msg3("4ca0ff", &at(-1.5, 2.0), Some("EIN1"), Some(-7), 3, secs, nanos);
            let r = r.unwrap();
            assert_eq!(r.split(',').count(), 22);
            assert_eq!(r.split(',').nth(4), Some("4CA0FF"));
            let m = messages::format_sbs_msg3(
                "4CA0FF", &at(-1.5, 2.0), None, Some(sc(1.0)), None, Some(-64), 3, secs, nanos,
            );
            assert_eq!(m.unwrap().split(',').count(), 22);
        }
    }
}
