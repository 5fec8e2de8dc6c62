use mlat_server::options::{packet_len, parse_args, read_proxy_line};
use mlat_server::protocol::{
    aircraft_of, message_of, read_aircraft, read_message, Sighting, Source,
};
use mlat_server::scalar::Scalar;

fn sc(x: f64) -> Scalar {
    Scalar::new(x.to_bits())
}

#[test]
fn other_lines_are_no_messages() {
    assert!(read_message("").is_none());
    assert!(read_message("{").is_none());
    assert!(read_message("hello").is_none());
    let m = read_message("  {} \n").unwrap();
    assert!(m.rate_report.is_none());
    assert!(m.seen.is_none());
    assert!(m.sync.is_none());
    assert!(m.mlat.is_none());
    assert!(read_message("[1,2]").unwrap().seen.is_none());
}

#[test]
fn rate_reports() {
    let m = read_message(
        r#"{"rate_report":{"4840D6":0.06,"400000":0.05,"zz":1.0,"a":2,"b":"1","c":-1,"123456789":9}}"#,
    )
    .unwrap();
    assert_eq!(m.rate_report, Some(vec![0x4840d6, 0xa]));
    assert_eq!(read_message(r#"{"rate_report":[1]}"#).unwrap().rate_report, None);
}

#[test]
fn seen_lists() {
    let m = read_message(r#"{"seen":["4840d6", "xyz", 4276803, -1, 4294967297, null, "+ff"]}"#).unwrap();
    assert_eq!(m.seen, Some(vec![0x4840d6, 4276803, 1, 0xff]));
    assert_eq!(read_message(r#"{"seen":{}}"#).unwrap().seen, None);
    assert_eq!(read_message(r#"{"seen":[]}"#).unwrap().seen, Some(Vec::<u32>::new()));
}

#[test]
fn sync_reports() {
    let m = read_message(r#"{"sync":{"et":1.5,"ot":2,"em":"8d01","om":"ff"}}"#).unwrap();
    let s = m.sync.unwrap();
    assert_eq!((s.even_ts, s.odd_ts), (sc(1.5), sc(2.0)));
    assert_eq!((s.even, s.odd), (vec![0x8d, 1], vec![0xff]));
    for line in [
        r#"{"sync":{"ot":2,"em":"8d01","om":"ff"}}"#,
        r#"{"sync":{"et":1.5,"ot":2,"em":"8d0","om":"ff"}}"#,
        r#"{"sync":{"et":"1","ot":2,"em":"8d01","om":"ff"}}"#,
        r#"{"sync":{"et":1.5,"ot":2,"em":"8d01"}}"#,
        r#"{"sync":7}"#,
    ] {
        assert!(read_message(line).unwrap().sync.is_none(), "{}", line);
    }
}

#[test]
fn frame_reports() {
    let f = read_message(r#"{"mlat":{"t":1.25,"m":"8d01"}}"#).unwrap().mlat.unwrap();
    assert_eq!((f.ts, f.payload), (sc(1.25), vec![0x8d, 1]));
    let f = read_message(r#"{"mlat":{"ts":18446744073709551615,"msg":""}}"#).unwrap().mlat.unwrap();
    assert_eq!((f.ts, f.payload), (sc(18446744073709551615.0), Vec::<u8>::new()));
    assert!(read_message(r#"{"mlat":{"t":"x","ts":1,"m":"8d01"}}"#).unwrap().mlat.is_none());
    assert!(read_message(r#"{"mlat":{"t":1}}"#).unwrap().mlat.is_none());
    assert!(read_message(r#"{"mlat":{"t":1,"m":"8"}}"#).unwrap().mlat.is_none());
}

#[test]
fn documents_say_what_their_lines_say() {
    let v: serde_json::Value = serde_json::from_str(r#"{"seen":["a"],"mlat":{"t":1,"m":"00"}}"#).unwrap();
    let m = message_of(&v);
    assert_eq!(m.seen, Some(vec![10]));
    assert_eq!(m.mlat.unwrap().payload, vec![0]);
}

fn one(ac: &str) -> Option<Sighting> {
    let v = read_aircraft(format!(r#"{{"aircraft":[{}]}}"#, ac).as_bytes());
    assert!(v.len() <= 1);
    v.first().copied()
}

#[test]
fn decoder_tells_how_it_knows_a_position() {
    let s = one(r#"{"hex":"4840d6","type":"adsb_icao","lat":1,"lon":2,"seen_pos":5,"alt_baro":1000}"#);
    assert_eq!(
        s,
        Some(Sighting { icao: 0x4840d6, altitude: Some(1000), source: Source::Adsb })
    );
    let source = |ac: &str| one(ac).unwrap().source;
    assert_eq!(source(r#"{"hex":"1","type":"adsb_icao","lat":1,"lon":2}"#), Source::Adsb);
    assert_eq!(source(r#"{"hex":"1","type":"adsb_icao","lat":1,"lon":2,"seen_pos":5.1}"#), Source::Mlat);
    assert_eq!(source(r#"{"hex":"1","type":"adsb_icao","lat":1}"#), Source::Mlat);
    assert_eq!(source(r#"{"hex":"1","type":"mlat","lat":1,"lon":2}"#), Source::Mlat);
    assert_eq!(source(r#"{"hex":"1","type":"mode_s","lat":1,"lon":2}"#), Source::Mlat);
    assert_eq!(source(r#"{"hex":"1","type":"tisb","lat":1,"lon":2}"#), Source::Other);
    assert_eq!(source(r#"{"hex":"1","lat":1,"lon":2}"#), Source::Other);
    assert_eq!(source(r#"{"hex":"1"}"#), Source::Mlat);
}

#[test]
fn decoder_altitudes_are_integers() {
    let altitude = |a: &str| one(&format!(r#"{{"hex":"1","alt_baro":{}}}"#, a)).unwrap().altitude;
    assert_eq!(altitude("-25"), Some(-25));
    assert_eq!(altitude("\"ground\""), None);
    assert_eq!(altitude("1.5"), None);
    assert_eq!(altitude("4294967295"), Some(-1));
    assert_eq!(altitude("-4294967297"), Some(-1));
    assert_eq!(altitude("2147483648"), Some(i32::MIN));
    assert_eq!(altitude("18446744073709551615"), None);
}

#[test]
fn aircraft_without_an_address_are_passed_over() {
    assert_eq!(one(r#"{"type":"mlat"}"#), None);
    assert_eq!(one(r#"{"hex":"~abc"}"#), None);
    assert_eq!(one(r#"7"#), None);
    assert!(read_aircraft(b"nonsense").is_empty());
    assert!(read_aircraft(b"{}").is_empty());
    assert!(read_aircraft(b"{\"aircraft\":1}").is_empty());
    let v: serde_json::Value =
        serde_json::from_str(r#"{"aircraft":[{"hex":"a"},{"hex":"x"},{"hex":"b"}]}"#).unwrap();
    let r: Vec<u32> = aircraft_of(&v).iter().map(|s| s.icao).collect();
    assert_eq!(r, vec![0xa, 0xb]);
}

fn args(list: &[&str]) -> Vec<String> {
    list.iter().map(|s| s.to_string()).collect()
}

#[test]
fn options_have_defaults() {
    let o = parse_args(&args(&["server"]), None, None, None);
    assert_eq!(o.client_listen, "0.0.0.0:41113");
    assert_eq!(o.sbs_listen, "127.0.0.1:32007");
    assert_eq!(o.work_dir, "/var/lib/mlat-server");
    let o = parse_args(
        &args(&[]),
        Some("a".to_string()),
        Some("b".to_string()),
        Some("c".to_string()),
    );
    assert_eq!((o.client_listen.as_str(), o.sbs_listen.as_str()), ("a", "b"));
    assert_eq!(o.work_dir, "c");
}

#[test]
fn options_are_read() {
    let o = parse_args(
        &args(&[
            "server",
            "--client-listen",
            "1234",
            "junk",
            "--basestation-listen",
            "1.2.3.4:5",
            "--work-dir",
            "/tmp/x",
        ]),
        Some("env".to_string()),
        None,
        None,
    );
    assert_eq!(o.client_listen, "0.0.0.0:1234");
    assert_eq!(o.sbs_listen, "1.2.3.4:5");
    assert_eq!(o.work_dir, "/tmp/x");
    let o = parse_args(&args(&["s", "--basestation-listen", "99", "--work-dir"]), None, None, None);
    assert_eq!(o.sbs_listen, "127.0.0.1:99");
    assert_eq!(o.work_dir, "/var/lib/mlat-server");
    let o = parse_args(&args(&["--client-listen", "1", "2"]), None, None, None);
    assert_eq!(o.client_listen, "0.0.0.0:41113");
}

#[test]
fn proxy_names_the_source() {
    assert_eq!(
        read_proxy_line("PROXY TCP4 192.0.2.1 10.0.0.1 1000 2000\r\n"),
        (true, Some("192.0.2.1".to_string()))
    );
    assert_eq!(read_proxy_line("PROXY UNKNOWN\r\n"), (true, None));
    assert_eq!(read_proxy_line("PROXY  a\u{3000}b c"), (true, Some("b".to_string())));
    assert_eq!(read_proxy_line("{\"user\":\"PROXY a b\"}"), (false, None));
    assert_eq!(read_proxy_line("PROXY"), (false, None));
}

#[test]
fn packet_lengths() {
    assert_eq!(packet_len(0, 0), None);
    assert_eq!(packet_len(0, 1), Some(1));
    assert_eq!(packet_len(1, 2), Some(258));
    assert_eq!(packet_len(255, 255), Some(65535));
}
