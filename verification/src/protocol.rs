//! What receivers and the local decoder report.

use crate::frames::{hex_bytes, hex_to_bytes};
use crate::json::{
    contents_at, contents_of, items, json_contents, json_of_bytes, json_of_text, member, member_of,
    members, number, number_at, number_in, parse_bytes, parse_text, signed, text, text_at, text_in,
    unsigned, Json,
};
use crate::scalar::{lemma_units, one, Scalar};
use crate::text::{chars_of, parse_hex, parsed_hex, text_eq, trimmed};
use serde_json::Value;
use vstd::arithmetic::power2::{lemma2_to64, lemma2_to64_rest, lemma_pow2_pos, pow2};
use vstd::prelude::*;

verus! {

/// 0.05: above so many messages in a second an aircraft counts as heard.
pub const MIN_RATE: u64 = 0x3fa9_9999_9999_999a;

/// A pair of position frames of one aircraft: when each was heard, in ticks of the receiver's
/// clock, and its bytes.
#[derive(Debug)]
pub struct SyncReport {
    pub even_ts: Scalar,
    pub odd_ts: Scalar,
    pub even: Vec<u8>,
    pub odd: Vec<u8>,
}

/// A frame: when it was heard, in ticks of the receiver's clock, and its bytes.
#[derive(Debug)]
pub struct FrameReport {
    pub ts: Scalar,
    pub payload: Vec<u8>,
}

/// A line from a receiver.
#[derive(Debug)]
pub struct Message {
    /// The aircraft that are heard often enough.
    pub rate_report: Option<Vec<u32>>,
    /// The aircraft that were heard.
    pub seen: Option<Vec<u32>>,
    pub sync: Option<SyncReport>,
    pub mlat: Option<FrameReport>,
}

/// The addresses of a rate report.
pub open spec fn rate_addresses(members: Seq<(Seq<char>, Json)>) -> Seq<u32>
    decreases members.len(),
{
    if members.len() == 0 {
        Seq::empty()
    } else {
        let before = rate_addresses(members.drop_last());
        let (name, rate) = members.last();
        match (rate.number(), parsed_hex(name)) {
            (Some(r), Some(icao)) => if (Scalar { bits: MIN_RATE }).less(r) {
                before.push(icao)
            } else {
                before
            },
            _ => before,
        }
    }
}

/// The address that an item stands for: a text in base 16, or a number, of which the lower 32
/// bits count.
pub open spec fn item_address(item: Json) -> Option<u32> {
    match item.text() {
        Some(s) => parsed_hex(s),
        None => match item.unsigned() {
            Some(n) => Some((n % 0x1_0000_0000) as u32),
            None => None,
        },
    }
}

/// The addresses of a list.
pub open spec fn list_addresses(items: Seq<Json>) -> Seq<u32>
    decreases items.len(),
{
    if items.len() == 0 {
        Seq::empty()
    } else {
        let before = list_addresses(items.drop_last());
        match item_address(items.last()) {
            Some(icao) => before.push(icao),
            None => before,
        }
    }
}

/// The bytes of a text in base 16 that may be there.
pub open spec fn bytes_at(j: Option<Json>) -> Option<Seq<u8>> {
    match text_at(j) {
        Some(s) => hex_bytes(s),
        None => None,
    }
}

/// The first of two members that is there.
pub open spec fn either(j: Json, name: Seq<char>, other: Seq<char>) -> Option<Json> {
    match j.member(name) {
        Some(m) => Some(m),
        None => j.member(other),
    }
}

/// The addresses of the rate report of a message.
pub open spec fn rates_in(j: Json) -> Option<Seq<u32>> {
    match j.member("rate_report"@) {
        Some(r) => match r.members() {
            Some(m) => Some(rate_addresses(m)),
            None => None,
        },
        None => None,
    }
}

/// The addresses that a message says were heard.
pub open spec fn seen_in(j: Json) -> Option<Seq<u32>> {
    match j.member("seen"@) {
        Some(l) => match l.items() {
            Some(items) => Some(list_addresses(items)),
            None => None,
        },
        None => None,
    }
}

/// The pair of frames in a message: two times and the bytes of the two frames.
pub open spec fn sync_in(j: Json) -> Option<(Scalar, Scalar, Seq<u8>, Seq<u8>)> {
    let s = j.member("sync"@);
    match (
        number_at(member_of(s, "et"@)),
        number_at(member_of(s, "ot"@)),
        bytes_at(member_of(s, "em"@)),
        bytes_at(member_of(s, "om"@)),
    ) {
        (Some(et), Some(ot), Some(em), Some(om)) => Some((et, ot, em, om)),
        _ => None,
    }
}

/// The frame in a message: a time and its bytes.
pub open spec fn mlat_in(j: Json) -> Option<(Scalar, Seq<u8>)> {
    match j.member("mlat"@) {
        Some(m) => match (number_at(either(m, "t"@, "ts"@)), bytes_at(either(m, "m"@, "msg"@))) {
            (Some(t), Some(b)) => Some((t, b)),
            _ => None,
        },
        None => None,
    }
}

/// A message says what a document holds.
pub open spec fn says(m: Message, j: Json) -> bool {
    &&& match m.rate_report {
        Some(l) => rates_in(j) == Some(l@),
        None => rates_in(j) is None,
    }
    &&& match m.seen {
        Some(l) => seen_in(j) == Some(l@),
        None => seen_in(j) is None,
    }
    &&& match m.sync {
        Some(s) => sync_in(j) == Some((s.even_ts, s.odd_ts, s.even@, s.odd@)),
        None => sync_in(j) is None,
    }
    &&& match m.mlat {
        Some(f) => mlat_in(j) == Some((f.ts, f.payload@)),
        None => mlat_in(j) is None,
    }
}

/// The address that a text stands for in base 16.
fn address(s: &str) -> (r: Option<u32>)
    ensures
        r == parsed_hex(s@),
{
    parse_hex(chars_of(s).as_slice())
}

fn read_rates(v: &Value) -> (r: Option<Vec<u32>>)
    ensures
        match r {
            Some(l) => rates_in(json_contents(*v)) == Some(l@),
            None => rates_in(json_contents(*v)) is None,
        },
{
    let report = match member(v, "rate_report") {
        Some(x) => x,
        None => return None,
    };
    let list = match members(report) {
        Some(l) => l,
        None => return None,
    };
    let ghost all = json_contents(*report).members()->Some_0;
    let mut r: Vec<u32> = Vec::new();
    let mut i: usize = 0;
    assert(all.take(0) =~= Seq::<(Seq<char>, Json)>::empty());
    assert(r@ =~= rate_addresses(all.take(0)));
    while i < list.len()
        invariant
            i <= list@.len(),
            all == list@.map_values(|m: (String, &Value)| (m.0@, json_contents(*m.1))),
            r@ == rate_addresses(all.take(i as int)),
        decreases list@.len() - i,
    {
        proof {
            assert(all.take(i + 1).drop_last() =~= all.take(i as int));
            assert(all.take(i + 1).last() == all[i as int]);
        }
        if let Some(rate) = number(list[i].1) {
            if Scalar::new(MIN_RATE).lt(rate) {
                if let Some(icao) = address(list[i].0.as_str()) {
                    r.push(icao);
                }
            }
        }
        i += 1;
    }
    assert(all.take(i as int) =~= all);
    Some(r)
}

fn read_seen(v: &Value) -> (r: Option<Vec<u32>>)
    ensures
        match r {
            Some(l) => seen_in(json_contents(*v)) == Some(l@),
            None => seen_in(json_contents(*v)) is None,
        },
{
    let report = match member(v, "seen") {
        Some(x) => x,
        None => return None,
    };
    let list = match items(report) {
        Some(l) => l,
        None => return None,
    };
    let ghost all = json_contents(*report).items()->Some_0;
    let mut r: Vec<u32> = Vec::new();
    let mut i: usize = 0;
    assert(all.take(0) =~= Seq::<Json>::empty());
    assert(r@ =~= list_addresses(all.take(0)));
    while i < list.len()
        invariant
            i <= list@.len(),
            all == contents_of(list@),
            r@ == list_addresses(all.take(i as int)),
        decreases list@.len() - i,
    {
        proof {
            assert(all.take(i + 1).drop_last() =~= all.take(i as int));
            assert(all.take(i + 1).last() == all[i as int]);
        }
        match text(&list[i]) {
            Some(s) => {
                if let Some(icao) = address(s) {
                    r.push(icao);
                }
            },
            None => {
                if let Some(n) = unsigned(&list[i]) {
                    r.push((n % 0x1_0000_0000) as u32);
                }
            },
        }
        i += 1;
    }
    assert(all.take(i as int) =~= all);
    Some(r)
}

/// The bytes of a text in base 16 that may be there.
fn bytes_in(v: Option<&Value>) -> (r: Option<Vec<u8>>)
    ensures
        match r {
            Some(b) => bytes_at(contents_at(v)) == Some(b@),
            None => bytes_at(contents_at(v)) is None,
        },
{
    match text_in(v) {
        Some(s) => hex_to_bytes(s),
        None => None,
    }
}

fn read_sync(v: &Value) -> (r: Option<SyncReport>)
    ensures
        match r {
            Some(s) => sync_in(json_contents(*v)) == Some((s.even_ts, s.odd_ts, s.even@, s.odd@)),
            None => sync_in(json_contents(*v)) is None,
        },
{
    let s = match member(v, "sync") {
        Some(x) => x,
        None => return None,
    };
    match (
        number_in(member(s, "et")),
        number_in(member(s, "ot")),
        bytes_in(member(s, "em")),
        bytes_in(member(s, "om")),
    ) {
        (Some(even_ts), Some(odd_ts), Some(even), Some(odd)) => Some(
            SyncReport { even_ts, odd_ts, even, odd },
        ),
        _ => None,
    }
}

/// The first of two members that is there.
fn member_or<'a>(v: &'a Value, name: &str, other: &str) -> (r: Option<&'a Value>)
    ensures
        contents_at(r) == either(json_contents(*v), name@, other@),
{
    match member(v, name) {
        Some(x) => Some(x),
        None => member(v, other),
    }
}

fn read_mlat(v: &Value) -> (r: Option<FrameReport>)
    ensures
        match r {
            Some(f) => mlat_in(json_contents(*v)) == Some((f.ts, f.payload@)),
            None => mlat_in(json_contents(*v)) is None,
        },
{
    let m = match member(v, "mlat") {
        Some(x) => x,
        None => return None,
    };
    match (number_in(member_or(m, "t", "ts")), bytes_in(member_or(m, "m", "msg"))) {
        (Some(ts), Some(payload)) => Some(FrameReport { ts, payload }),
        _ => None,
    }
}

/// What a document says as a message.
pub fn message_of(v: &Value) -> (m: Message)
    ensures
        says(m, json_contents(*v)),
{
    Message {
        rate_report: read_rates(v),
        seen: read_seen(v),
        sync: read_sync(v),
        mlat: read_mlat(v),
    }
}

/// The message in a line; none where the line is no JSON document.
pub fn read_message(line: &str) -> (r: Option<Message>)
    ensures
        match r {
            Some(m) => json_of_text(trimmed(line@)) matches Some(j) && says(m, j),
            None => json_of_text(trimmed(line@)) is None,
        },
{
    match parse_text(line.trim()) {
        Some(v) => Some(message_of(&v)),
        None => None,
    }
}

/// How the local decoder knows an aircraft's position.
#[derive(Clone, Copy, Debug, PartialEq, Eq, Structural)]
pub enum Source {
    /// Not from the aircraft, or not lately: it is to be multilaterated.
    Mlat,
    /// From the aircraft itself, lately.
    Adsb,
    /// In some other way.
    Other,
}

/// An aircraft that the local decoder knows.
#[derive(Clone, Copy, Debug, PartialEq, Eq, Structural)]
pub struct Sighting {
    pub icao: u32,
    pub altitude: Option<i32>,
    pub source: Source,
}

/// How the decoder knows the position of an aircraft.
pub open spec fn source_in(ac: Json) -> Source {
    let kind = match text_at(ac.member("type"@)) {
        Some(s) => s,
        None => Seq::empty(),
    };
    let age = match number_at(ac.member("seen_pos"@)) {
        Some(n) => n,
        None => Scalar { bits: 0 },
    };
    let placed = ac.member("lat"@) is Some && ac.member("lon"@) is Some;
    if kind == "mlat"@ || kind == "mode_s"@ || !placed || age.above(5, 1) {
        Source::Mlat
    } else if kind == "adsb_icao"@ && !age.is_nan() {
        Source::Adsb
    } else {
        Source::Other
    }
}

/// The lower 32 bits of an integer, as a number with a sign.
pub open spec fn low_word(n: i64) -> i32 {
    let low = n as int % 0x1_0000_0000;
    if low < 0x8000_0000 {
        low as i32
    } else {
        (low - 0x1_0000_0000) as i32
    }
}

/// An aircraft in the decoder's list; none where it has no address.
pub open spec fn sighting_in(ac: Json) -> Option<Sighting> {
    match text_at(ac.member("hex"@)) {
        Some(hex) => match parsed_hex(hex) {
            Some(icao) => Some(
                Sighting {
                    icao,
                    altitude: match ac.member("alt_baro"@) {
                        Some(a) => match a.signed() {
                            Some(n) => Some(low_word(n)),
                            None => None,
                        },
                        None => None,
                    },
                    source: source_in(ac),
                },
            ),
            None => None,
        },
        None => None,
    }
}

/// The aircraft of the decoder's list.
pub open spec fn sightings(list: Seq<Json>) -> Seq<Sighting>
    decreases list.len(),
{
    if list.len() == 0 {
        Seq::empty()
    } else {
        let before = sightings(list.drop_last());
        match sighting_in(list.last()) {
            Some(s) => before.push(s),
            None => before,
        }
    }
}

/// The aircraft in a document of the decoder.
pub open spec fn sightings_in(j: Json) -> Seq<Sighting> {
    match j.member("aircraft"@) {
        Some(l) => match l.items() {
            Some(list) => sightings(list),
            None => Seq::empty(),
        },
        None => Seq::empty(),
    }
}

fn read_source(ac: &Value) -> (r: Source)
    ensures
        r == source_in(json_contents(*ac)),
{
    let kind: &str = match text_in(member(ac, "type")) {
        Some(s) => s,
        None => "",
    };
    proof {
        reveal_strlit("");
        assert(""@ =~= Seq::<char>::empty());
    }
    let age: Scalar = match number_in(member(ac, "seen_pos")) {
        Some(n) => n,
        None => Scalar::zero(),
    };
    let placed: bool = member(ac, "lat").is_some() && member(ac, "lon").is_some();
    if text_eq(kind, "mlat") || text_eq(kind, "mode_s") || !placed || age.exceeds(5, 1) {
        Source::Mlat
    } else if text_eq(kind, "adsb_icao") && !age.nan() {
        Source::Adsb
    } else {
        Source::Other
    }
}

/// The lower 32 bits of an integer, as a number with a sign.
fn truncated(n: i64) -> (r: i32)
    ensures
        r == low_word(n),
{
    let big: i128 = n as i128 + 0x8000_0000_0000_0000;
    assert(0x8000_0000_0000_0000int % 0x1_0000_0000 == 0);
    let low: i128 = big % 0x1_0000_0000;
    assert(low == n as int % 0x1_0000_0000) by (nonlinear_arith)
        requires
            big == n as int + 0x8000_0000_0000_0000,
            low == big as int % 0x1_0000_0000,
    ;
    if low < 0x8000_0000 {
        low as i32
    } else {
        (low - 0x1_0000_0000) as i32
    }
}

fn read_sighting(ac: &Value) -> (r: Option<Sighting>)
    ensures
        r == sighting_in(json_contents(*ac)),
{
    let icao: u32 = match text_in(member(ac, "hex")) {
        Some(hex) => match address(hex) {
            Some(icao) => icao,
            None => return None,
        },
        None => return None,
    };
    let altitude: Option<i32> = match member(ac, "alt_baro") {
        Some(a) => match signed(a) {
            Some(n) => Some(truncated(n)),
            None => None,
        },
        None => None,
    };
    Some(Sighting { icao, altitude, source: read_source(ac) })
}

/// The aircraft in a document of the local decoder.
pub fn aircraft_of(v: &Value) -> (r: Vec<Sighting>)
    ensures
        r@ == sightings_in(json_contents(*v)),
{
    let mut r: Vec<Sighting> = Vec::new();
    let report = match member(v, "aircraft") {
        Some(x) => x,
        None => return r,
    };
    let list = match items(report) {
        Some(l) => l,
        None => return r,
    };
    let ghost all = json_contents(*report).items()->Some_0;
    let mut i: usize = 0;
    assert(all.take(0) =~= Seq::<Json>::empty());
    while i < list.len()
        invariant
            i <= list@.len(),
            all == contents_of(list@),
            r@ == sightings(all.take(i as int)),
        decreases list@.len() - i,
    {
        proof {
            assert(all.take(i + 1).drop_last() =~= all.take(i as int));
            assert(all.take(i + 1).last() == all[i as int]);
        }
        if let Some(s) = read_sighting(&list[i]) {
            r.push(s);
        }
        i += 1;
    }
    assert(all.take(i as int) =~= all);
    r
}

/// The aircraft in a file of the local decoder; none where it is no JSON document.
pub fn read_aircraft(bytes: &[u8]) -> (r: Vec<Sighting>)
    ensures
        r@ == (match json_of_bytes(bytes@) {
            Some(j) => sightings_in(j),
            None => Seq::empty(),
        }),
{
    match parse_bytes(bytes) {
        Some(v) => aircraft_of(&v),
        None => Vec::new(),
    }
}

/// A rate report names the aircraft that are heard more often than once in 20 seconds, in their
/// order; what is no address is passed over.
pub proof fn law_rates_above_a_twentieth(members: Seq<(Seq<char>, Json)>)
    ensures
        rate_addresses(members) == members.filter_map(
            |m: (Seq<char>, Json)|
                match (m.1.number(), parsed_hex(m.0)) {
                    (Some(r), Some(icao)) => if (Scalar { bits: MIN_RATE }).less(r) {
                        Some(icao)
                    } else {
                        None
                    },
                    _ => None,
                },
        ),
        49_999_999 * one() <= 1_000_000_000 * (Scalar { bits: MIN_RATE }).units() <= 50_000_001
            * one(),
    decreases members.len(),
{
    lemma2_to64();
    lemma2_to64_rest();
    lemma_units(MIN_RATE as int, 0x19_9999_9999_999a, 0x200_0000_0000_0000);
    lemma_pow2_pos(1074);
    if members.len() > 0 {
        law_rates_above_a_twentieth(members.drop_last());
    }
}

/// A list names an aircraft by its address as a text in base 16 or as a number; what is neither is
/// passed over.
pub proof fn law_listed_addresses(items: Seq<Json>, item: Json)
    ensures
        list_addresses(items) == items.filter_map(|x: Json| item_address(x)),
        item matches Json::Text(s) ==> item_address(item) == parsed_hex(s),
        item matches Json::Number { number, unsigned, signed } ==> (unsigned matches Some(n) ==> n
            <= 0xffff_ffff ==> item_address(item) == Some(n as u32)),
        !(item is Text) && !(item is Number) ==> item_address(item) is None,
    decreases items.len(),
{
    if items.len() > 0 {
        law_listed_addresses(items.drop_last(), item);
    }
}

/// A message with a frame gives its time, from `t` or else from `ts`, and its bytes, from `m` or
/// else from `msg`.
pub proof fn law_frame_in_a_message(j: Json, m: Json, t: Scalar, text: Seq<char>, bytes: Seq<u8>)
    requires
        j.member("mlat"@) == Some(m),
        hex_bytes(text) == Some(bytes),
        number_at(m.member("t"@)) == Some(t) || (m.member("t"@) is None && number_at(
            m.member("ts"@),
        ) == Some(t)),
        text_at(m.member("m"@)) == Some(text) || (m.member("m"@) is None && text_at(
            m.member("msg"@),
        ) == Some(text)),
    ensures
        mlat_in(j) == Some((t, bytes)),
{
}

/// A message with a pair of frames gives the time and the bytes of the even one and of the odd one,
/// each under its own name; without one of the four there is no pair.
pub proof fn law_pair_in_a_message(j: Json, s: Json)
    requires
        j.member("sync"@) == Some(s),
    ensures
        sync_in(j) is Some <==> number_at(s.member("et"@)) is Some && number_at(
            s.member("ot"@),
        ) is Some && bytes_at(s.member("em"@)) is Some && bytes_at(s.member("om"@)) is Some,
        sync_in(j) matches Some(x) ==> number_at(s.member("et"@)) == Some(x.0) && number_at(
            s.member("ot"@),
        ) == Some(x.1) && bytes_at(s.member("em"@)) == Some(x.2) && bytes_at(s.member("om"@)) == Some(
            x.3,
        ),
{
}

/// A position that the aircraft itself has sent within five seconds is its own; one that is older,
/// missing or located otherwise is to be multilaterated.
pub proof fn law_whose_position_it_is(ac: Json, kind: Seq<char>, age: Scalar)
    requires
        text_at(ac.member("type"@)) == Some(kind),
        number_at(ac.member("seen_pos"@)) == Some(age),
        !age.is_nan(),
    ensures
        kind == "mlat"@ || kind == "mode_s"@ ==> source_in(ac) == Source::Mlat,
        ac.member("lat"@) is None || ac.member("lon"@) is None ==> source_in(ac) == Source::Mlat,
        age.units() > 5 * one() ==> source_in(ac) == Source::Mlat,
        kind == "adsb_icao"@ && ac.member("lat"@) is Some && ac.member("lon"@) is Some && age.units()
            <= 5 * one() ==> source_in(ac) == Source::Adsb,
        kind != "adsb_icao"@ ==> source_in(ac) != Source::Adsb,
        kind != "mlat"@ && kind != "mode_s"@ && kind != "adsb_icao"@ && ac.member("lat"@) is Some
            && ac.member("lon"@) is Some && age.units() <= 5 * one() ==> source_in(ac)
            == Source::Other,
{
    reveal_strlit("mlat");
    reveal_strlit("mode_s");
    reveal_strlit("adsb_icao");
    assert("mlat"@.len() == 4 && "mode_s"@.len() == 6 && "adsb_icao"@.len() == 9);
}

/// An altitude that fits in 32 bits is taken as it is; of any other the lower 32 bits are.
pub proof fn law_altitudes_fit(n: i64)
    ensures
        i32::MIN <= n <= i32::MAX ==> low_word(n) == n,
        (low_word(n) - n) % 0x1_0000_0000 == 0,
{
}

/// The aircraft of a list are those with an address, in their order, each with the altitude and
/// the kind of position that it is listed with.
pub proof fn law_sightings_are_those_with_an_address(list: Seq<Json>, ac: Json)
    ensures
        sightings(list) == list.filter_map(|x: Json| sighting_in(x)),
        text_at(ac.member("hex"@)) is None ==> sighting_in(ac) is None,
        text_at(ac.member("hex"@)) matches Some(hex) ==> (parsed_hex(hex) is None ==> sighting_in(
            ac,
        ) is None),
        text_at(ac.member("hex"@)) matches Some(hex) ==> (parsed_hex(hex) matches Some(icao)
            ==> sighting_in(ac) is Some && sighting_in(ac)->Some_0.icao == icao && sighting_in(
            ac,
        )->Some_0.source == source_in(ac)),
        sighting_in(ac) matches Some(s) ==> match ac.member("alt_baro"@) {
            Some(Json::Number { number, unsigned, signed: Some(n) }) => s.altitude == Some(
                low_word(n),
            ),
            _ => s.altitude is None,
        },
    decreases list.len(),
{
    if list.len() > 0 {
        law_sightings_are_those_with_an_address(list.drop_last(), ac);
    }
}

} // verus!
