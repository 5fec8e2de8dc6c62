//! Mode S frames: parity, addresses, altitudes and timestamps.

use crate::coordinates::GeodeticPoint;
use crate::fixed::{fixed6, format_fixed6};
use crate::sbs::{
    is_field, lemma_commas, lemma_fixed6_is_field, lemma_moment_is_field, lemma_moments,
    lemma_next_field, lemma_one_field_alone, lemma_optional_is_field, lemma_optional_reads,
    lemma_plain_fields, moments, optional, push_moments, push_optional, reads_as,
};
use crate::scalar::{lemma_nearest_is_near, nearest, one, Scalar};
use crate::text::{
    decimal, decimal_value, fields, law_decimals_are_read_back, lemma_decimal_has_no_comma,
    lemma_fields_len, lemma_occurrences_add, push_decimal, push_text,
};
use crate::utc::{format_utc, is_date, is_usual, time_of_day, utc_text};
use vstd::arithmetic::div_mod::lemma_fundamental_div_mod_converse;
use vstd::arithmetic::power2::{
    lemma2_to64, lemma_pow2_pos, lemma_pow2_strictly_increases, lemma_pow2_unfold, pow2,
};
use vstd::prelude::*;

verus! {

/// The generator polynomial of the Mode S parity, without its leading term.
pub const MODES_CRC_POLY: u32 = 0xfff409;

/// The lowest and the highest altitude that is taken at face value, in feet.
pub const MIN_ALTITUDE_FT: i32 = -1500;

pub const MAX_ALTITUDE_FT: i32 = 75000;

/// A polynomial of degree below 24 times `x`, modulo the generator.
pub open spec fn crc_shift(c: u32) -> u32 {
    if c & 0x80_0000 != 0 {
        ((c << 1) ^ MODES_CRC_POLY) & 0xff_ffff
    } else {
        (c << 1) & 0xff_ffff
    }
}

/// A polynomial of degree below 24 times `x^n`, modulo the generator.
pub open spec fn crc_shifts(c: u32, n: nat) -> u32
    decreases n,
{
    if n == 0 {
        c
    } else {
        crc_shift(crc_shifts(c, (n - 1) as nat))
    }
}

/// The parity of a message: its polynomial times `x^24`, modulo the generator.
pub open spec fn parity(message: Seq<u8>) -> u32
    decreases message.len(),
{
    if message.len() == 0 {
        0
    } else {
        crc_shifts(parity(message.drop_last()) ^ ((message.last() as u32) << 16), 8)
    }
}

/// Three bytes as a number, the most significant one first.
pub open spec fn be24(a: u8, b: u8, c: u8) -> u32 {
    (a * 0x1_0000 + b * 0x100 + c) as u32
}

/// The downlink format of a frame that starts with this byte.
pub open spec fn downlink_format(first: u8) -> u8 {
    first / 8
}

/// The length of a frame that starts with this byte.
pub open spec fn frame_len(first: u8) -> int {
    if downlink_format(first) > 15 {
        14
    } else {
        7
    }
}

/// The parity of the frame at the start of `payload`, less the parity that it carries;
/// zero where `payload` holds no whole frame.
pub open spec fn residual(payload: Seq<u8>) -> u32 {
    if payload.len() == 0 || payload.len() < frame_len(payload[0]) {
        0
    } else {
        let n = frame_len(payload[0]);
        parity(payload.take(n - 3)) ^ be24(payload[n - 3], payload[n - 2], payload[n - 1])
    }
}

/// The parity fits in 24 bits.
pub proof fn lemma_parity_bound(message: Seq<u8>)
    ensures
        parity(message) <= 0xff_ffff,
{
    if message.len() > 0 {
        let c = parity(message.drop_last()) ^ ((message.last() as u32) << 16);
        lemma_shift_bound(crc_shifts(c, 7));
    }
}

proof fn lemma_shift_bound(c: u32)
    ensures
        crc_shift(c) <= 0xff_ffff,
{
    assert(((c << 1) ^ MODES_CRC_POLY) & 0xff_ffff <= 0xff_ffff) by (bit_vector);
    assert((c << 1) & 0xff_ffff <= 0xff_ffff) by (bit_vector);
}

/// A frame whose last three bytes hold its parity combined with an address leaves the
/// address as its residual.
pub proof fn law_residual_recovers_address(body: Seq<u8>, address: u32, frame: Seq<u8>)
    requires
        body.len() > 0,
        body.len() == frame_len(body[0]) - 3,
        address <= 0xff_ffff,
        frame.len() == body.len() + 3,
        frame.take(body.len() as int) == body,
        be24(frame[frame.len() - 3], frame[frame.len() - 2], frame[frame.len() - 1]) == parity(body)
            ^ address,
    ensures
        residual(frame) == address,
{
    assert(frame[0] == body[0]) by {
        assert(frame.take(body.len() as int)[0] == body[0]);
    }
    let p = parity(body);
    assert(p ^ (p ^ address) == address) by (bit_vector);
}

/// One byte through the parity register.
fn crc_step(c: u32) -> (r: u32)
    ensures
        r == crc_shifts(c, 8),
{
    let mut r: u32 = c;
    let mut i: u8 = 0;
    while i < 8
        invariant
            i <= 8,
            r == crc_shifts(c, i as nat),
        decreases 8 - i,
    {
        r = if r & 0x80_0000 != 0 {
            ((r << 1) ^ MODES_CRC_POLY) & 0xff_ffff
        } else {
            (r << 1) & 0xff_ffff
        };
        i += 1;
    }
    r
}

/// The parity of every message of one byte.
pub fn make_crc_table() -> (table: Vec<u32>)
    ensures
        table@.len() == 256,
        forall|i: int| 0 <= i < 256 ==> #[trigger] table@[i] == parity(seq![i as u8]),
{
    let mut table: Vec<u32> = Vec::with_capacity(256);
    let mut i: u32 = 0;
    while i < 256
        invariant
            i <= 256,
            table@.len() == i,
            forall|j: int| 0 <= j < i ==> #[trigger] table@[j] == parity(seq![j as u8]),
        decreases 256 - i,
    {
        table.push(crc_step(i << 16));
        proof {
            let m = seq![i as u8];
            assert(m.drop_last() =~= Seq::<u8>::empty());
            assert(parity(m.drop_last()) == 0);
            assert(0u32 ^ (i << 16) == i << 16) by (bit_vector);
            assert(parity(m) == crc_shifts(0u32 ^ (((i as u8) as u32) << 16), 8));
        }
        i += 1;
    }
    table
}

/// The residual of the frame at the start of `payload`.
pub fn modes_crc_residual(payload: &[u8]) -> (r: u32)
    ensures
        r == residual(payload@),
        r <= 0xff_ffff,
{
    if payload.len() == 0 {
        return 0;
    }
    let first: u8 = payload[0];
    let n: usize = if first / 8 > 15 {
        14
    } else {
        7
    };
    if payload.len() < n {
        return 0;
    }
    let mut rem: u32 = 0;
    let mut i: usize = 0;
    assert(payload@.take(0) =~= Seq::<u8>::empty());
    while i < n - 3
        invariant
            i <= n - 3,
            n == 7 || n == 14,
            n <= payload@.len(),
            rem == parity(payload@.take(i as int)),
        decreases n - i,
    {
        assert(payload@.take(i + 1).drop_last() =~= payload@.take(i as int));
        rem = crc_step(rem ^ ((payload[i] as u32) << 16));
        i += 1;
    }
    proof {
        lemma_parity_bound(payload@.take(n - 3));
    }
    let carried: u32 = number24(payload[n - 3], payload[n - 2], payload[n - 1]);
    assert(rem ^ carried <= 0xff_ffff) by (bit_vector)
        requires
            rem <= 0xff_ffff,
            carried <= 0xff_ffff,
    ;
    rem ^ carried
}

/// Three bytes as a number, the most significant one first.
pub(crate) fn number24(a: u8, b: u8, c: u8) -> (r: u32)
    ensures
        r == be24(a, b, c),
        r <= 0xff_ffff,
{
    (a as u32) * 0x1_0000 + (b as u32) * 0x100 + c as u32
}

/// The number that a word of Gray code stands for, the most significant bit first: each
/// binary digit is the parity of the code bits down to its place.
pub open spec fn gray_value(bits: Seq<bool>) -> int
    decreases bits.len(),
{
    if bits.len() == 0 {
        0
    } else {
        2 * gray_value(bits.drop_last()) + (if odd(bits) {
            1int
        } else {
            0int
        })
    }
}

/// Whether an odd number of the bits is set.
pub open spec fn odd(bits: Seq<bool>) -> bool
    decreases bits.len(),
{
    bits.len() > 0 && odd(bits.drop_last()) != bits.last()
}

/// The bits that count steps of 500 ft: D2 D4 A1 A2 A4 B1 B2 B4.
pub open spec fn gillham_500(ac13: u32) -> Seq<bool> {
    seq![
        ac13 & 0x0004 != 0,
        ac13 & 0x0001 != 0,
        ac13 & 0x0800 != 0,
        ac13 & 0x0200 != 0,
        ac13 & 0x0080 != 0,
        ac13 & 0x0020 != 0,
        ac13 & 0x0008 != 0,
        ac13 & 0x0002 != 0,
    ]
}

/// The steps of 100 ft that C1, C2 and C4 stand for; above 5 for the pattern that stands
/// for none.
pub open spec fn gillham_100(c1: bool, c2: bool, c4: bool) -> int {
    match (c1, c2, c4) {
        (false, false, false) => 0,
        (false, false, true) => 4,
        (false, true, false) => 6,
        (false, true, true) => 2,
        (true, false, false) => 2,
        (true, false, true) => 3,
        (true, true, false) => 1,
        (true, true, true) => 0,
    }
}

/// An altitude, where it is in the range that is taken at face value.
pub open spec fn plausible(feet: int) -> Option<i32> {
    if MIN_ALTITUDE_FT <= feet <= MAX_ALTITUDE_FT {
        Some(feet as i32)
    } else {
        None
    }
}

/// The altitude that a 13-bit altitude field stands for.
pub open spec fn ac13_altitude(ac13: u32) -> Option<i32> {
    if ac13 == 0 || ac13 & 0x0040 != 0 {
        None
    } else if ac13 & 0x0010 != 0 {
        // Steps of 25 ft: the field without its M and Q bits.
        plausible(
            ((ac13 / 0x80 % 0x40) * 0x20 + (ac13 / 0x20 % 2) * 0x10 + ac13 % 0x10) * 25 - 1000,
        )
    } else if ac13 & 0x1500 == 0 {
        None
    } else {
        let steps = gray_value(gillham_500(ac13));
        let h = gillham_100(ac13 & 0x1000 != 0, ac13 & 0x0400 != 0, ac13 & 0x0100 != 0);
        if h > 5 {
            None
        } else {
            plausible(500 * steps + 100 * (if steps % 2 == 1 {
                6 - h
            } else {
                h
            }) - 1300)
        }
    }
}

/// An altitude, where it is in the range that is taken at face value.
fn checked_altitude(feet: i32) -> (r: Option<i32>)
    ensures
        r == plausible(feet as int),
{
    if MIN_ALTITUDE_FT <= feet && feet <= MAX_ALTITUDE_FT {
        Some(feet)
    } else {
        None
    }
}

/// The value of a word of Gray code has as many bits as the word, and its lowest one is the
/// parity of the word.
proof fn lemma_gray_bounds(bits: Seq<bool>)
    ensures
        0 <= gray_value(bits) < pow2(bits.len()),
        gray_value(bits) % 2 == 1 <==> odd(bits),
    decreases bits.len(),
{
    if bits.len() == 0 {
        lemma_pow2_pos(0);
    } else {
        lemma_gray_bounds(bits.drop_last());
        lemma_pow2_unfold(bits.len());
    }
}

/// One of the bits that count steps of 500 ft.
fn gillham_bit(ac13: u32, i: usize) -> (r: bool)
    requires
        i < 8,
    ensures
        r == gillham_500(ac13)[i as int],
{
    let mask: u32 = if i == 0 {
        0x0004
    } else if i == 1 {
        0x0001
    } else if i == 2 {
        0x0800
    } else if i == 3 {
        0x0200
    } else if i == 4 {
        0x0080
    } else if i == 5 {
        0x0020
    } else if i == 6 {
        0x0008
    } else {
        0x0002
    };
    ac13 & mask != 0
}

/// The steps of 500 ft.
fn gillham_steps(ac13: u32) -> (steps: i32)
    ensures
        steps == gray_value(gillham_500(ac13)),
        0 <= steps < 256,
{
    let ghost s = gillham_500(ac13);
    let mut steps: i32 = 0;
    let mut odd_so_far: bool = false;
    let mut i: usize = 0;
    proof {
        lemma2_to64();
    }
    while i < 8
        invariant
            i <= 8,
            s == gillham_500(ac13),
            s.len() == 8,
            steps == gray_value(s.take(i as int)),
            odd_so_far == odd(s.take(i as int)),
            pow2(8) == 256,
        decreases 8 - i,
    {
        proof {
            lemma_gray_bounds(s.take(i as int));
            lemma_pow2_strictly_increases(i as nat, 8);
            assert(s.take(i + 1).drop_last() =~= s.take(i as int));
        }
        odd_so_far = odd_so_far != gillham_bit(ac13, i);
        steps = 2 * steps + (if odd_so_far {
            1
        } else {
            0
        });
        i += 1;
    }
    proof {
        assert(s.take(8) =~= s);
        lemma_gray_bounds(s);
    }
    steps
}

/// The altitude in feet that a 13-bit altitude field stands for.
pub fn decode_ac13(ac13: u32) -> (r: Option<i32>)
    ensures
        r == ac13_altitude(ac13),
{
    if ac13 == 0 || ac13 & 0x0040 != 0 {
        return None;
    }
    if ac13 & 0x0010 != 0 {
        let n: u32 = (ac13 / 0x80 % 0x40) * 0x20 + (ac13 / 0x20 % 2) * 0x10 + ac13 % 0x10;
        return checked_altitude((n as i32) * 25 - 1000);
    }
    if ac13 & 0x1500 == 0 {
        return None;
    }
    let h: i32 = match (ac13 & 0x1000 != 0, ac13 & 0x0400 != 0, ac13 & 0x0100 != 0) {
        (false, false, false) => 0,
        (false, false, true) => 4,
        (false, true, false) => 6,
        (false, true, true) => 2,
        (true, false, false) => 2,
        (true, false, true) => 3,
        (true, true, false) => 1,
        (true, true, true) => 0,
    };
    if h > 5 {
        return None;
    }
    let steps: i32 = gillham_steps(ac13);
    let hundreds: i32 = if steps % 2 == 1 {
        6 - h
    } else {
        h
    };
    checked_altitude(500 * steps + 100 * hundreds - 1300)
}

/// The altitude field of an airborne position squitter.
pub open spec fn squitter_altitude_code(p4: u8, p5: u8, p6: u8) -> int {
    (p4 % 8) * 1024 + p5 * 4 + p6 / 64
}

/// The altitude that an airborne position squitter reports.
pub open spec fn squitter_altitude(p4: u8, p5: u8, p6: u8) -> Option<i32> {
    let type_code = p4 / 8;
    if !(9 <= type_code <= 18 || 20 <= type_code <= 22) || p5 & 0x10 == 0 {
        None
    } else {
        let code = squitter_altitude_code(p4, p5, p6);
        let n = if code / 16 % 2 == 1 {
            (code / 16 % 256) * 8 + code % 8
        } else {
            code
        };
        plausible(n * 25 - 1000)
    }
}

/// The altitude that a frame reports.
pub open spec fn frame_altitude(payload: Seq<u8>) -> Option<i32> {
    if payload.len() == 0 {
        None
    } else {
        let df = downlink_format(payload[0]);
        if df == 0 || df == 4 || df == 16 || df == 20 {
            if payload.len() >= 4 {
                ac13_altitude(((payload[2] % 0x20) * 0x100 + payload[3]) as u32)
            } else {
                None
            }
        } else if (df == 17 || df == 18) && payload.len() >= 8 {
            squitter_altitude(payload[4], payload[5], payload[6])
        } else {
            None
        }
    }
}

/// The altitude in feet that a frame reports.
pub fn extract_altitude(payload: &[u8]) -> (r: Option<i32>)
    ensures
        r == frame_altitude(payload@),
{
    if payload.len() == 0 {
        return None;
    }
    let df: u8 = payload[0] / 8;
    if df == 0 || df == 4 || df == 16 || df == 20 {
        if payload.len() >= 4 {
            return decode_ac13(((payload[2] % 0x20) as u32) * 0x100 + payload[3] as u32);
        }
        return None;
    }
    if (df == 17 || df == 18) && payload.len() >= 8 {
        let type_code: u8 = payload[4] / 8;
        let airborne: bool = (9 <= type_code && type_code <= 18) || (20 <= type_code && type_code
            <= 22);
        if !airborne || payload[5] & 0x10 == 0 {
            return None;
        }
        let code: i32 = ((payload[4] % 8) as i32) * 1024 + (payload[5] as i32) * 4
            + (payload[6] / 64) as i32;
        let n: i32 = if code / 16 % 2 == 1 {
            (code / 16 % 256) * 8 + code % 8
        } else {
            code
        };
        return checked_altitude(n * 25 - 1000);
    }
    None
}

/// The downlink format and the aircraft address of a frame.
pub open spec fn frame_address(payload: Seq<u8>) -> Option<(u8, u32)> {
    if payload.len() == 0 {
        None
    } else {
        let df = downlink_format(payload[0]);
        if df == 11 || df == 17 || df == 18 {
            if payload.len() >= 4 {
                Some((df, be24(payload[1], payload[2], payload[3])))
            } else {
                None
            }
        } else if df == 0 || df == 4 || df == 5 || df == 16 || df == 20 || df == 21 {
            if residual(payload) > 0 {
                Some((df, residual(payload)))
            } else {
                None
            }
        } else {
            None
        }
    }
}

/// The downlink format and the aircraft address of a frame: announced in the clear, or
/// combined with the parity.
pub fn extract_icao_and_df(payload: &[u8]) -> (r: Option<(u8, u32)>)
    ensures
        r == frame_address(payload@),
{
    if payload.len() == 0 {
        return None;
    }
    let df: u8 = payload[0] / 8;
    if df == 11 || df == 17 || df == 18 {
        if payload.len() >= 4 {
            return Some((df, number24(payload[1], payload[2], payload[3])));
        }
        return None;
    }
    if df == 0 || df == 4 || df == 5 || df == 16 || df == 20 || df == 21 {
        let icao: u32 = modes_crc_residual(payload);
        if icao > 0 {
            return Some((df, icao));
        }
    }
    None
}

/// Four bytes as a number, the least significant one first.
pub open spec fn le32(payload: Seq<u8>, at: int) -> int {
    payload[at] + payload[at + 1] * 0x100 + payload[at + 2] * 0x1_0000 + payload[at + 3]
        * 0x100_0000
}

fn number32(payload: &[u8], at: usize) -> (r: u32)
    requires
        at + 4 <= payload@.len(),
    ensures
        r == le32(payload@, at as int),
{
    payload[at] as u32 + (payload[at + 1] as u32) * 0x100 + (payload[at + 2] as u32) * 0x1_0000 + (
    payload[at + 3] as u32) * 0x100_0000
}

/// The even and the odd timestamp and the key of a raw synchronisation record, and the
/// position that it carries, which is none.
pub fn extract_raw_timestamps(payload: &[u8]) -> (r: Option<
    (u32, u32, u64, Option<GeodeticPoint>),
>)
    ensures
        r is Some <==> payload@.len() >= 14,
        r matches Some((even, odd, key, position)) ==> {
            &&& even == le32(payload@, 6)
            &&& odd == le32(payload@, 10)
            &&& key == le32(payload@, 2)
            &&& position is None
            &&& even % 0x100 == payload@[6] && even / 0x100_0000 == payload@[9]
            &&& odd % 0x100 == payload@[10] && odd / 0x100_0000 == payload@[13]
            &&& key % 0x100 == payload@[2] && key / 0x100_0000 == payload@[5]
        },
{
    if payload.len() < 14 {
        return None;
    }
    Some((number32(payload, 6), number32(payload, 10), number32(payload, 2) as u64, None))
}

/// What a receiver says of itself when it connects.
#[derive(Debug)]
pub struct HandshakeRequest {
    pub user: String,
    pub lat: Scalar,
    pub lon: Scalar,
    pub alt: Scalar,
    pub privacy: bool,
    pub version: String,
}

/// The whole number nearest to one that may be missing.
pub open spec fn nearest_whole(n: Option<Scalar>) -> Option<i32> {
    match n {
        Some(n) => Some(n.rounded(0) as i32),
        None => None,
    }
}

/// The record of a position that was multilaterated.
pub open spec fn msg3_text(
    icao: Seq<char>,
    date: Seq<char>,
    time: Seq<char>,
    geo: GeodeticPoint,
    track: Option<Scalar>,
    speed: Option<Scalar>,
    alt_ft: Option<i32>,
    vrate_fpm: Option<i32>,
    receivers_count: usize,
) -> Seq<char> {
    "MSG,3,1,1,"@ + icao + ",1,"@ + moments(date, time) + ",,"@ + optional(alt_ft) + ","@
        + optional(nearest_whole(speed)) + ","@ + optional(nearest_whole(track)) + ","@ + fixed6(geo.lat)
        + ","@ + fixed6(geo.lon) + ","@ + optional(vrate_fpm) + ",,"@ + decimal(receivers_count as nat) + ",,,0\r\n"@
}

/// The whole number nearest to one that may be missing.
fn whole(n: Option<Scalar>) -> (r: Option<i32>)
    ensures
        r == nearest_whole(n),
{
    match n {
        Some(n) => Some(n.round(0)),
        None => None,
    }
}

/// The text is the record of a position that was multilaterated at a moment.
pub open spec fn is_mlat_record(
    text: Seq<char>,
    icao: Seq<char>,
    secs: i64,
    nanos: u32,
    geo: GeodeticPoint,
    track: Option<Scalar>,
    speed: Option<Scalar>,
    alt_ft: Option<i32>,
    vrate_fpm: Option<i32>,
    receivers_count: usize,
) -> bool {
    exists|date: Seq<char>| #[trigger]
        is_date(secs, date) && text == msg3_text(
            icao,
            date,
            time_of_day(secs, nanos),
            geo,
            track,
            speed,
            alt_ft,
            vrate_fpm,
            receivers_count,
        )
}

/// The record of a position that was multilaterated, of texts for the date and the time of day.
pub fn msg3_line(
    icao: &str,
    date: &str,
    time: &str,
    geo: &GeodeticPoint,
    track: Option<Scalar>,
    speed: Option<Scalar>,
    alt_ft: Option<i32>,
    vrate_fpm: Option<i32>,
    receivers_count: usize,
) -> (r: String)
    ensures
        r@ == msg3_text(
            icao@,
            date@,
            time@,
            *geo,
            track,
            speed,
            alt_ft,
            vrate_fpm,
            receivers_count,
        ),
{
    let mut s: String = String::new();
    push_text(&mut s, "MSG,3,1,1,");
    push_text(&mut s, icao);
    push_text(&mut s, ",1,");
    push_moments(&mut s, date, time);
    push_text(&mut s, ",,");
    push_optional(&mut s, alt_ft);
    push_text(&mut s, ",");
    push_optional(&mut s, whole(speed));
    push_text(&mut s, ",");
    push_optional(&mut s, whole(track));
    push_text(&mut s, ",");
    push_text(&mut s, format_fixed6(geo.lat).as_str());
    push_text(&mut s, ",");
    push_text(&mut s, format_fixed6(geo.lon).as_str());
    push_text(&mut s, ",");
    push_optional(&mut s, vrate_fpm);
    push_text(&mut s, ",,");
    push_decimal(&mut s, receivers_count as u64);
    push_text(&mut s, ",,,0\r\n");
    assert(s@ =~= msg3_text(
        icao@,
        date@,
        time@,
        *geo,
        track,
        speed,
        alt_ft,
        vrate_fpm,
        receivers_count,
    ));
    s
}

/// The record of a position that was multilaterated, at a moment in seconds and nanoseconds
/// since the start of 1970; none where the moment is out of range.
pub fn format_sbs_msg3(
    icao: &str,
    geo: &GeodeticPoint,
    track: Option<Scalar>,
    speed: Option<Scalar>,
    alt_ft: Option<i32>,
    vrate_fpm: Option<i32>,
    receivers_count: usize,
    secs: i64,
    nanos: u32,
) -> (r: Option<String>)
    ensures
        match (utc_text(secs, nanos, "%Y/%m/%d"@), utc_text(secs, nanos, "%H:%M:%S%.3f"@)) {
            (Some(date), Some(time)) => r matches Some(s) && s@ == msg3_text(
                icao@,
                date,
                time,
                *geo,
                track,
                speed,
                alt_ft,
                vrate_fpm,
                receivers_count,
            ),
            _ => r is None,
        },
        is_usual(secs, nanos) ==> r is Some,
        r matches Some(s) ==> is_usual(secs, nanos) ==> is_mlat_record(
            s@,
            icao@,
            secs,
            nanos,
            *geo,
            track,
            speed,
            alt_ft,
            vrate_fpm,
            receivers_count,
        ),
        r matches Some(s) ==> is_usual(secs, nanos) && is_field(icao@) ==> fields(s@, ',').len()
            == 22,
{
    let date: String = match format_utc(secs, nanos, "%Y/%m/%d") {
        Some(d) => d,
        None => return None,
    };
    let time: String = match format_utc(secs, nanos, "%H:%M:%S%.3f") {
        Some(t) => t,
        None => return None,
    };
    proof {
        if is_usual(secs, nanos) {
            lemma_moment_is_field(secs, nanos, date@);
            if is_field(icao@) {
                law_mlat_record_has_22_fields(
                    icao@,
                    date@,
                    time@,
                    *geo,
                    track,
                    speed,
                    alt_ft,
                    vrate_fpm,
                    receivers_count,
                );
            }
        }
    }
    Some(
        msg3_line(
            icao,
            date.as_str(),
            time.as_str(),
            geo,
            track,
            speed,
            alt_ft,
            vrate_fpm,
            receivers_count,
        ),
    )
}

/// A record of a position that was multilaterated has 22 fields where no text in it holds a
/// comma.
pub proof fn law_mlat_record_has_22_fields(
    icao: Seq<char>,
    date: Seq<char>,
    time: Seq<char>,
    geo: GeodeticPoint,
    track: Option<Scalar>,
    speed: Option<Scalar>,
    alt_ft: Option<i32>,
    vrate_fpm: Option<i32>,
    receivers_count: usize,
)
    requires
        is_field(icao),
        is_field(date),
        is_field(time),
    ensures
        fields(
            msg3_text(
                icao,
                date,
                time,
                geo,
                track,
                speed,
                alt_ft,
                vrate_fpm,
                receivers_count,
            ),
            ',',
        ).len() == 22,
{
    lemma_commas();
    lemma_moments(date, time);
    lemma_optional_is_field(alt_ft);
    lemma_optional_is_field(nearest_whole(speed));
    lemma_optional_is_field(nearest_whole(track));
    lemma_optional_is_field(vrate_fpm);
    lemma_decimal_has_no_comma(receivers_count as nat);
    lemma_fixed6_is_field(geo.lat);
    lemma_fixed6_is_field(geo.lon);
    let lat = fixed6(geo.lat);
    let lon = fixed6(geo.lon);
    let a = "MSG,3,1,1,"@ + icao;
    let b = a + ",1,"@;
    let c = b + moments(date, time);
    let d = c + ",,"@;
    let e = d + optional(alt_ft);
    let f = e + ","@;
    let g = f + optional(nearest_whole(speed));
    let h = g + ","@;
    let i = h + optional(nearest_whole(track));
    let j = i + ","@;
    let k = j + lat;
    let l = k + ","@;
    let m = l + lon;
    let n = m + ","@;
    let o = n + optional(vrate_fpm);
    let p = o + ",,"@;
    let q = p + decimal(receivers_count as nat);
    let r = q + ",,,0\r\n"@;
    lemma_occurrences_add("MSG,3,1,1,"@, icao, ',');
    lemma_occurrences_add(a, ",1,"@, ',');
    lemma_occurrences_add(b, moments(date, time), ',');
    lemma_occurrences_add(c, ",,"@, ',');
    lemma_occurrences_add(d, optional(alt_ft), ',');
    lemma_occurrences_add(e, ","@, ',');
    lemma_occurrences_add(f, optional(nearest_whole(speed)), ',');
    lemma_occurrences_add(g, ","@, ',');
    lemma_occurrences_add(h, optional(nearest_whole(track)), ',');
    lemma_occurrences_add(i, ","@, ',');
    lemma_occurrences_add(j, lat, ',');
    lemma_occurrences_add(k, ","@, ',');
    lemma_occurrences_add(l, lon, ',');
    lemma_occurrences_add(m, ","@, ',');
    lemma_occurrences_add(n, optional(vrate_fpm), ',');
    lemma_occurrences_add(o, ",,"@, ',');
    lemma_occurrences_add(p, decimal(receivers_count as nat), ',');
    lemma_occurrences_add(q, ",,,0\r\n"@, ',');
    lemma_fields_len(r, ',');
}

/// A whole frame of one of the formats 0, 4, 5, 16, 20 and 21 whose last three bytes hold its
/// parity combined with an address above zero is from that address; short frames have 7 bytes,
/// those from format 16 on have 14, and what follows them makes no difference.
pub proof fn law_address_is_in_the_parity(df: u8, n: int, frame: Seq<u8>, address: u32)
    requires
        df == 0 || df == 4 || df == 5 || df == 16 || df == 20 || df == 21,
        n == (if df >= 16 {
            14int
        } else {
            7int
        }),
        frame.len() >= n,
        frame[0] / 8 == df,
        address <= 0xff_ffff,
        0x1_0000 * frame[n - 3] + 0x100 * frame[n - 2] + frame[n - 1] == (parity(frame.take(n - 3))
            ^ address),
    ensures
        address > 0 ==> frame_address(frame) == Some((df, address)),
        address == 0 ==> frame_address(frame) is None,
        forall|more: Seq<u8>| #[trigger]
            frame_address(frame + more) == frame_address(frame),
{
    let p = parity(frame.take(n - 3));
    assert(p ^ (p ^ address) == address) by (bit_vector);
    assert forall|more: Seq<u8>| #[trigger]
        frame_address(frame + more) == frame_address(frame) by {
        assert((frame + more).take(n - 3) =~= frame.take(n - 3));
    }
}

/// Frames of the formats 11, 17 and 18, and no others, are from the address in their bytes 1 to 3.
/// Frames of other formats, and those that are cut off, are from nobody.
pub proof fn law_address_in_the_clear(frame: Seq<u8>)
    requires
        frame.len() > 0,
    ensures
        ({
            let df = frame[0] / 8;
            &&& (df == 11 || df == 17 || df == 18) && frame.len() >= 4 ==> (frame_address(
                frame,
            ) matches Some(x) && x.0 == df && x.1 == 0x1_0000 * frame[1] + 0x100 * frame[2]
                + frame[3])
            &&& (df == 11 || df == 17 || df == 18) && frame.len() < 4 ==> frame_address(frame) is None
            &&& 1 <= df <= 3 || 6 <= df <= 10 || 12 <= df <= 15 || df == 19 || df >= 22
                ==> frame_address(frame) is None
            &&& df <= 5 && frame.len() < 7 ==> frame_address(frame) is None
            &&& (df == 16 || df == 20 || df == 21) && frame.len() < 14 ==> frame_address(
                frame,
            ) is None
            &&& frame_address(frame) matches Some(x) ==> x.0 == df && x.1 <= 0xff_ffff
        }),
{
    lemma_parity_bound(frame.take(frame_len(frame[0]) - 3));
    let n = frame_len(frame[0]);
    let p = parity(frame.take(n - 3));
    let c = be24(frame[n - 3], frame[n - 2], frame[n - 1]);
    assert(p ^ c <= 0xff_ffff) by (bit_vector)
        requires
            p <= 0xff_ffff,
            c <= 0xff_ffff,
    ;
}

proof fn lemma_shift_linear(a: u32, b: u32)
    ensures
        crc_shift(a ^ b) == crc_shift(a) ^ crc_shift(b),
{
    let poly = MODES_CRC_POLY;
    assert(({
        let x = a ^ b;
        if x & 0x80_0000 != 0 {
            ((x << 1) ^ 0xfff409) & 0xff_ffff
        } else {
            (x << 1) & 0xff_ffff
        }
    }) == (if a & 0x80_0000 != 0 {
        ((a << 1) ^ 0xfff409) & 0xff_ffff
    } else {
        (a << 1) & 0xff_ffff
    }) ^ (if b & 0x80_0000 != 0 {
        ((b << 1) ^ 0xfff409) & 0xff_ffff
    } else {
        (b << 1) & 0xff_ffff
    })) by (bit_vector);
}

proof fn lemma_shifts_linear(a: u32, b: u32, n: nat)
    ensures
        crc_shifts(a ^ b, n) == crc_shifts(a, n) ^ crc_shifts(b, n),
    decreases n,
{
    if n > 0 {
        lemma_shifts_linear(a, b, (n - 1) as nat);
        lemma_shift_linear(crc_shifts(a, (n - 1) as nat), crc_shifts(b, (n - 1) as nat));
    }
}

/// The parity of two messages combined bit by bit is that of the one combined with that of the
/// other.
pub proof fn law_parity_is_linear(a: Seq<u8>, b: Seq<u8>, both: Seq<u8>)
    requires
        a.len() == b.len() == both.len(),
        forall|i: int| 0 <= i < a.len() ==> #[trigger] both[i] == a[i] ^ b[i],
    ensures
        parity(both) == parity(a) ^ parity(b),
    decreases a.len(),
{
    if a.len() == 0 {
        assert(0u32 ^ 0u32 == 0u32) by (bit_vector);
    } else {
        law_parity_is_linear(a.drop_last(), b.drop_last(), both.drop_last());
        let (p, q, x, y) = (
            parity(a.drop_last()),
            parity(b.drop_last()),
            a.last(),
            b.last(),
        );
        assert(both.last() == x ^ y);
        assert((p ^ q) ^ (((x ^ y) as u32) << 16) == (p ^ ((x as u32) << 16)) ^ (q ^ ((y as u32)
            << 16))) by (bit_vector);
        lemma_shifts_linear(p ^ ((x as u32) << 16), q ^ ((y as u32) << 16), 8);
    }
}

/// The last bit of a message counts in its parity as the generator polynomial, 0xfff409.
pub proof fn law_last_bit_is_the_generator(message: Seq<u8>, last: u8)
    ensures
        parity(message.push(last ^ 1)) == parity(message.push(last)) ^ 0xfff409,
        parity(Seq::<u8>::empty()) == 0,
{
    let p = parity(message);
    let a = p ^ ((last as u32) << 16);
    assert(message.push(last).drop_last() =~= message);
    assert(message.push(last ^ 1).drop_last() =~= message);
    assert(p ^ (((last ^ 1) as u32) << 16) == (p ^ ((last as u32) << 16)) ^ 0x1_0000u32)
        by (bit_vector);
    lemma_shifts_linear(a, 0x1_0000, 8);
    reveal_with_fuel(crc_shifts, 9);
    assert(0x1_0000u32 & 0x80_0000 == 0 && (0x1_0000u32 << 1) & 0xff_ffff == 0x2_0000 && 0x2_0000u32
        & 0x80_0000 == 0 && (0x2_0000u32 << 1) & 0xff_ffff == 0x4_0000 && 0x4_0000u32 & 0x80_0000 == 0
        && (0x4_0000u32 << 1) & 0xff_ffff == 0x8_0000 && 0x8_0000u32 & 0x80_0000 == 0 && (0x8_0000u32
        << 1) & 0xff_ffff == 0x10_0000 && 0x10_0000u32 & 0x80_0000 == 0 && (0x10_0000u32 << 1)
        & 0xff_ffff == 0x20_0000 && 0x20_0000u32 & 0x80_0000 == 0 && (0x20_0000u32 << 1) & 0xff_ffff
        == 0x40_0000 && 0x40_0000u32 & 0x80_0000 == 0 && (0x40_0000u32 << 1) & 0xff_ffff
        == 0x80_0000 && 0x80_0000u32 & 0x80_0000 != 0 && ((0x80_0000u32 << 1) ^ 0xfff409)
        & 0xff_ffff == 0xfff409) by (bit_vector);
}

/// An altitude in steps of 25 ft is read back from the field that it is written into: the steps
/// above -1000 ft, with the Q bit between them and without the M bit.
pub proof fn law_steps_of_25_are_read_back(n: u32, ac13: u32)
    requires
        n < 2048,
        ac13 == (n / 32) * 0x80 + (n / 16 % 2) * 0x20 + 0x10 + n % 16,
    ensures
        ac13_altitude(ac13) == Some((25 * n - 1000) as i32),
{
    assert(ac13 & 0x0040 == 0 && ac13 & 0x0010 != 0 && ac13 / 0x80 % 0x40 == n / 32 && ac13 / 0x20 % 2
        == n / 16 % 2 && ac13 % 0x10 == n % 16) by (bit_vector)
        requires
            n < 2048,
            ac13 == (n / 32) * 0x80 + (n / 16 % 2) * 0x20 + 0x10 + n % 16,
    ;
}

/// A field with the M bit, and an empty one, stand for no altitude; what a field stands for is
/// from -1500 to 75 000 ft, and a multiple of 25 ft.
pub proof fn law_altitude_field_range(ac13: u32)
    ensures
        ac13 & 0x40 != 0 ==> ac13_altitude(ac13) is None,
        ac13 == 0 ==> ac13_altitude(ac13) is None,
        ac13_altitude(ac13) matches Some(feet) ==> -1500 <= feet <= 75_000 && feet as int % 25 == 0,
        ac13 & 0x1510 == 0 ==> ac13_altitude(ac13) is None,
        ac13 & 0x10 == 0 ==> (ac13_altitude(ac13) matches Some(feet) ==> feet as int % 100 == 0),
{
    assert(ac13 & 0x1510 == 0 ==> ac13 & 0x10 == 0 && ac13 & 0x1500 == 0) by (bit_vector);
}

/// A word of Gray code stands for the number of whose binary digits each of its bits is the
/// difference to the next higher one.
pub proof fn law_gray_code_is_read_back(digits: Seq<bool>, bits: Seq<bool>)
    requires
        digits.len() == bits.len(),
        forall|i: int|
            0 <= i < bits.len() ==> #[trigger] bits[i] == (digits[i] != (i > 0 && digits[i - 1])),
    ensures
        gray_value(bits) == binary_value(digits),
        odd(bits) == (digits.len() > 0 && digits.last()),
    decreases bits.len(),
{
    if bits.len() > 0 {
        law_gray_code_is_read_back(digits.drop_last(), bits.drop_last());
    }
}

/// The number of binary digits, the most significant one first.
pub open spec fn binary_value(digits: Seq<bool>) -> int
    decreases digits.len(),
{
    if digits.len() == 0 {
        0
    } else {
        2 * binary_value(digits.drop_last()) + (if digits.last() {
            1int
        } else {
            0int
        })
    }
}

/// The steps of 500 ft are read back from D2, D4, A1, A2, A4, B1, B2 and B4, in which they are
/// written in Gray code, and the hundreds from C1, C2 and C4; these count up in one step and down
/// in the next.
pub proof fn law_gillham_code_is_read_back(ac13: u32, digits: Seq<bool>, steps: int)
    requires
        digits.len() == 8,
        binary_value(digits) == steps,
        ac13 & 0x0050 == 0,
        ac13 & 0x0004 != 0 <==> digits[0],
        ac13 & 0x0001 != 0 <==> digits[1] != digits[0],
        ac13 & 0x0800 != 0 <==> digits[2] != digits[1],
        ac13 & 0x0200 != 0 <==> digits[3] != digits[2],
        ac13 & 0x0080 != 0 <==> digits[4] != digits[3],
        ac13 & 0x0020 != 0 <==> digits[5] != digits[4],
        ac13 & 0x0008 != 0 <==> digits[6] != digits[5],
        ac13 & 0x0002 != 0 <==> digits[7] != digits[6],
    ensures
        ({
            let down = steps % 2 == 1;
            let zero = 500 * steps - 1300;
            let (c1, c2, c4) = (ac13 & 0x1000 != 0, ac13 & 0x0400 != 0, ac13 & 0x0100 != 0);
            let feet = ac13_altitude(ac13);
            &&& !c1 && !c2 && !c4 ==> feet is None
            &&& !c1 && c2 && !c4 ==> feet is None
            &&& c1 && c2 && c4 ==> feet == in_range(zero + if down { 600int } else { 0int })
            &&& c1 && c2 && !c4 ==> feet == in_range(zero + if down { 500int } else { 100int })
            &&& c1 && !c2 && !c4 ==> feet == in_range(zero + if down { 400int } else { 200int })
            &&& !c1 && c2 && c4 ==> feet == in_range(zero + if down { 400int } else { 200int })
            &&& c1 && !c2 && c4 ==> feet == in_range(zero + 300)
            &&& !c1 && !c2 && c4 ==> feet == in_range(zero + if down { 200int } else { 400int })
        }),
{
    assert(ac13 & 0x0050 == 0 ==> ac13 & 0x0040 == 0 && ac13 & 0x0010 == 0) by (bit_vector);
    assert(ac13 & 0x1500 == 0 <==> ac13 & 0x1000 == 0 && ac13 & 0x0400 == 0 && ac13 & 0x0100 == 0)
        by (bit_vector);
    assert(ac13 == 0 ==> ac13 & 0x1500 == 0) by (bit_vector);
    law_gray_code_is_read_back(digits, gillham_500(ac13));
}

/// An altitude from -1500 to 75 000 ft.
pub open spec fn in_range(feet: int) -> Option<i32> {
    if -1500 <= feet && feet <= 75_000 {
        Some(feet as i32)
    } else {
        None
    }
}

/// The altitude of a squitter of an airborne position: types 9 to 18 and 20 to 22 report one where
/// bit 4 of byte 5 is set. With bit 2 of it the steps of 25 ft stand in eleven bits, without it in
/// thirteen.
pub proof fn law_squitter_altitude(p4: u8, p5: u8, p6: u8)
    ensures
        p4 < 72 || 152 <= p4 < 160 || p4 >= 184 ==> squitter_altitude(p4, p5, p6) is None,
        p5 & 0x10 == 0 ==> squitter_altitude(p4, p5, p6) is None,
        (72 <= p4 < 152 || 160 <= p4 < 184) && p5 & 0x10 != 0 && p5 / 4 % 2 == 1
            ==> squitter_altitude(p4, p5, p6) == in_range(
            25 * (512 * (p4 % 4) + 8 * (p5 / 4) + 4 * (p5 % 2) + p6 / 64) - 1000,
        ),
        (72 <= p4 < 152 || 160 <= p4 < 184) && p5 & 0x10 != 0 && p5 / 4 % 2 == 0
            ==> squitter_altitude(p4, p5, p6) == in_range(
            25 * (1024 * (p4 % 8) + 4 * p5 + p6 / 64) - 1000,
        ),
{
    let a = p4 as int % 8;
    let (q, r) = (p5 as int / 4, p5 as int % 4);
    let c = p6 as int / 64;
    let code = squitter_altitude_code(p4, p5, p6);
    lemma_fundamental_div_mod_converse(code, 16, 64 * a + q, 4 * r + c);
    lemma_fundamental_div_mod_converse(
        code,
        8,
        2 * (64 * a + q) + r / 2,
        4 * (r % 2) + c,
    );
    lemma_fundamental_div_mod_converse(64 * a + q, 2, 32 * a + q / 2, q % 2);
    lemma_fundamental_div_mod_converse(64 * a + q, 256, a / 4, 64 * (a % 4) + q);
    assert(p4 as int % 4 == a % 4);
    assert(p5 as int % 2 == r % 2);
}

/// Replies of the formats 0, 4, 16 and 20 report the altitude of the thirteen bits at the end of
/// bytes 2 and 3, squitters of the formats 17 and 18 that of their position; no others report one.
pub proof fn law_which_frames_report_an_altitude(frame: Seq<u8>, other: Seq<u8>)
    requires
        frame.len() >= 8,
        other.len() >= 8,
    ensures
        ({
            let df = frame[0] / 8;
            &&& df == 0 || df == 4 || df == 16 || df == 20 ==> frame_altitude(frame) == ac13_altitude(
                (256 * (frame[2] % 32) + frame[3]) as u32,
            )
            &&& df == 17 || df == 18 ==> frame_altitude(frame) == squitter_altitude(
                frame[4],
                frame[5],
                frame[6],
            )
            &&& 1 <= df <= 3 || 5 <= df <= 15 || df == 19 || df >= 21 ==> frame_altitude(
                frame,
            ) is None
            &&& frame[0] / 8 == other[0] / 8 && frame[2] % 32 == other[2] % 32 && frame[3] == other[3]
                && frame[4] == other[4] && frame[5] == other[5] && frame[6] / 64 == other[6] / 64
                ==> frame_altitude(frame) == frame_altitude(other)
        }),
{
}

/// Three bytes and the number that they are give each other back.
pub proof fn law_three_bytes(a: u8, b: u8, c: u8)
    ensures
        be24(a, b, c) / 0x1_0000 == a,
        be24(a, b, c) / 0x100 % 0x100 == b,
        be24(a, b, c) % 0x100 == c,
{
}

/// Four bytes and the number that they are give each other back, the least significant first.
pub proof fn law_four_bytes(payload: Seq<u8>, at: int)
    requires
        0 <= at,
        at + 4 <= payload.len(),
    ensures
        le32(payload, at) % 0x100 == payload[at],
        le32(payload, at) / 0x100 % 0x100 == payload[at + 1],
        le32(payload, at) / 0x1_0000 % 0x100 == payload[at + 2],
        le32(payload, at) / 0x100_0000 == payload[at + 3],
{
}

/// The text is empty where there is no number, and else a whole number that is no more than one
/// half away.
pub open spec fn reads_near(s: Seq<char>, x: Option<Scalar>) -> bool {
    match x {
        Some(x) => !x.is_nan() && -2_000_000_000 * one() <= x.units() <= 2_000_000_000 * one()
            ==> exists|n: i32| #[trigger]
            reads_as(s, Some(n)) && -one() <= 2 * (n * one() - x.units()) <= one(),
        None => s.len() == 0,
    }
}

proof fn lemma_whole_is_near(x: Option<Scalar>)
    ensures
        x matches Some(v) ==> !v.is_nan() && -2_000_000_000 * one() <= v.units() <= 2_000_000_000
            * one() ==> (nearest_whole(x) matches Some(n) && -one() <= 2 * (n * one() - v.units())
            <= one()),
        x is None ==> nearest_whole(x) is None,
{
    if let Some(v) = x {
        if !v.is_nan() && -2_000_000_000 * one() <= v.units() <= 2_000_000_000 * one() {
            lemma2_to64();
            lemma_pow2_pos(1074);
            let y = one();
            assert(y * pow2(0) == y);
            lemma_nearest_is_near(v.units(), y as int);
            let q = nearest(v.units(), y as int);
            assert(-2_000_000_001 <= q <= 2_000_000_001) by (nonlinear_arith)
                requires
                    y > 0,
                    -y <= 2 * (q * y - v.units()) <= y,
                    -2_000_000_000 * y <= v.units() <= 2_000_000_000 * y,
            ;
        }
    }
}

/// What the fields of a record of a position that was multilaterated hold: the address is the
/// fifth, the date and the time of day follow twice, then the altitude, the speed, the heading,
/// the position, the vertical rate, up or down, and the number of receivers.
#[verifier::rlimit(60)]
pub proof fn law_mlat_record_is_read_back(
    icao: Seq<char>,
    date: Seq<char>,
    time: Seq<char>,
    geo: GeodeticPoint,
    track: Option<Scalar>,
    speed: Option<Scalar>,
    alt_ft: Option<i32>,
    vrate_fpm: Option<i32>,
    receivers_count: usize,
)
    requires
        is_field(icao),
        is_field(date),
        is_field(time),
    ensures
        ({
            let f = fields(
                msg3_text(
                    icao,
                    date,
                    time,
                    geo,
                    track,
                    speed,
                    alt_ft,
                    vrate_fpm,
                    receivers_count,
                ),
                ',',
            );
            &&& f.len() == 22
            &&& f[0] == "MSG"@ && f[1] == "3"@ && f[2] == "1"@ && f[3] == "1"@ && f[5] == "1"@
            &&& f[4] == icao
            &&& f[6] == date && f[7] == time && f[8] == date && f[9] == time
            &&& reads_as(f[11], alt_ft)
            &&& reads_near(f[12], speed)
            &&& reads_near(f[13], track)
            &&& f[14] == fixed6(geo.lat)
            &&& f[15] == fixed6(geo.lon)
            &&& reads_as(f[16], vrate_fpm)
            &&& decimal_value(f[18]) == receivers_count
            &&& f[10].len() == 0 && f[17].len() == 0 && f[19].len() == 0 && f[20].len() == 0
            &&& f[21] == "0\r\n"@
        }),
{
    reveal_strlit("MSG");
    reveal_strlit("MSG,3,1,1,");
    reveal_strlit("3");
    reveal_strlit("1");
    reveal_strlit(",1,");
    reveal_strlit(",");
    reveal_strlit(",,");
    reveal_strlit(",,,");
    reveal_strlit(",,,0\r\n");
    reveal_strlit("0\r\n");
    lemma_plain_fields();
    lemma_optional_is_field(alt_ft);
    lemma_optional_is_field(vrate_fpm);
    lemma_optional_is_field(nearest_whole(speed));
    lemma_optional_is_field(nearest_whole(track));
    lemma_optional_reads(alt_ft);
    lemma_optional_reads(vrate_fpm);
    lemma_optional_reads(nearest_whole(speed));
    lemma_optional_reads(nearest_whole(track));
    lemma_whole_is_near(speed);
    lemma_whole_is_near(track);
    lemma_decimal_has_no_comma(receivers_count as nat);
    law_decimals_are_read_back(receivers_count as nat);
    lemma_fixed6_is_field(geo.lat);
    lemma_fixed6_is_field(geo.lon);
    let lat = fixed6(geo.lat);
    let lon = fixed6(geo.lon);
    let fast = optional(nearest_whole(speed));
    let way = optional(nearest_whole(track));
    let count = decimal(receivers_count as nat);
    let t0 = "MSG"@;
    lemma_one_field_alone(t0);
    let t1 = t0 + ","@ + "3"@;
    lemma_next_field(t0, "3"@);
    let t2 = t1 + ","@ + "1"@;
    lemma_next_field(t1, "1"@);
    let t3 = t2 + ","@ + "1"@;
    lemma_next_field(t2, "1"@);
    let a = "MSG,3,1,1,"@ + icao;
    assert("MSG,3,1,1,"@ =~= t3 + ","@);
    let t4 = t3 + ","@ + icao;
    lemma_next_field(t3, icao);
    assert(t4 =~= a);
    let t5 = t4 + ","@ + "1"@;
    lemma_next_field(t4, "1"@);
    let b = a + ",1,"@;
    assert(b =~= t5 + ","@);
    let t6 = t5 + ","@ + date;
    lemma_next_field(t5, date);
    let t7 = t6 + ","@ + time;
    lemma_next_field(t6, time);
    let t8 = t7 + ","@ + date;
    lemma_next_field(t7, date);
    let t9 = t8 + ","@ + time;
    lemma_next_field(t8, time);
    let c = b + moments(date, time);
    assert(c =~= t9);
    let t10 = t9 + ","@ + Seq::<char>::empty();
    lemma_next_field(t9, Seq::<char>::empty());
    assert(c + ",,"@ =~= t10 + ","@);
    let t11 = t10 + ","@ + optional(alt_ft);
    lemma_next_field(t10, optional(alt_ft));
    let d = c + ",,"@ + optional(alt_ft);
    assert(d =~= t11);
    let t12 = t11 + ","@ + fast;
    lemma_next_field(t11, fast);
    let t13 = t12 + ","@ + way;
    lemma_next_field(t12, way);
    let e = d + ","@ + fast + ","@ + way;
    assert(e =~= t13);
    let t14 = t13 + ","@ + lat;
    lemma_next_field(t13, lat);
    let t15 = t14 + ","@ + lon;
    lemma_next_field(t14, lon);
    let f = e + ","@ + lat + ","@ + lon;
    assert(f =~= t15);
    let t16 = t15 + ","@ + optional(vrate_fpm);
    lemma_next_field(t15, optional(vrate_fpm));
    let g = f + ","@ + optional(vrate_fpm);
    assert(g =~= t16);
    let t17 = t16 + ","@ + Seq::<char>::empty();
    lemma_next_field(t16, Seq::<char>::empty());
    assert(g + ",,"@ =~= t17 + ","@);
    let t18 = t17 + ","@ + count;
    lemma_next_field(t17, count);
    let h = g + ",,"@ + count;
    assert(h =~= t18);
    let t19 = t18 + ","@ + Seq::<char>::empty();
    lemma_next_field(t18, Seq::<char>::empty());
    let t20 = t19 + ","@ + Seq::<char>::empty();
    lemma_next_field(t19, Seq::<char>::empty());
    let t21 = t20 + ","@ + "0\r\n"@;
    lemma_next_field(t20, "0\r\n"@);
    assert(h + ",,,0\r\n"@ =~= t21);
    assert(t21 == msg3_text(icao, date, time, geo, track, speed, alt_ft, vrate_fpm, receivers_count));
}

} // verus!
