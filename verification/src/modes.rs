//! A lenient reading of Mode S frames: altitudes are not checked against a range, and a
//! frame of an unknown format has the address zero.

use crate::messages::{
    be24, downlink_format, frame_address, modes_crc_residual, number24, residual,
};
use vstd::prelude::*;

verus! {

/// The residual of the frame at the start of `payload`.
pub fn crc_residual(payload: &[u8]) -> (r: u32)
    ensures
        r == residual(payload@),
{
    modes_crc_residual(payload)
}

/// The altitude of an 11-bit count of steps of 25 ft.
pub open spec fn steps_of_25(n: int) -> Option<i32> {
    Some((n * 25 - 1000) as i32)
}

/// The altitude that a 13-bit altitude field stands for, where it counts steps of 25 ft.
pub open spec fn ac13_steps(ac13: u16) -> Option<i32> {
    if ac13 & 0x0040 != 0 || ac13 & 0x0010 == 0 {
        None
    } else {
        steps_of_25((ac13 / 0x80 % 0x40) * 0x20 + (ac13 / 0x20 % 2) * 0x10 + ac13 % 0x10)
    }
}

/// The altitude that a 12-bit altitude field stands for, where it counts steps of 25 ft.
pub open spec fn ac12_steps(ac12: u16) -> Option<i32> {
    if ac12 & 0x0010 == 0 {
        None
    } else {
        steps_of_25((ac12 / 0x20 % 0x80) * 0x10 + ac12 % 0x10)
    }
}

/// The altitude that a frame reports.
pub open spec fn lenient_altitude(payload: Seq<u8>) -> Option<i32> {
    if payload.len() < 4 {
        None
    } else {
        let df = downlink_format(payload[0]);
        if df == 0 || df == 4 || df == 16 || df == 20 {
            ac13_steps(((payload[2] % 0x20) * 0x100 + payload[3]) as u16)
        } else if (df == 17 || df == 18) && payload.len() >= 7 && (9 <= payload[4] / 8 <= 18 || 20
            <= payload[4] / 8 <= 22) {
            ac12_steps((payload[5] * 0x10 + payload[6] / 0x10) as u16)
        } else {
            None
        }
    }
}

/// The altitude in feet that a frame reports.
pub fn extract_altitude(payload: &[u8]) -> (r: Option<i32>)
    ensures
        r == lenient_altitude(payload@),
{
    if payload.len() < 4 {
        return None;
    }
    let df: u8 = payload[0] / 8;
    if df == 0 || df == 4 || df == 16 || df == 20 {
        let ac13: u16 = ((payload[2] % 0x20) as u16) * 0x100 + payload[3] as u16;
        if ac13 & 0x0040 != 0 || ac13 & 0x0010 == 0 {
            return None;
        }
        let n: u16 = (ac13 / 0x80 % 0x40) * 0x20 + (ac13 / 0x20 % 2) * 0x10 + ac13 % 0x10;
        return Some((n as i32) * 25 - 1000);
    }
    if (df == 17 || df == 18) && payload.len() >= 7 {
        let type_code: u8 = payload[4] / 8;
        if (9 <= type_code && type_code <= 18) || (20 <= type_code && type_code <= 22) {
            let ac12: u16 = (payload[5] as u16) * 0x10 + (payload[6] / 0x10) as u16;
            if ac12 & 0x0010 != 0 {
                let n: u16 = (ac12 / 0x20 % 0x80) * 0x10 + ac12 % 0x10;
                return Some((n as i32) * 25 - 1000);
            }
        }
    }
    None
}

/// The downlink format and the aircraft address of a frame; the address of a frame of an
/// unknown format is zero.
pub open spec fn lenient_address(payload: Seq<u8>) -> Option<(u8, u32)> {
    if payload.len() == 0 {
        None
    } else {
        let df = downlink_format(payload[0]);
        if df == 11 || df == 17 || df == 18 {
            if payload.len() < 4 {
                None
            } else {
                Some((df, be24(payload[1], payload[2], payload[3])))
            }
        } else if df == 0 || df == 4 || df == 5 || df == 16 || df == 20 || df == 21 {
            Some((df, residual(payload)))
        } else {
            Some((df, 0))
        }
    }
}

/// The downlink format and the aircraft address of a frame.
pub fn extract_icao_and_df(payload: &[u8]) -> (r: Option<(u8, u32)>)
    ensures
        r == lenient_address(payload@),
{
    if payload.len() == 0 {
        return None;
    }
    let df: u8 = payload[0] / 8;
    if df == 11 || df == 17 || df == 18 {
        if payload.len() < 4 {
            return None;
        }
        return Some((df, number24(payload[1], payload[2], payload[3])));
    }
    if df == 0 || df == 4 || df == 5 || df == 16 || df == 20 || df == 21 {
        return Some((df, crc_residual(payload)));
    }
    Some((df, 0))
}

/// An altitude in steps of 25 ft is read back from the fields of thirteen and of twelve bits that
/// it is written into.
pub proof fn law_lenient_steps_are_read_back(n: u16, ac13: u16, ac12: u16)
    requires
        n < 2048,
        ac13 == (n / 32) * 0x80 + (n / 16 % 2) * 0x20 + 0x10 + n % 16,
        ac12 == (n / 16) * 0x20 + 0x10 + n % 16,
    ensures
        ac13_steps(ac13) == Some((25 * n - 1000) as i32),
        ac12_steps(ac12) == Some((25 * n - 1000) as i32),
{
    assert(ac13 & 0x0040 == 0 && ac13 & 0x0010 != 0 && ac13 / 0x80 % 0x40 == n / 32 && ac13 / 0x20 % 2
        == n / 16 % 2 && ac13 % 0x10 == n % 16) by (bit_vector)
        requires
            n < 2048,
            ac13 == (n / 32) * 0x80 + (n / 16 % 2) * 0x20 + 0x10 + n % 16,
    ;
    assert(ac12 & 0x0010 != 0 && ac12 / 0x20 % 0x80 == n / 16 && ac12 % 0x10 == n % 16)
        by (bit_vector)
        requires
            n < 2048,
            ac12 == (n / 16) * 0x20 + 0x10 + n % 16,
    ;
}

/// Replies of the formats 0, 4, 16 and 20 and squitters of airborne positions may report an
/// altitude, no others do; without the Q bit, or with the M bit, there is none.
pub proof fn law_which_frames_report_leniently(frame: Seq<u8>)
    requires
        frame.len() >= 7,
    ensures
        ({
            let df = frame[0] / 8;
            let reply = df == 0 || df == 4 || df == 16 || df == 20;
            let squitter = (df == 17 || df == 18) && (72 <= frame[4] < 152 || 160 <= frame[4] < 184);
            &&& reply ==> lenient_altitude(frame) == ac13_steps(
                (256 * (frame[2] % 32) + frame[3]) as u16,
            )
            &&& squitter ==> lenient_altitude(frame) == ac12_steps(
                (16 * frame[5] + frame[6] / 16) as u16,
            )
            &&& !reply && !squitter ==> lenient_altitude(frame) is None
        }),
        forall|field: u16|
            #![trigger ac13_steps(field)]
            field & 0x40 != 0 || field & 0x10 == 0 ==> ac13_steps(field) is None,
        forall|field: u16| #![trigger ac12_steps(field)] field & 0x10 == 0 ==> ac12_steps(field) is None,
{
}

/// The address is the same as by the strict reading wherever that gives one; a frame of a format
/// without an address has the address zero.
pub proof fn law_lenient_address_agrees(frame: Seq<u8>)
    ensures
        frame_address(frame) is Some ==> lenient_address(frame) == frame_address(frame),
        frame.len() > 0 ==> (frame_address(frame) is None && lenient_address(frame) is Some
            ==> lenient_address(frame) == Some((frame[0] / 8, 0u32))),
        frame.len() == 0 ==> lenient_address(frame) is None,
        frame.len() > 0 ==> (lenient_address(frame) is None <==> frame.len() < 4 && (frame[0] / 8 == 11
            || frame[0] / 8 == 17 || frame[0] / 8 == 18)),
{
}

} // verus!
