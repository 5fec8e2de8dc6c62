//! The receivers that are connected.

use crate::coordinates::{EcefPoint, GeodeticPoint};
use crate::scalar::Scalar;
use crate::track::{elapsed, since, SECOND};
use vstd::prelude::*;

verus! {

/// What a receiver says of itself when it connects.
#[derive(Debug)]
pub struct HandshakeRequest {
    pub user: String,
    pub lat: Scalar,
    pub lon: Scalar,
    /// In metres.
    pub alt: Scalar,
    pub privacy: bool,
    pub client_version: Option<String>,
    pub uuid: Option<String>,
    /// Whether it wants the positions that it has contributed to.
    pub return_results: Option<bool>,
}

/// A receiver that is connected.
#[derive(Debug)]
pub struct Receiver {
    pub user: String,
    pub source_ip: String,
    pub geodetic: GeodeticPoint,
    pub ecef: EcefPoint,
    pub privacy: bool,
    pub version: String,
    pub connected_at: u64,
    pub last_seen: u64,
    pub messages_received: u64,
    pub mlat_positions_contributed: u64,
}

/// A sum that stays at its largest value.
pub open spec fn capped(n: u64, more: u64) -> u64 {
    if n + more <= u64::MAX {
        (n + more) as u64
    } else {
        u64::MAX
    }
}

fn capped_sum(n: u64, more: u64) -> (r: u64)
    ensures
        r == capped(n, more),
{
    if n <= u64::MAX - more {
        n + more
    } else {
        u64::MAX
    }
}

/// Messages in a second, to the nearest whole number; the first second counts in full.
pub open spec fn rate_of(messages: u64, age: int) -> int {
    let t = if age < SECOND {
        SECOND as int
    } else {
        age
    };
    (2 * messages * SECOND + t) / (2 * t)
}

impl Receiver {
    /// The receiver that a request introduces. `ecef` is the place that the request names.
    pub fn new(req: HandshakeRequest, source_ip: String, ecef: EcefPoint, now: u64) -> (r: Receiver)
        ensures
            r.user == req.user,
            r.source_ip == source_ip,
            r.geodetic == (GeodeticPoint { lat: req.lat, lon: req.lon, alt: req.alt }),
            r.ecef == ecef,
            r.privacy == req.privacy,
            r.version@ == (match req.client_version {
                Some(v) => v@,
                None => "0.4.2"@,
            }),
            r.connected_at == now,
            r.last_seen == now,
            r.messages_received == 0,
            r.mlat_positions_contributed == 0,
    {
        Receiver {
            user: req.user,
            source_ip,
            geodetic: GeodeticPoint::new(req.lat, req.lon, req.alt),
            ecef,
            privacy: req.privacy,
            version: match req.client_version {
                Some(v) => v,
                None => "0.4.2".to_owned(),
            },
            connected_at: now,
            last_seen: now,
            messages_received: 0,
            mlat_positions_contributed: 0,
        }
    }

    /// The receiver has sent lines.
    pub fn hear(&mut self, lines: u64, now: u64)
        ensures
            *final(self) == (Receiver {
                last_seen: now,
                messages_received: capped(old(self).messages_received, lines),
                ..*old(self)
            }),
    {
        self.last_seen = now;
        self.messages_received = capped_sum(self.messages_received, lines);
    }

    /// The receiver has contributed to a position.
    pub fn contribute(&mut self)
        ensures
            *final(self) == (Receiver {
                mlat_positions_contributed: capped(old(self).mlat_positions_contributed, 1),
                ..*old(self)
            }),
    {
        self.mlat_positions_contributed = capped_sum(self.mlat_positions_contributed, 1);
    }

    /// Messages in a second since the receiver connected, to the nearest whole number.
    pub fn message_rate(&self, now: u64) -> (r: u64)
        ensures
            r == rate_of(self.messages_received, since(now, self.connected_at)),
    {
        let age: u64 = elapsed(now, self.connected_at);
        let t: u128 = if age < SECOND {
            SECOND as u128
        } else {
            age as u128
        };
        let m: u128 = self.messages_received as u128;
        let top: u128 = 2 * m * SECOND as u128 + t;
        let q: u128 = top / (2 * t);
        assert(q <= m) by (nonlinear_arith)
            requires
                t >= SECOND as u128,
                top == 2 * m * SECOND + t,
                q == top as int / (2 * t),
                SECOND == 1_000_000_000,
        {
            if q > m {
                assert(q * (2 * t) <= top);
                assert(q * (2 * t) >= (m + 1) * (2 * t));
                assert((m + 1) * (2 * t) == 2 * m * t + 2 * t);
                assert(2 * m * t >= 2 * m * SECOND);
            }
        }
        q as u64
    }
}

/// The messages in a second are the nearest whole number to what came over the time since the
/// receiver connected, or over one second where that is less.
pub proof fn law_rate_is_messages_over_time(messages: u64, age: int)
    requires
        age >= 0,
    ensures
        ({
            let t = if age < 1_000_000_000 {
                1_000_000_000
            } else {
                age
            };
            let r = rate_of(messages, age);
            -t < 2 * (r * t - messages * 1_000_000_000) <= t
        }),
{
    let t = if age < 1_000_000_000 {
        1_000_000_000
    } else {
        age
    };
    let x = 2 * messages * SECOND + t;
    let r = rate_of(messages, age);
    vstd::arithmetic::div_mod::lemma_fundamental_div_mod(x, 2 * t);
    vstd::arithmetic::div_mod::lemma_mod_bound(x, 2 * t);
    assert((2 * t) * r == 2 * (r * t)) by (nonlinear_arith);
}

/// A sum is exact as far as it fits, and never less than what was there.
pub proof fn law_sums_are_capped(n: u64, more: u64)
    ensures
        n + more <= u64::MAX ==> capped(n, more) == n + more,
        n + more > u64::MAX ==> capped(n, more) == u64::MAX,
{
}

} // verus!
