//! Frames that several receivers are still reporting.

use crate::scalar::Scalar;
use crate::table::{ById, Table};
use crate::text::{chars_of, hex_digit, hex_digit_value};
use crate::track::{elapsed, since, MILLISECOND};
use vstd::prelude::*;

verus! {

/// The hash of no bytes.
pub const HASH_START: u64 = 0xcbf2_9ce4_8422_2325;

/// What the hash is multiplied by for each byte.
pub const HASH_PRIME: u64 = 0x100_0000_01b3;

/// The 64-bit FNV-1a hash of bytes.
pub open spec fn payload_hash(payload: Seq<u8>) -> u64
    decreases payload.len(),
{
    if payload.len() == 0 {
        HASH_START
    } else {
        let before = payload_hash(payload.drop_last());
        (((before ^ (payload.last() as u64)) * HASH_PRIME) % 0x1_0000_0000_0000_0000) as u64
    }
}

/// The hash by which copies of a frame are recognised.
pub fn hash_payload(payload: &[u8]) -> (r: u64)
    ensures
        r == payload_hash(payload@),
{
    let mut hash: u64 = HASH_START;
    let mut i: usize = 0;
    assert(payload@.take(0) =~= Seq::<u8>::empty());
    while i < payload.len()
        invariant
            i <= payload@.len(),
            hash == payload_hash(payload@.take(i as int)),
        decreases payload@.len() - i,
    {
        assert(payload@.take(i + 1).drop_last() =~= payload@.take(i as int));
        hash = (hash ^ (payload[i] as u64)).wrapping_mul(HASH_PRIME);
        i += 1;
    }
    assert(payload@.take(i as int) =~= payload@);
    hash
}

/// The byte that two characters stand for in base 16; a plus sign may stand before one digit.
pub open spec fn hex_pair(a: char, b: char) -> Option<u8> {
    match (hex_digit(a as u32), hex_digit(b as u32)) {
        (Some(high), Some(low)) => Some((16 * high + low) as u8),
        (None, Some(low)) => if a == '+' {
            Some(low as u8)
        } else {
            None
        },
        _ => None,
    }
}

/// The bytes that a text stands for in base 16, two characters each; none where it does not.
pub open spec fn hex_bytes(s: Seq<char>) -> Option<Seq<u8>>
    decreases s.len(),
{
    if s.len() == 0 {
        Some(Seq::empty())
    } else if s.len() == 1 {
        None
    } else {
        match (hex_bytes(s.take(s.len() - 2)), hex_pair(s[s.len() - 2], s[s.len() - 1])) {
            (Some(bytes), Some(b)) => Some(bytes.push(b)),
            _ => None,
        }
    }
}

/// Where a text stands for bytes, so does each beginning of an even length.
proof fn lemma_hex_bytes_prefix(s: Seq<char>, n: int)
    requires
        0 <= n <= s.len(),
        n % 2 == 0,
        hex_bytes(s) is Some,
    ensures
        hex_bytes(s.take(n)) is Some,
        s.len() % 2 == 0,
    decreases s.len(),
{
    if s.len() >= 2 {
        lemma_hex_bytes_prefix(s.take(s.len() - 2), if n > s.len() - 2 {
            n - 2
        } else {
            n
        });
    }
    if n < s.len() {
        if s.len() >= 2 {
            assert(s.take(s.len() - 2).take(n) =~= s.take(n));
        }
    } else {
        assert(s.take(n) =~= s);
    }
}

/// The bytes that a text stands for in base 16.
pub fn hex_to_bytes(s: &str) -> (r: Option<Vec<u8>>)
    ensures
        r is Some <==> hex_bytes(s@) is Some,
        r matches Some(v) ==> hex_bytes(s@) == Some(v@),
{
    let chars: Vec<char> = chars_of(s);
    let n: usize = chars.len();
    if n % 2 != 0 {
        proof {
            if hex_bytes(s@) is Some {
                lemma_hex_bytes_prefix(s@, 0);
            }
        }
        return None;
    }
    let mut bytes: Vec<u8> = Vec::new();
    let mut i: usize = 0;
    assert(s@.take(0) =~= Seq::<char>::empty());
    assert(bytes@ =~= Seq::<u8>::empty());
    while i < n
        invariant
            i <= n,
            n % 2 == 0,
            i % 2 == 0,
            chars@ == s@,
            n == s@.len(),
            hex_bytes(s@.take(i as int)) == Some(bytes@),
        decreases n - i,
    {
        proof {
            let next = s@.take(i + 2);
            assert(next.take(next.len() - 2) =~= s@.take(i as int));
            assert(next[next.len() - 2] == s@[i as int]);
            assert(next[next.len() - 1] == s@[i + 1]);
            if hex_bytes(s@) is Some {
                lemma_hex_bytes_prefix(s@, i + 2);
            }
        }
        let a: char = chars[i];
        let b: char = chars[i + 1];
        let low: u32 = match hex_digit_value(b as u32) {
            Some(d) => d,
            None => return None,
        };
        let byte: u32 = match hex_digit_value(a as u32) {
            Some(d) => 16 * d + low,
            None => {
                if a != '+' {
                    return None;
                }
                low
            },
        };
        bytes.push(byte as u8);
        i += 2;
    }
    assert(s@.take(i as int) =~= s@);
    Some(bytes)
}

/// A receiver's report of a frame, with the ticks of its clock.
#[derive(Debug)]
pub struct PendingMsgReception {
    pub user: String,
    pub raw_ts: Scalar,
}

/// A frame and who has reported it.
#[derive(Debug)]
pub struct Frame {
    pub icao: u32,
    pub receptions: Vec<PendingMsgReception>,
    pub altitude: Option<i32>,
    pub dispatched: bool,
    pub created: u64,
}

/// So many reports of a frame are kept.
pub const MAX_RECEPTIONS: usize = 16;

/// Four stations or more are waited for so long.
pub const FOUR_STATION_WAIT: u64 = 320 * MILLISECOND;

/// With three stations, a fourth is waited for so long.
pub const THREE_STATION_WAIT: u64 = 600 * MILLISECOND;

/// How long a frame is kept once it was dispatched.
pub const DISPATCHED_LIFETIME: u64 = 250 * MILLISECOND;

/// How long a frame is kept that one station reported.
pub const SINGLE_LIFETIME: u64 = 500 * MILLISECOND;

/// How long a frame is kept that two stations reported.
pub const DOUBLE_LIFETIME: u64 = 750 * MILLISECOND;

/// How long any other frame is kept.
pub const FRAME_LIFETIME: u64 = 900 * MILLISECOND;

/// How long the reports of a clock comparison are kept.
pub const SYNC_LIFETIME: u64 = 500 * MILLISECOND;

/// Reports by name, in the order in which they came.
pub type Heard = Seq<(Seq<char>, Scalar)>;

impl Frame {
    /// Who has reported the frame, and when.
    pub open spec fn heard(self) -> Heard {
        self.receptions@.map_values(|r: PendingMsgReception| (r.user@, r.raw_ts))
    }

    /// No station stands twice, and there are not too many.
    pub open spec fn wf(self) -> bool {
        &&& self.receptions@.len() <= MAX_RECEPTIONS
        &&& forall|i: int, j: int|
            0 <= i < j < self.heard().len() ==> (#[trigger] self.heard()[i]).0 != (
            #[trigger] self.heard()[j]).0
    }

    /// Enough stations have reported the frame, and others were waited for.
    pub open spec fn is_ready(self, now: u64) -> bool {
        let age = since(now, self.created);
        let n = self.receptions@.len();
        &&& !self.dispatched
        &&& (n >= 4 && age >= FOUR_STATION_WAIT) || (n >= 3 && age >= THREE_STATION_WAIT)
    }

    /// The frame is young enough to be kept.
    pub open spec fn is_kept(self, now: u64) -> bool {
        let n = self.receptions@.len();
        since(now, self.created) < (if self.dispatched {
            DISPATCHED_LIFETIME
        } else if n < 2 {
            SINGLE_LIFETIME
        } else if n == 2 {
            DOUBLE_LIFETIME
        } else {
            FRAME_LIFETIME
        })
    }

    /// Whether enough stations have reported the frame, and others were waited for.
    pub fn ready(&self, now: u64) -> (r: bool)
        ensures
            r == self.is_ready(now),
    {
        let age: u64 = elapsed(now, self.created);
        let n: usize = self.receptions.len();
        !self.dispatched && ((n >= 4 && age >= FOUR_STATION_WAIT) || (n >= 3 && age
            >= THREE_STATION_WAIT))
    }

    /// Whether the frame is young enough to be kept.
    pub fn kept(&self, now: u64) -> (r: bool)
        ensures
            r == self.is_kept(now),
    {
        let age: u64 = elapsed(now, self.created);
        let n: usize = self.receptions.len();
        if self.dispatched {
            age < DISPATCHED_LIFETIME
        } else if n < 2 {
            age < SINGLE_LIFETIME
        } else if n == 2 {
            age < DOUBLE_LIFETIME
        } else {
            age < FRAME_LIFETIME
        }
    }

    /// Takes a report, unless the station has reported or there are enough.
    fn hear(&mut self, user: &String, ts: Scalar)
        requires
            old(self).wf(),
        ensures
            final(self).wf(),
            final(self).heard() == with_report(old(self).heard(), user@, ts),
            *final(self) == (Frame { receptions: final(self).receptions, ..*old(self) }),
    {
        let n: usize = self.receptions.len();
        if n >= MAX_RECEPTIONS {
            return;
        }
        let mut i: usize = 0;
        while i < n
            invariant
                i <= n,
                n == self.receptions@.len(),
                *self == *old(self),
                old(self).wf(),
                n < MAX_RECEPTIONS,
                forall|j: int| 0 <= j < i ==> (#[trigger] self.heard()[j]).0 != user@,
            decreases n - i,
        {
            if self.receptions[i].user == *user {
                assert(self.heard()[i as int].0 == user@);
                return;
            }
            i += 1;
        }
        self.receptions.push(PendingMsgReception { user: user.clone(), raw_ts: ts });
        assert(self.heard() =~= old(self).heard().push((user@, ts)));
    }
}

/// A name stands among the reports.
pub open spec fn reported(heard: Heard, user: Seq<char>) -> bool {
    exists|i: int| 0 <= i < heard.len() && (#[trigger] heard[i]).0 == user
}

/// The reports with one more, unless the station has reported or there are enough.
pub open spec fn with_report(heard: Heard, user: Seq<char>, ts: Scalar) -> Heard {
    if heard.len() < MAX_RECEPTIONS && !reported(heard, user) {
        heard.push((user, ts))
    } else {
        heard
    }
}

/// A frame after a report.
pub open spec fn after_report(
    before: Option<Frame>,
    icao: u32,
    user: Seq<char>,
    ts: Scalar,
    altitude: Option<i32>,
    now: u64,
    after: Frame,
) -> bool {
    match before {
        Some(f) => {
            &&& after.icao == (if f.icao == 0 {
                icao
            } else {
                f.icao
            })
            &&& after.altitude == (if f.altitude is None {
                altitude
            } else {
                f.altitude
            })
            &&& after.dispatched == f.dispatched
            &&& after.created == f.created
            &&& after.heard() == with_report(f.heard(), user, ts)
        },
        None => {
            &&& after.icao == icao
            &&& after.altitude == altitude
            &&& !after.dispatched
            &&& after.created == now
            &&& after.heard() == seq![(user, ts)]
        },
    }
}

/// The row of a key, where it has one.
pub open spec fn row_of<V>(rows: Map<u64, V>, key: u64) -> Option<V> {
    if rows.contains_key(key) {
        Some(rows[key])
    } else {
        None
    }
}

/// The frames that are being reported, by their hash.
pub struct FrameBuffer {
    frames: Table<ById, Frame>,
}

impl FrameBuffer {
    /// Every frame is in order.
    pub closed spec fn wf(self) -> bool {
        &&& self.frames.wf()
        &&& forall|k: u64| #[trigger] self.frames@.contains_key(k) ==> self.frames@[k].wf()
    }

    /// The frames.
    pub closed spec fn view(&self) -> Map<u64, Frame> {
        self.frames@
    }

    /// No frame has more than sixteen reports, and none has two of one station.
    pub proof fn law_frames_in_order(self)
        requires
            self.wf(),
        ensures
            forall|k: u64| #[trigger] self@.contains_key(k) ==> self@[k].wf(),
    {
    }

    /// No frames.
    pub fn new() -> (b: FrameBuffer)
        ensures
            b.wf(),
            (b@ == Map::<u64, Frame>::empty()),
    {
        FrameBuffer { frames: Table::new() }
    }

    /// Takes a station's report of a frame.
    pub fn report(
        &mut self,
        hash: u64,
        icao: u32,
        user: &String,
        ts: Scalar,
        altitude: Option<i32>,
        now: u64,
    )
        requires
            old(self).wf(),
        ensures
            final(self).wf(),
            final(self)@ == old(self)@.insert(hash, final(self)@[hash]),
            after_report(
                row_of(old(self)@, hash),
                icao,
                user@,
                ts,
                altitude,
                now,
                final(self)@[hash],
            ),
            final(self)@.contains_key(hash),
            reported(final(self)@[hash].heard(), user@) || final(self)@[hash].heard().len() >= 16,
    {
        match self.frames.find(&hash) {
            Some(i) => {
                let row = self.frames.row_at_mut(i);
                let ghost before = *row;
                if row.icao == 0 {
                    row.icao = icao;
                }
                if row.altitude.is_none() {
                    row.altitude = altitude;
                }
                assert(row.heard() =~= before.heard());
                row.hear(user, ts);
            },
            None => {
                let mut receptions: Vec<PendingMsgReception> = Vec::new();
                receptions.push(PendingMsgReception { user: user.clone(), raw_ts: ts });
                let f: Frame = Frame { icao, receptions, altitude, dispatched: false, created: now };
                assert(f.heard() =~= seq![(user@, ts)]);
                self.frames.add(hash, f);
            },
        }
        assert(self@ =~= old(self)@.insert(hash, self@[hash]));
        proof {
            match row_of(old(self)@, hash) {
                Some(f) => {
                    if !reported(f.heard(), user@) && f.heard().len() < 16 {
                        assert(self@[hash].heard()[f.heard().len() as int].0 == user@);
                    }
                },
                None => {
                    assert(self@[hash].heard()[0].0 == user@);
                },
            }
        }
    }

    /// Marks the frames that are ready, and gives their hashes.
    pub fn dispatch(&mut self, now: u64) -> (r: Vec<u64>)
        requires
            old(self).wf(),
        ensures
            final(self).wf(),
            r@.no_duplicates(),
            forall|k: u64| #[trigger]
                r@.contains(k) <==> old(self)@.contains_key(k) && old(self)@[k].is_ready(now),
            final(self)@ == old(self)@.map_entries(
                |k: u64, f: Frame| Frame { dispatched: f.dispatched || f.is_ready(now), ..f },
            ),
            forall|k: u64| #[trigger]
                r@.contains(k) ==> final(self)@.contains_key(k) && final(self)@[k].dispatched
                    && final(self)@[k].heard().len() >= 3 && !old(self)@[k].dispatched,
    {
        let mut r: Vec<u64> = Vec::new();
        let n: usize = self.frames.len();
        let mut i: usize = 0;
        while i < n
            invariant
                i <= n,
                n == self.frames.keys().len(),
                self.wf(),
                old(self).wf(),
                self.frames.keys() == old(self).frames.keys(),
                self@.dom() == old(self)@.dom(),
                r@.no_duplicates(),
                forall|k: u64| #[trigger]
                    r@.contains(k) <==> old(self)@.contains_key(k) && old(self)@[k].is_ready(now)
                        && exists|j: int| 0 <= j < i && self.frames.keys()[j] == k,
                forall|j: int|
                    0 <= j < i ==> self@[#[trigger] self.frames.keys()[j]] == (Frame {
                        dispatched: old(self)@[self.frames.keys()[j]].dispatched
                            || old(self)@[self.frames.keys()[j]].is_ready(now),
                        ..old(self)@[self.frames.keys()[j]]
                    }),
                forall|j: int|
                    i <= j < n ==> self@[#[trigger] self.frames.keys()[j]]
                        == old(self)@[self.frames.keys()[j]],
            decreases n - i,
        {
            let ghost before = *self;
            let ghost found = r@;
            let ghost key = self.frames.keys()[i as int];
            proof {
                self.frames.lemma_keys();
                assert(!found.contains(key)) by {
                    if found.contains(key) {
                        let j = choose|j: int| 0 <= j < i && self.frames.keys()[j] == key;
                    }
                }
            }
            if self.frames.row_at(i).ready(now) {
                let hash: u64 = *self.frames.key_at(i);
                let row = self.frames.row_at_mut(i);
                row.dispatched = true;
                r.push(hash);
                proof {
                    assert(r@ =~= found.push(key));
                    assert(found.push(key).no_duplicates());
                    assert(self.frames@[key].heard() =~= before.frames@[key].heard());
                    assert(self@.dom() =~= old(self)@.dom());
                    assert forall|k: u64| #[trigger] r@.contains(k) <==> k == key || found.contains(k)
                        by {
                        if k == key {
                            assert(r@[r@.len() - 1] == key);
                        }
                        if found.contains(k) {
                            let x = choose|x: int| 0 <= x < found.len() && found[x] == k;
                            assert(r@[x] == k);
                        }
                    }
                }
            }
            proof {
                assert forall|k: u64| #[trigger]
                    r@.contains(k) <==> old(self)@.contains_key(k) && old(self)@[k].is_ready(now)
                        && exists|j: int| 0 <= j < i + 1 && self.frames.keys()[j] == k by {
                    if exists|j: int| 0 <= j < i && self.frames.keys()[j] == k {
                        let j = choose|j: int| 0 <= j < i && self.frames.keys()[j] == k;
                        assert(0 <= j < i + 1 && self.frames.keys()[j] == k);
                    }
                    assert(0 <= i < i + 1 && self.frames.keys()[i as int] == key);
                }
            }
            i += 1;
        }
        proof {
            old(self).frames.lemma_keys();
            assert forall|k: u64| #[trigger] old(self)@.contains_key(k) implies self@[k] == (Frame {
                dispatched: old(self)@[k].dispatched || old(self)@[k].is_ready(now),
                ..old(self)@[k]
            }) by {
                let j = choose|j: int| 0 <= j < n && self.frames.keys()[j] == k;
                assert(self.frames.keys()[j] == k);
            }
            assert(self@ =~= old(self)@.map_entries(
                |k: u64, f: Frame| Frame { dispatched: f.dispatched || f.is_ready(now), ..f },
            ));
        }
        r
    }

    /// Takes a frame out.
    pub fn take(&mut self, hash: u64) -> (r: Option<Frame>)
        requires
            old(self).wf(),
        ensures
            final(self).wf(),
            r == row_of(old(self)@, hash),
            final(self)@ == old(self)@.remove(hash),
    {
        self.frames.remove(&hash)
    }

    /// Forgets the frames that are too old.
    pub fn purge(&mut self, now: u64)
        requires
            old(self).wf(),
        ensures
            final(self).wf(),
            final(self)@ == old(self)@.remove_keys(
                Set::new(|k: u64| !old(self)@[k].is_kept(now)),
            ),
    {
        let ghost gone = Set::new(|k: u64| !old(self)@[k].is_kept(now));
        let mut i: usize = self.frames.len();
        while i > 0
            invariant
                i <= self.frames.keys().len(),
                self.wf(),
                old(self).wf(),
                gone == Set::new(|k: u64| !old(self)@[k].is_kept(now)),
                forall|k: u64| #[trigger]
                    self@.contains_key(k) ==> old(self)@.contains_key(k) && self@[k] == old(self)@[k],
                forall|k: u64| #[trigger]
                    old(self)@.contains_key(k) && !gone.contains(k) ==> self@.contains_key(k),
                forall|j: int|
                    i <= j < self.frames.keys().len() ==> !gone.contains(
                        #[trigger] self.frames.keys()[j],
                    ),
            decreases i,
        {
            i -= 1;
            let ghost before = *self;
            let ghost key = self.frames.keys()[i as int];
            proof {
                self.frames.lemma_keys();
                assert(self@.contains_key(key));
            }
            if !self.frames.row_at(i).kept(now) {
                self.frames.remove_at(i);
            }
            proof {
                assert forall|j: int| i <= j < self.frames.keys().len() implies !gone.contains(
                    #[trigger] self.frames.keys()[j],
                ) by {
                    if before.frames.keys().len() != self.frames.keys().len() {
                        if j == i {
                            assert(self.frames.keys()[j] == before.frames.keys().last());
                        } else {
                            assert(self.frames.keys()[j] == before.frames.keys()[j]);
                        }
                    }
                }
            }
        }
        proof {
            self.frames.lemma_keys();
            assert(self@ =~= old(self)@.remove_keys(gone));
        }
    }
}

/// A receiver's report of a pair of frames by which clocks are compared: when the signal left
/// the aircraft by the receiver's clock, and the time between the two.
#[derive(Debug)]
pub struct PendingSyncReception {
    pub user: String,
    pub raw_t_even: Scalar,
    pub interval: Scalar,
}

/// Reports of a pair of frames by name.
pub type Compared = Seq<(Seq<char>, Scalar, Scalar)>;

/// A list of reports.
pub open spec fn compared(peers: Seq<PendingSyncReception>) -> Compared {
    peers.map_values(|p: PendingSyncReception| (p.user@, p.raw_t_even, p.interval))
}

/// A pair of frames and who has reported it.
#[derive(Debug)]
pub struct SyncFrame {
    pub peers: Vec<PendingSyncReception>,
    pub created: u64,
}

impl SyncFrame {
    /// No station stands twice.
    pub open spec fn wf(self) -> bool {
        forall|i: int, j: int|
            0 <= i < j < self.peers@.len() ==> (#[trigger] self.peers@[i]).user@ != (
            #[trigger] self.peers@[j]).user@
    }
}

/// The reports of the other stations.
pub open spec fn others(peers: Compared, user: Seq<char>) -> Compared {
    peers.filter(|p: (Seq<char>, Scalar, Scalar)| p.0 != user)
}

/// A station stands among the reports.
pub open spec fn compares(peers: Compared, user: Seq<char>) -> bool {
    exists|i: int| 0 <= i < peers.len() && (#[trigger] peers[i]).0 == user
}

/// A station reports a pair of frames, and meets what the others have reported of it.
pub open spec fn joined(
    before: Map<u64, SyncFrame>,
    after: Map<u64, SyncFrame>,
    hash: u64,
    user: Seq<char>,
    even: Scalar,
    interval: Scalar,
    now: u64,
    met: Seq<PendingSyncReception>,
) -> bool {
    &&& after == before.insert(hash, after[hash])
    &&& match row_of(before, hash) {
        Some(f) => {
            &&& compared(met) == others(compared(f.peers@), user)
            &&& after[hash].created == f.created
            &&& compared(after[hash].peers@) == (if compares(compared(f.peers@), user) {
                compared(f.peers@)
            } else {
                compared(f.peers@).push((user, even, interval))
            })
        },
        None => {
            &&& compared(met) == Compared::empty()
            &&& after[hash].created == now
            &&& compared(after[hash].peers@) == seq![(user, even, interval)]
        },
    }
}

/// The pairs of frames that are being reported, by the hash of the even frame.
pub struct SyncBuffer {
    syncs: Table<ById, SyncFrame>,
}

impl SyncBuffer {
    /// Every pair is in order.
    pub closed spec fn wf(self) -> bool {
        &&& self.syncs.wf()
        &&& forall|k: u64| #[trigger] self.syncs@.contains_key(k) ==> self.syncs@[k].wf()
    }

    /// The pairs of frames.
    pub closed spec fn view(&self) -> Map<u64, SyncFrame> {
        self.syncs@
    }

    /// No pair of frames has two reports of one station.
    pub proof fn law_pairs_in_order(self)
        requires
            self.wf(),
        ensures
            forall|k: u64| #[trigger] self@.contains_key(k) ==> self@[k].wf(),
    {
    }

    /// No pairs.
    pub fn new() -> (b: SyncBuffer)
        ensures
            b.wf(),
            (b@ == Map::<u64, SyncFrame>::empty()),
    {
        SyncBuffer { syncs: Table::new() }
    }

    /// Takes a station's report, and gives those of the others, with whose clocks the station's
    /// is compared. A station's first report stands.
    pub fn join(&mut self, hash: u64, user: &String, even: Scalar, interval: Scalar, now: u64) -> (r:
        Vec<PendingSyncReception>)
        requires
            old(self).wf(),
        ensures
            final(self).wf(),
            joined(
                old(self)@,
                final(self)@,
                hash,
                user@,
                even,
                interval,
                now,
                r@,
            ),
    {
        let mut r: Vec<PendingSyncReception> = Vec::new();
        let report: PendingSyncReception = PendingSyncReception {
            user: user.clone(),
            raw_t_even: even,
            interval,
        };
        match self.syncs.find(&hash) {
            Some(at) => {
                let ghost f = self@[hash];
                let ghost all = compared(f.peers@);
                let n: usize = self.syncs.row_at(at).peers.len();
                let mut known: bool = false;
                let mut i: usize = 0;
                assert(all.take(0) =~= Compared::empty());
                assert(compared(r@) =~= Compared::empty());
                reveal(Seq::filter);
                assert(others(all.take(0), user@) =~= Compared::empty());
                while i < n
                    invariant
                        i <= n,
                        *self == *old(self),
                        self.wf(),
                        at < self.syncs.keys().len(),
                        self.syncs.keys()[at as int] == hash,
                        f == self.syncs@[hash],
                        n == f.peers@.len(),
                        all == compared(f.peers@),
                        compared(r@) == others(all.take(i as int), user@),
                        known == exists|j: int| 0 <= j < i && (#[trigger] all[j]).0 == user@,
                    decreases n - i,
                {
                    let p = &self.syncs.row_at(at).peers[i];
                    let ghost before = r@;
                    proof {
                        reveal(Seq::filter);
                        assert(all.take(i + 1).drop_last() =~= all.take(i as int));
                        assert(all.take(i + 1).last() == all[i as int]);
                    }
                    if p.user == *user {
                        known = true;
                        assert(all[i as int].0 == user@);
                    } else {
                        r.push(
                            PendingSyncReception {
                                user: p.user.clone(),
                                raw_t_even: p.raw_t_even,
                                interval: p.interval,
                            },
                        );
                        assert(compared(r@) =~= compared(before).push(all[i as int]));
                    }
                    i += 1;
                }
                assert(all.take(n as int) =~= all);
                assert(known == compares(all, user@));
                if !known {
                    let row = self.syncs.row_at_mut(at);
                    row.peers.push(report);
                    proof {
                        assert(compared(row.peers@) =~= all.push((user@, even, interval)));
                        assert forall|i: int, j: int|
                            0 <= i < j < row.peers@.len() implies (#[trigger] row.peers@[i]).user@
                            != (#[trigger] row.peers@[j]).user@ by {
                            assert(all[i].0 == f.peers@[i].user@);
                        }
                    }
                }
            },
            None => {
                let mut peers: Vec<PendingSyncReception> = Vec::new();
                peers.push(report);
                assert(compared(peers@) =~= seq![(user@, even, interval)]);
                assert(compared(r@) =~= Compared::empty());
                self.syncs.add(hash, SyncFrame { peers, created: now });
            },
        }
        assert(self@ =~= old(self)@.insert(hash, self@[hash]));
        r
    }

    /// Forgets the pairs that are too old.
    pub fn purge(&mut self, now: u64)
        requires
            old(self).wf(),
        ensures
            final(self).wf(),
            final(self)@ == old(self)@.remove_keys(
                Set::new(|k: u64| since(now, old(self)@[k].created) >= SYNC_LIFETIME),
            ),
            forall|k: u64| #[trigger]
                final(self)@.contains_key(k) <==> old(self)@.contains_key(k) && now
                    < old(self)@[k].created + 500_000_000,
    {
        let ghost gone = Set::new(|k: u64| since(now, old(self)@[k].created) >= SYNC_LIFETIME);
        let mut i: usize = self.syncs.len();
        while i > 0
            invariant
                i <= self.syncs.keys().len(),
                self.wf(),
                old(self).wf(),
                gone == Set::new(|k: u64| since(now, old(self)@[k].created) >= SYNC_LIFETIME),
                forall|k: u64| #[trigger]
                    self@.contains_key(k) ==> old(self)@.contains_key(k) && self@[k]
                        == old(self)@[k],
                forall|k: u64| #[trigger]
                    old(self)@.contains_key(k) && !gone.contains(k) ==> self@.contains_key(k),
                forall|j: int|
                    i <= j < self.syncs.keys().len() ==> !gone.contains(
                        #[trigger] self.syncs.keys()[j],
                    ),
            decreases i,
        {
            i -= 1;
            let ghost before = *self;
            let ghost key = self.syncs.keys()[i as int];
            proof {
                self.syncs.lemma_keys();
                assert(self@.contains_key(key));
            }
            let created: u64 = self.syncs.row_at(i).created;
            if elapsed(now, created) >= SYNC_LIFETIME {
                self.syncs.remove_at(i);
            }
            proof {
                assert forall|j: int| i <= j < self.syncs.keys().len() implies !gone.contains(
                    #[trigger] self.syncs.keys()[j],
                ) by {
                    if before.syncs.keys().len() != self.syncs.keys().len() {
                        if j == i {
                            assert(self.syncs.keys()[j] == before.syncs.keys().last());
                        } else {
                            assert(self.syncs.keys()[j] == before.syncs.keys()[j]);
                        }
                    }
                }
            }
        }
        proof {
            self.syncs.lemma_keys();
            assert(self@ =~= old(self)@.remove_keys(gone));
        }
    }
}

/// A frame that three stations have reported is ready before it is too old to be kept.
pub proof fn law_no_usable_frame_is_lost(f: Frame, now: u64)
    requires
        !f.dispatched,
        f.receptions@.len() >= 3,
        !f.is_kept(now),
    ensures
        f.is_ready(now),
{
}

/// A frame is dispatched once: no time at which it is ready comes after.
pub proof fn law_dispatched_once(frames: Map<u64, Frame>, hash: u64, now: u64, later: u64)
    requires
        frames.contains_key(hash),
        frames[hash].is_ready(now),
    ensures
        ({
            let after = frames.map_entries(
                |k: u64, f: Frame| Frame { dispatched: f.dispatched || f.is_ready(now), ..f },
            );
            !after[hash].is_ready(later)
        }),
{
}

/// A frame that was dispatched leaves with the next purge.
pub proof fn law_dispatched_frames_leave(f: Frame, now: u64, later: u64)
    requires
        f.is_ready(now),
        later >= now,
    ensures
        !(Frame { dispatched: true, ..f }).is_kept(later),
{
}

/// Fewer than three stations never make a frame ready.
pub proof fn law_three_stations_needed(f: Frame, now: u64)
    requires
        f.receptions@.len() < 3,
    ensures
        !f.is_ready(now),
{
}

/// A second report of a station changes nothing.
pub proof fn law_reports_count_once(heard: Heard, user: Seq<char>, ts: Scalar, again: Scalar)
    ensures
        with_report(with_report(heard, user, ts), user, again) == with_report(heard, user, ts),
{
    let once = with_report(heard, user, ts);
    if heard.len() < MAX_RECEPTIONS && !reported(heard, user) {
        assert(once[heard.len() as int].0 == user);
    }
}

/// A frame that was not dispatched is ready 320 milliseconds after the first report with four
/// stations or more, and after 600 with three.
pub proof fn law_when_a_frame_is_ready(f: Frame, now: u64)
    requires
        !f.dispatched,
    ensures
        f.receptions@.len() >= 4 ==> (f.is_ready(now) <==> now >= f.created + 320_000_000),
        f.receptions@.len() == 3 ==> (f.is_ready(now) <==> now >= f.created + 600_000_000),
        f.receptions@.len() <= 2 ==> !f.is_ready(now),
        !(Frame { dispatched: true, ..f }).is_ready(now),
{
}

/// A frame is kept for 500 milliseconds with one station, 750 with two, 900 with more, and for 250
/// where it was dispatched; the reports of a clock comparison for 500.
pub proof fn law_how_long_a_frame_is_kept(f: Frame, now: u64)
    requires
        !f.dispatched,
    ensures
        f.receptions@.len() <= 1 ==> (f.is_kept(now) <==> now < f.created + 500_000_000),
        f.receptions@.len() == 2 ==> (f.is_kept(now) <==> now < f.created + 750_000_000),
        f.receptions@.len() >= 3 ==> (f.is_kept(now) <==> now < f.created + 900_000_000),
        (Frame { dispatched: true, ..f }).is_kept(now) <==> now < f.created + 250_000_000,
        SYNC_LIFETIME == 500_000_000,
{
}

/// A station that has not reported a frame is added to those that have, with its time, up to
/// sixteen; the others stay as they are.
pub proof fn law_report_is_added(heard: Heard, user: Seq<char>, ts: Scalar, i: int)
    requires
        0 <= i < heard.len(),
    ensures
        with_report(heard, user, ts)[i] == heard[i],
        reported(heard, user) ==> with_report(heard, user, ts) == heard,
        heard.len() >= 16 ==> with_report(heard, user, ts) == heard,
        heard.len() < 16 && !reported(heard, user) ==> with_report(heard, user, ts).len()
            == heard.len() + 1 && with_report(heard, user, ts).last() == (user, ts),
{
}

/// What a frame is from, how high that is and when it was first heard stay as they were first
/// known; what was not known is taken from the report.
pub proof fn law_first_report_stands(
    f: Frame,
    icao: u32,
    user: Seq<char>,
    ts: Scalar,
    altitude: Option<i32>,
    now: u64,
    after: Frame,
)
    requires
        after_report(Some(f), icao, user, ts, altitude, now, after),
    ensures
        after.created == f.created,
        after.dispatched == f.dispatched,
        f.icao != 0 ==> after.icao == f.icao,
        f.icao == 0 ==> after.icao == icao,
        f.altitude is Some ==> after.altitude == f.altitude,
        f.altitude is None ==> after.altitude == altitude,
        f.heard().len() < 16 ==> reported(after.heard(), user),
        after.heard().len() >= f.heard().len(),
        (exists|i: int| 0 <= i < f.heard().len() && (#[trigger] f.heard()[i]).0 == user)
            ==> after.heard() == f.heard(),
        f.heard().len() < 16 && (forall|i: int|
            0 <= i < f.heard().len() ==> (#[trigger] f.heard()[i]).0 != user) ==> after.heard()
            == f.heard().push((user, ts)),
{
    if f.heard().len() < 16 && !reported(f.heard(), user) {
        assert(after.heard()[f.heard().len() as int].0 == user);
    }
}

/// The first report of a frame makes a frame of it, with one station, from now.
pub proof fn law_new_frame_has_one_report(
    icao: u32,
    user: Seq<char>,
    ts: Scalar,
    altitude: Option<i32>,
    now: u64,
    after: Frame,
)
    requires
        after_report(None, icao, user, ts, altitude, now, after),
    ensures
        after.icao == icao,
        after.altitude == altitude,
        after.created == now,
        !after.dispatched,
        after.heard().len() == 1,
        after.heard()[0] == (user, ts),
{
}

/// A station that reports a pair of frames meets every other that has, and never itself; its own
/// first report stands among them from then on.
pub proof fn law_station_meets_the_others(
    before: Map<u64, SyncFrame>,
    after: Map<u64, SyncFrame>,
    hash: u64,
    user: Seq<char>,
    even: Scalar,
    interval: Scalar,
    now: u64,
    met: Seq<PendingSyncReception>,
    other: (Seq<char>, Scalar, Scalar),
)
    requires
        joined(before, after, hash, user, even, interval, now, met),
    ensures
        after.contains_key(hash),
        !before.contains_key(hash) ==> met.len() == 0 && after[hash].created == now && compared(
            after[hash].peers@,
        ) == seq![(user, even, interval)],
        before.contains_key(hash) ==> (compared(met).contains(other) <==> compared(
            before[hash].peers@,
        ).contains(other) && other.0 != user),
        before.contains_key(hash) ==> after[hash].created == before[hash].created,
        before.contains_key(hash) && compares(compared(before[hash].peers@), user) ==> compared(
            after[hash].peers@,
        ) == compared(before[hash].peers@),
        before.contains_key(hash) && !compares(compared(before[hash].peers@), user) ==> compared(
            after[hash].peers@,
        ).last() == (user, even, interval) && after[hash].peers@.len() == before[hash].peers@.len()
            + 1,
        before.contains_key(hash) && (exists|i: int|
            0 <= i < before[hash].peers@.len() && (#[trigger] before[hash].peers@[i]).user@ == user)
            ==> compared(after[hash].peers@) == compared(before[hash].peers@),
        before.contains_key(hash) && (forall|i: int|
            0 <= i < before[hash].peers@.len() ==> (#[trigger] before[hash].peers@[i]).user@ != user)
            ==> compared(after[hash].peers@).last() == (user, even, interval),
        forall|k: u64| #[trigger]
            before.contains_key(k) && k != hash ==> after.contains_key(k) && after[k] == before[k],
{
    if before.contains_key(hash) {
        let peers = compared(before[hash].peers@);
        lemma_others(peers, user, other);
        assert(compared(after[hash].peers@).len() == after[hash].peers@.len());
        assert(peers.len() == before[hash].peers@.len());
        assert(forall|i: int|
            0 <= i < peers.len() ==> (#[trigger] peers[i]).0 == before[hash].peers@[i].user@);
        if exists|i: int|
            0 <= i < before[hash].peers@.len() && (#[trigger] before[hash].peers@[i]).user@ == user {
            let i = choose|i: int|
                0 <= i < before[hash].peers@.len() && (#[trigger] before[hash].peers@[i]).user@
                    == user;
            assert(peers[i].0 == user);
        }
    } else {
        assert(compared(met).len() == met.len());
    }
}

proof fn lemma_others(s: Compared, user: Seq<char>, x: (Seq<char>, Scalar, Scalar))
    ensures
        others(s, user).contains(x) <==> s.contains(x) && x.0 != user,
    decreases s.len(),
{
    reveal(Seq::filter);
    if s.len() > 0 {
        let before = s.drop_last();
        lemma_others(before, user, x);
        let old_ones = others(before, user);
        let all = others(s, user);
        if old_ones.contains(x) {
            let i = choose|i: int| 0 <= i < old_ones.len() && old_ones[i] == x;
            assert(all[i] == x);
            let k = choose|k: int| 0 <= k < before.len() && before[k] == x;
            assert(s[k] == x);
        }
        if s.contains(x) && x.0 != user && !before.contains(x) {
            let k = choose|k: int| 0 <= k < s.len() && s[k] == x;
            if k < before.len() {
                assert(before[k] == x);
            }
            assert(all[all.len() - 1] == x);
        }
        if all.contains(x) && !old_ones.contains(x) {
            let i = choose|i: int| 0 <= i < all.len() && all[i] == x;
            if i < old_ones.len() {
                assert(old_ones[i] == x);
            }
            assert(s[s.len() - 1] == x);
        }
    }
}

/// A text of digits in base 16 stands for half as many bytes, and two such texts one behind the
/// other for the bytes of both.
pub proof fn law_hexadecimal_texts_join(a: Seq<char>, b: Seq<char>)
    requires
        hex_bytes(a) is Some,
    ensures
        hex_bytes(a)->Some_0.len() * 2 == a.len(),
        hex_bytes(b) is Some ==> hex_bytes(a + b) == Some(
            hex_bytes(a)->Some_0 + hex_bytes(b)->Some_0,
        ),
        hex_bytes(b) is None ==> hex_bytes(a + b) is None,
    decreases a.len() + b.len(),
{
    if a.len() >= 2 {
        law_hexadecimal_texts_join(a.take(a.len() - 2), Seq::empty());
    }
    if b.len() == 0 {
        assert(a + b =~= a);
        assert(hex_bytes(a)->Some_0 + Seq::<u8>::empty() =~= hex_bytes(a)->Some_0);
    } else if b.len() == 1 {
        if hex_bytes(a + b) is Some {
            lemma_hex_bytes_prefix(a + b, 0);
        }
    } else {
        law_hexadecimal_texts_join(a, b.take(b.len() - 2));
        let all = a + b;
        assert(all.take(all.len() - 2) =~= a + b.take(b.len() - 2));
        assert(all[all.len() - 2] == b[b.len() - 2] && all[all.len() - 1] == b[b.len() - 1]);
        if hex_bytes(b) is Some {
            let x = hex_pair(b[b.len() - 2], b[b.len() - 1])->Some_0;
            assert((hex_bytes(a)->Some_0 + hex_bytes(b.take(b.len() - 2))->Some_0).push(x)
                =~= hex_bytes(a)->Some_0 + hex_bytes(b)->Some_0);
        }
    }
}

/// Two digits in base 16 stand for one byte, the first for its upper half; one alone stands for
/// none.
pub proof fn law_two_digits_are_a_byte(a: char, b: char)
    requires
        hex_digit(a as u32) is Some,
        hex_digit(b as u32) is Some,
    ensures
        hex_bytes(seq![a, b]) matches Some(bytes) && bytes.len() == 1 && bytes[0] / 16 == hex_digit(
            a as u32,
        )->Some_0 && bytes[0] % 16 == hex_digit(b as u32)->Some_0,
        hex_bytes(seq![a]) is None,
{
    reveal_with_fuel(hex_bytes, 2);
    assert(seq![a, b].take(0) =~= Seq::<char>::empty());
}

} // verus!
