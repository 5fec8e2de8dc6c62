//! Transmitters that are known not to move: towers, masts, and monitors of radars.

use crate::text::{
    begins, char_lists, chars_begin, chars_eq, chars_of, fields, parse_hex, parsed_hex, split_fields,
    string_of, text_of, trimmed, upper_of, upper_text,
};
use crate::tracker::AircraftTracker;
use flate2::read::GzDecoder;
use std::collections::HashSet;
use std::io::Read;
use vstd::prelude::*;
use vstd::utf8::{decode_utf8, valid_utf8};

verus! {

/// A monitor of the radar at Sydney, which is always known.
pub const SYDNEY_MONITOR: u32 = 0x7c_f7cb;

/// What a gzip file unpacks to, where it is one and is whole.
pub uninterp spec fn gunzipped(packed: Seq<u8>) -> Option<Seq<u8>>;

/// `flate2::read::GzDecoder`, read to its end: whether the file is whole, and what it unpacks
/// to. What comes of a file that is not whole is left open: it depends on how much is read at
/// a time.
#[verifier::external_body]
fn gunzip(packed: &[u8]) -> (r: (bool, Vec<u8>))
    ensures
        r.0 == gunzipped(packed@) is Some,
        gunzipped(packed@) matches Some(bytes) ==> r.1@ == bytes,
{
    let mut bytes = Vec::new();
    let whole = GzDecoder::new(packed).read_to_end(&mut bytes).is_ok();
    (whole, bytes)
}

/// A line without the carriage return at its end.
pub open spec fn without_return(line: Seq<u8>) -> Seq<u8> {
    if line.len() > 0 && line.last() == 0x0d {
        line.drop_last()
    } else {
        line
    }
}

/// The lines that end in a line feed, and what follows the last of them.
pub open spec fn ended_lines(bytes: Seq<u8>) -> (Seq<Seq<u8>>, Seq<u8>)
    decreases bytes.len(),
{
    if bytes.len() == 0 {
        (Seq::empty(), Seq::empty())
    } else {
        let (lines, rest) = ended_lines(bytes.drop_last());
        if bytes.last() == 0x0a {
            (lines.push(without_return(rest)), Seq::empty())
        } else {
            (lines, rest.push(bytes.last()))
        }
    }
}

/// The lines of a file; the last one may lack its line feed.
pub open spec fn file_lines(bytes: Seq<u8>) -> Seq<Seq<u8>> {
    let (lines, rest) = ended_lines(bytes);
    if rest.len() == 0 {
        lines
    } else {
        lines.push(rest)
    }
}

/// A type code of something on the ground.
pub open spec fn is_ground_type(code: Seq<char>) -> bool {
    ||| code == "TWR"@
    ||| code == "GND"@
    ||| code == "OBST"@
    ||| code == "MAST"@
    ||| code == "RADAR"@
}

/// A registration of something on the ground.
pub open spec fn is_ground_registration(reg: Seq<char>) -> bool {
    reg == "TWR"@ || reg == "GND"@ || begins(reg, "SSM"@)
}

/// The address in a line of the aircraft list, of something on the ground. The first three
/// fields are the address, the registration and the type.
pub open spec fn listed(line: Seq<char>) -> Option<u32> {
    let f = fields(line, ';');
    if f.len() >= 3 && (is_ground_type(upper_text(f[2])) || is_ground_registration(
        upper_text(f[1]),
    )) {
        parsed_hex(trimmed(f[0]))
    } else {
        None
    }
}

/// The address in a line of the blacklist, unless it is a comment.
pub open spec fn blacklisted(line: Seq<char>) -> Option<u32> {
    let s = trimmed(line);
    if s.len() > 0 && s[0] != '#' {
        parsed_hex(s)
    } else {
        None
    }
}

/// The address in a line, of the aircraft list or of the blacklist; none where the line is no
/// UTF-8.
pub open spec fn line_address(line: Seq<u8>, black: bool) -> Option<u32> {
    if !valid_utf8(line) {
        None
    } else if black {
        blacklisted(decode_utf8(line))
    } else {
        listed(decode_utf8(line))
    }
}

/// The addresses in lines.
pub open spec fn line_addresses(lines: Seq<Seq<u8>>, black: bool) -> Set<u32>
    decreases lines.len(),
{
    if lines.len() == 0 {
        Set::empty()
    } else {
        let before = line_addresses(lines.drop_last(), black);
        match line_address(lines.last(), black) {
            Some(icao) => before.insert(icao),
            None => before,
        }
    }
}

/// All transmitters that are known not to move.
pub open spec fn all_beacons(list: Seq<u8>, blacklist: Seq<u8>) -> Set<u32> {
    line_addresses(file_lines(list), false).union(
        line_addresses(file_lines(blacklist), true),
    ).insert(SYDNEY_MONITOR)
}

/// The bytes of a file; one that is missing is empty.
pub open spec fn file_bytes(file: Option<&[u8]>) -> Seq<u8> {
    match file {
        Some(bytes) => bytes@,
        None => Seq::empty(),
    }
}

/// What a packed file unpacks to, where it is whole; one that is missing is empty.
pub open spec fn is_list(packed: Option<&[u8]>, list: Seq<u8>) -> bool {
    match packed {
        Some(p) => gunzipped(p@) matches Some(bytes) ==> list == bytes,
        None => list.len() == 0,
    }
}

/// The contents of lists of bytes.
pub open spec fn byte_lists(lists: Seq<Vec<u8>>) -> Seq<Seq<u8>> {
    lists.map_values(|l: Vec<u8>| l@)
}

/// The lines of a file.
fn lines_of(bytes: &[u8]) -> (r: Vec<Vec<u8>>)
    ensures
        byte_lists(r@) == file_lines(bytes@),
{
    let mut lines: Vec<Vec<u8>> = Vec::new();
    let mut rest: Vec<u8> = Vec::new();
    let mut i: usize = 0;
    assert(bytes@.take(0) =~= Seq::<u8>::empty());
    assert(byte_lists(lines@) =~= Seq::<Seq<u8>>::empty());
    while i < bytes.len()
        invariant
            i <= bytes@.len(),
            (byte_lists(lines@), rest@) == ended_lines(bytes@.take(i as int)),
        decreases bytes@.len() - i,
    {
        let b: u8 = bytes[i];
        let ghost before = lines@;
        let ghost line = rest@;
        proof {
            assert(bytes@.take(i + 1).drop_last() =~= bytes@.take(i as int));
            assert(bytes@.take(i + 1).last() == b);
        }
        if b == 0x0a {
            let n: usize = rest.len();
            if n > 0 && rest[n - 1] == 0x0d {
                let _ = rest.pop();
                assert(rest@ =~= line.drop_last());
            }
            lines.push(rest);
            rest = Vec::new();
            assert(byte_lists(lines@) =~= byte_lists(before).push(without_return(line)));
            assert(rest@ =~= Seq::<u8>::empty());
        } else {
            rest.push(b);
        }
        i += 1;
    }
    assert(bytes@.take(i as int) =~= bytes@);
    if rest.len() > 0 {
        let ghost before = lines@;
        lines.push(rest);
        assert(byte_lists(lines@) =~= byte_lists(before).push(rest@));
    }
    lines
}

/// The address that white space may stand around.
fn address(chars: &[char]) -> (r: Option<u32>)
    ensures
        r == parsed_hex(trimmed(chars@)),
{
    let s: String = string_of(chars);
    parse_hex(chars_of(s.trim()).as_slice())
}

/// The address in a line of the aircraft list, of something on the ground.
pub fn listed_address(line: &str) -> (r: Option<u32>)
    ensures
        r == listed(line@),
{
    let f: Vec<Vec<char>> = split_fields(chars_of(line).as_slice(), ';');
    assert(f@.len() == char_lists(f@).len());
    if f.len() < 3 {
        return None;
    }
    assert(f@[0]@ == char_lists(f@)[0]);
    assert(f@[1]@ == char_lists(f@)[1]);
    assert(f@[2]@ == char_lists(f@)[2]);
    let kind: Vec<char> = upper_of(f[2].as_slice());
    let reg: Vec<char> = upper_of(f[1].as_slice());
    let k: &[char] = kind.as_slice();
    let g: &[char] = reg.as_slice();
    if chars_eq(k, "TWR") || chars_eq(k, "GND") || chars_eq(k, "OBST") || chars_eq(k, "MAST")
        || chars_eq(k, "RADAR") || chars_eq(g, "TWR") || chars_eq(g, "GND") || chars_begin(g, "SSM") {
        address(f[0].as_slice())
    } else {
        None
    }
}

/// The address in a line of the blacklist, unless it is a comment.
pub fn blacklisted_address(line: &str) -> (r: Option<u32>)
    ensures
        r == blacklisted(line@),
{
    let s: Vec<char> = chars_of(line.trim());
    if s.len() > 0 && s[0] != '#' {
        parse_hex(s.as_slice())
    } else {
        None
    }
}

/// Adds the addresses in the lines of a file.
fn gather(set: &mut HashSet<u32>, bytes: &[u8], black: bool)
    ensures
        final(set)@ == old(set)@.union(line_addresses(file_lines(bytes@), black)),
{
    broadcast use vstd::std_specs::hash::group_hash_axioms;

    let lines: Vec<Vec<u8>> = lines_of(bytes);
    let ghost all = file_lines(bytes@);
    let mut i: usize = 0;
    assert(all.take(0) =~= Seq::<Seq<u8>>::empty());
    assert(set@ =~= old(set)@.union(line_addresses(all.take(0), black)));
    while i < lines.len()
        invariant
            i <= lines@.len(),
            byte_lists(lines@) == all,
            set@ == old(set)@.union(line_addresses(all.take(i as int), black)),
        decreases lines@.len() - i,
    {
        proof {
            assert(all.take(i + 1).drop_last() =~= all.take(i as int));
            assert(all.take(i + 1).last() == lines@[i as int]@);
        }
        let found: Option<u32> = match text_of(lines[i].as_slice()) {
            Some(line) => if black {
                blacklisted_address(line.as_str())
            } else {
                listed_address(line.as_str())
            },
            None => None,
        };
        if let Some(icao) = found {
            let ghost before = set@;
            set.insert(icao);
            assert(set@ =~= old(set)@.union(
                line_addresses(all.take(i as int), black).insert(icao),
            ));
        }
        i += 1;
    }
    assert(all.take(i as int) =~= all);
}

/// The transmitters that are known not to move, of the aircraft list and the blacklist.
pub fn beacons_of(list: &[u8], blacklist: &[u8]) -> (set: HashSet<u32>)
    ensures
        set@ == all_beacons(list@, blacklist@),
{
    broadcast use vstd::std_specs::hash::group_hash_axioms;

    let mut set: HashSet<u32> = HashSet::new();
    gather(&mut set, list, false);
    gather(&mut set, blacklist, true);
    set.insert(SYDNEY_MONITOR);
    assert(set@ =~= all_beacons(list@, blacklist@));
    set
}

impl AircraftTracker {
    /// The transmitters that are known not to move, of the packed aircraft list and the
    /// blacklist; a file that is missing is empty. Of a list that is not whole, what was
    /// unpacked counts.
    pub fn load_fixed_beacons(packed: Option<&[u8]>, blacklist: Option<&[u8]>) -> (set: HashSet<u32>)
        ensures
            exists|list: Seq<u8>| #[trigger]
                is_list(packed, list) && set@ == all_beacons(list, file_bytes(blacklist)),
    {
        let list: Vec<u8> = match packed {
            Some(p) => gunzip(p).1,
            None => Vec::new(),
        };
        let none: Vec<u8> = Vec::new();
        assert(none@ =~= Seq::<u8>::empty());
        assert(is_list(packed, list@));
        let black: &[u8] = match blacklist {
            Some(b) => b,
            None => none.as_slice(),
        };
        beacons_of(list.as_slice(), black)
    }
}

/// An address is among those of lines if and only if one of the lines holds it.
pub proof fn law_addresses_are_those_of_the_lines(lines: Seq<Seq<u8>>, black: bool, icao: u32)
    ensures
        line_addresses(lines, black).contains(icao) <==> exists|i: int|
            0 <= i < lines.len() && line_address(#[trigger] lines[i], black) == Some(icao),
    decreases lines.len(),
{
    if lines.len() > 0 {
        let before = lines.drop_last();
        law_addresses_are_those_of_the_lines(before, black, icao);
        if line_addresses(before, black).contains(icao) {
            let i = choose|i: int|
                0 <= i < before.len() && line_address(#[trigger] before[i], black) == Some(icao);
            assert(line_address(lines[i], black) == Some(icao));
        }
        if line_address(lines.last(), black) == Some(icao) {
            assert(line_address(lines[lines.len() - 1], black) == Some(icao));
        }
        if exists|i: int|
            0 <= i < lines.len() && line_address(#[trigger] lines[i], black) == Some(icao) {
            let i = choose|i: int|
                0 <= i < lines.len() && line_address(#[trigger] lines[i], black) == Some(icao);
            if i < before.len() {
                assert(line_address(before[i], black) == Some(icao));
            }
        }
    }
}

/// The transmitters that are known not to move are those of the list, those of the blacklist, and
/// the monitor at Sydney.
pub proof fn law_beacons_are_of_both_files(list: Seq<u8>, blacklist: Seq<u8>, icao: u32)
    ensures
        all_beacons(list, blacklist).contains(icao) <==> icao == 0x7c_f7cb || line_addresses(
            file_lines(list),
            false,
        ).contains(icao) || line_addresses(file_lines(blacklist), true).contains(icao),
{
}

/// A line feed ends a line: what stands before it and what follows are read each for itself.
pub proof fn law_lines_end_with_a_line_feed(a: Seq<u8>, b: Seq<u8>)
    ensures
        file_lines(a.push(0x0a) + b) == file_lines(a.push(0x0a)) + file_lines(b),
        !a.contains(0x0a) ==> file_lines(a.push(0x0a)) == seq![without_return(a)],
        !a.contains(0x0a) && a.len() > 0 ==> file_lines(a) == seq![a],
        file_lines(Seq::<u8>::empty()).len() == 0,
{
    let head = a.push(0x0a);
    assert(head.drop_last() =~= a);
    lemma_ended_lines_join(head, b);
    let (lines, rest) = ended_lines(b);
    if rest.len() > 0 {
        assert((ended_lines(head).0 + lines).push(rest) =~= ended_lines(head).0 + lines.push(rest));
    }
    if !a.contains(0x0a) {
        lemma_no_line_feed(a);
        assert(Seq::<Seq<u8>>::empty().push(without_return(a)) =~= seq![without_return(a)]);
        assert(Seq::<Seq<u8>>::empty().push(a) =~= seq![a]);
    }
}

proof fn lemma_ended_lines_join(a: Seq<u8>, b: Seq<u8>)
    requires
        ended_lines(a).1.len() == 0,
    ensures
        ended_lines(a + b).0 == ended_lines(a).0 + ended_lines(b).0,
        ended_lines(a + b).1 == ended_lines(b).1,
    decreases b.len(),
{
    if b.len() == 0 {
        assert(a + b =~= a);
        assert(ended_lines(a).0 + ended_lines(b).0 =~= ended_lines(a).0);
        assert(ended_lines(a).1 =~= Seq::<u8>::empty());
    } else {
        lemma_ended_lines_join(a, b.drop_last());
        assert((a + b).drop_last() =~= a + b.drop_last());
        assert((a + b).last() == b.last());
        let (lines, rest) = ended_lines(b.drop_last());
        assert((ended_lines(a).0 + lines).push(without_return(rest)) =~= ended_lines(a).0
            + lines.push(without_return(rest)));
    }
}

proof fn lemma_no_line_feed(a: Seq<u8>)
    requires
        !a.contains(0x0a),
    ensures
        ended_lines(a).0 == Seq::<Seq<u8>>::empty(),
        ended_lines(a).1 == a,
    decreases a.len(),
{
    if a.len() > 0 {
        assert(a.contains(a[a.len() - 1]));
        assert forall|i: int| 0 <= i < a.drop_last().len() implies a.drop_last()[i] != 0x0a by {
            assert(a.contains(a[i]));
        }
        lemma_no_line_feed(a.drop_last());
        assert(a.drop_last().push(a.last()) =~= a);
    }
}

/// The carriage return before a line feed is no part of the line.
pub proof fn law_carriage_return_is_dropped(line: Seq<u8>)
    ensures
        without_return(line.push(0x0d)) == line,
        line.len() > 0 && line.last() != 0x0d ==> without_return(line) == line,
        line.len() == 0 ==> without_return(line) == line,
{
    assert(line.push(0x0d).drop_last() =~= line);
}

/// A line of the list names something on the ground, by its type or by its registration, in letters
/// of either size; the address stands first.
pub proof fn law_ground_stations_are_listed(line: Seq<char>, address: Seq<char>, reg: Seq<char>, kind: Seq<char>)
    requires
        fields(line, ';').len() >= 3,
        fields(line, ';')[0] == address,
        fields(line, ';')[1] == reg,
        fields(line, ';')[2] == kind,
    ensures
        ({
            let k = upper_text(kind);
            let g = upper_text(reg);
            let ground = k == "TWR"@ || k == "GND"@ || k == "OBST"@ || k == "MAST"@ || k == "RADAR"@
                || g == "TWR"@ || g == "GND"@ || (g.len() >= 3 && g.take(3) == "SSM"@);
            listed(line) == (if ground {
                parsed_hex(trimmed(address))
            } else {
                None
            })
        }),
{
    reveal_strlit("SSM");
}

/// A line of the blacklist is an address, with white space around it, unless it is empty or a
/// comment.
pub proof fn law_blacklist_lines(line: Seq<char>)
    ensures
        trimmed(line).len() == 0 ==> blacklisted(line) is None,
        trimmed(line).len() > 0 && trimmed(line)[0] == '#' ==> blacklisted(line) is None,
        trimmed(line).len() > 0 && trimmed(line)[0] != '#' ==> blacklisted(line) == parsed_hex(
            trimmed(line),
        ),
{
}

/// A line that is no UTF-8 holds no address; one that is holds what its text says.
pub proof fn law_lines_are_text(line: Seq<u8>)
    ensures
        !valid_utf8(line) ==> line_address(line, true) is None && line_address(line, false) is None,
        valid_utf8(line) ==> line_address(line, true) == blacklisted(decode_utf8(line)),
        valid_utf8(line) ==> line_address(line, false) == listed(decode_utf8(line)),
{
}

} // verus!
