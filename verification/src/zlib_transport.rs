//! Lines of text out of the compressed packets of a receiver.

use crate::text::{is_white, string_of, text_of, trimmed, trimmed_end, trimmed_start};
use flate2::{Decompress, FlushDecompress};
use vstd::prelude::*;
use vstd::utf8::{decode_utf8, valid_utf8};

verus! {

/// The state of a stream that is being decompressed.
#[verifier::external_type_specification]
#[verifier::external_body]
pub struct ExDecompress(Decompress);

/// What a stream was given since its start: at each step the bytes offered, and the room for
/// what comes out.
pub type History = Seq<(Seq<u8>, nat)>;

/// What a stream was given since its start.
pub uninterp spec fn zlib_history(d: Decompress) -> History;

/// The outcome of the last step of a stream: whether it succeeded, how many of the bytes
/// offered it took, and what came out.
pub uninterp spec fn zlib_outcome(history: History) -> (bool, nat, Seq<u8>);

/// `Decompress::new(true)`: a stream with a zlib header that was given nothing.
#[verifier::external_body]
fn zlib_start() -> (d: Decompress)
    ensures
        zlib_history(d) == History::empty(),
{
    Decompress::new(true)
}

/// `Decompress::reset(true)`: the stream is as a new one.
#[verifier::external_body]
fn zlib_restart(d: &mut Decompress)
    ensures
        zlib_history(*final(d)) == History::empty(),
{
    d.reset(true);
}

/// `Decompress::decompress` with a sync flush: what comes out is written to the start of
/// `output`, and the outcome follows from what the stream was given since its start. It takes
/// no more than it is offered, and writes no more than there is room for. What stands in
/// `output` behind that is left open.
#[verifier::external_body]
fn zlib_step(d: &mut Decompress, input: &[u8], output: &mut Vec<u8>) -> (r: bool)
    ensures
        zlib_history(*final(d)) == zlib_history(*old(d)).push((input@, old(output)@.len())),
        final(output)@.len() == old(output)@.len(),
        is_outcome(zlib_outcome(zlib_history(*final(d))), r, input@.len(), final(output)@),
{
    d.decompress(input, output, FlushDecompress::Sync).is_ok()
}

/// `Decompress::total_in`: how many bytes the stream took since its start, counted in 64
/// bits.
#[verifier::external_body]
fn zlib_total_in(d: &Decompress) -> (n: u64)
    ensures
        n == taken(zlib_history(*d)) % 0x1_0000_0000_0000_0000,
{
    d.total_in()
}

/// `Decompress::total_out`: how many bytes came out since the stream's start, counted in 64
/// bits.
#[verifier::external_body]
fn zlib_total_out(d: &Decompress) -> (n: u64)
    ensures
        n == given(zlib_history(*d)) % 0x1_0000_0000_0000_0000,
{
    d.total_out()
}

/// The outcome of a step, of which `output` shows what came out.
pub open spec fn is_outcome(
    outcome: (bool, nat, Seq<u8>),
    ok: bool,
    offered: nat,
    output: Seq<u8>,
) -> bool {
    &&& ok == outcome.0
    &&& outcome.1 <= offered
    &&& outcome.2.len() <= output.len()
    &&& outcome.2 == output.take(outcome.2.len() as int)
}

/// How many bytes a stream took in all its steps.
pub open spec fn taken(history: History) -> nat
    decreases history.len(),
{
    if history.len() == 0 {
        0
    } else {
        taken(history.drop_last()) + zlib_outcome(history).1
    }
}

/// How many bytes came out of a stream in all its steps.
pub open spec fn given(history: History) -> nat
    decreases history.len(),
{
    if history.len() == 0 {
        0
    } else {
        given(history.drop_last()) + zlib_outcome(history).2.len()
    }
}

/// The bytes that end a packet, which are not sent.
pub open spec fn packet_end() -> Seq<u8> {
    seq![0x00u8, 0x00u8, 0xffu8, 0xffu8]
}

/// The room for what comes out at each step.
pub const OUT_SIZE: usize = 4096;

/// The complete lines of a text that follows a beginning, and what is left behind the last of
/// them.
pub open spec fn split_lines(pending: Seq<char>, text: Seq<char>) -> (Seq<Seq<char>>, Seq<char>)
    decreases text.len(),
{
    if text.len() == 0 {
        (Seq::empty(), pending)
    } else {
        let (lines, rest) = split_lines(pending, text.drop_last());
        if text.last() == '\n' {
            (lines.push(rest), Seq::empty())
        } else {
            (lines, rest.push(text.last()))
        }
    }
}

/// The lines without white space at their ends, but the empty ones.
pub open spec fn kept_lines(lines: Seq<Seq<char>>) -> Seq<Seq<char>>
    decreases lines.len(),
{
    if lines.len() == 0 {
        Seq::empty()
    } else {
        let before = kept_lines(lines.drop_last());
        let line = trimmed(lines.last());
        if line.len() == 0 {
            before
        } else {
            before.push(line)
        }
    }
}

/// The contents of a list of texts.
pub open spec fn texts(lines: Seq<String>) -> Seq<Seq<char>> {
    lines.map_values(|l: String| l@)
}

/// A text that is not empty and holds no line break.
pub open spec fn is_line(s: Seq<char>) -> bool {
    s.len() > 0 && !s.contains('\n')
}

/// What becomes of a packet.
pub struct Unpacked {
    /// What the stream was given since its start.
    pub history: History,
    /// The lines that came out.
    pub lines: Seq<Seq<char>>,
    /// The beginning of the next line.
    pub pending: Seq<char>,
}

/// What a step adds: bytes that are no UTF-8 are left out.
pub open spec fn received(pending: Seq<char>, bytes: Seq<u8>) -> (Seq<Seq<char>>, Seq<char>) {
    if bytes.len() > 0 && valid_utf8(bytes) {
        let (lines, rest) = split_lines(pending, decode_utf8(bytes));
        (kept_lines(lines), rest)
    } else {
        (Seq::empty(), pending)
    }
}

/// What becomes of the rest of a packet. A step that fails starts the stream anew, and one
/// that takes nothing is the last.
pub open spec fn unpacked(history: History, input: Seq<u8>, pending: Seq<char>) -> Unpacked
    decreases input.len(),
{
    if input.len() == 0 {
        Unpacked { history, lines: Seq::empty(), pending }
    } else {
        let next = history.push((input, OUT_SIZE as nat));
        let (ok, consumed, bytes) = zlib_outcome(next);
        if !ok {
            Unpacked { history: History::empty(), lines: Seq::empty(), pending }
        } else {
            let (lines, rest) = received(pending, bytes);
            if consumed == 0 || consumed > input.len() {
                Unpacked { history: next, lines, pending: rest }
            } else {
                let later = unpacked(next, input.skip(consumed as int), rest);
                Unpacked { lines: lines + later.lines, ..later }
            }
        }
    }
}

/// What becomes of packets that come one after the other.
pub open spec fn unpacked_all(
    history: History,
    packets: Seq<Seq<u8>>,
    pending: Seq<char>,
) -> Unpacked
    decreases packets.len(),
{
    if packets.len() == 0 {
        Unpacked { history, lines: Seq::empty(), pending }
    } else {
        let before = unpacked_all(history, packets.drop_last(), pending);
        let last = unpacked(before.history, packets.last() + packet_end(), before.pending);
        Unpacked { lines: before.lines + last.lines, ..last }
    }
}

/// The text in the rest of a packet; none where a step fails, or gives bytes that are no UTF-8.
pub open spec fn packet_text(history: History, input: Seq<u8>) -> Option<Seq<char>>
    decreases input.len(),
{
    if input.len() == 0 {
        Some(Seq::empty())
    } else {
        let next = history.push((input, OUT_SIZE as nat));
        let (ok, consumed, bytes) = zlib_outcome(next);
        if !ok || !valid_utf8(bytes) {
            None
        } else if consumed == 0 || consumed > input.len() {
            Some(decode_utf8(bytes))
        } else {
            match packet_text(next, input.skip(consumed as int)) {
                Some(later) => Some(decode_utf8(bytes) + later),
                None => None,
            }
        }
    }
}

/// The text in packets that come one after the other; none where one of them holds none.
pub open spec fn stream_text(history: History, packets: Seq<Seq<u8>>) -> Option<Seq<char>>
    decreases packets.len(),
{
    if packets.len() == 0 {
        Some(Seq::empty())
    } else {
        let reached = unpacked_all(history, packets.drop_last(), Seq::empty()).history;
        match (
            stream_text(history, packets.drop_last()),
            packet_text(reached, packets.last() + packet_end()),
        ) {
            (Some(before), Some(last)) => Some(before + last),
            _ => None,
        }
    }
}

/// Text that arrives in pieces, cut into lines.
#[derive(Debug)]
pub struct LineBuffer {
    pending: Vec<char>,
}

impl LineBuffer {
    /// The beginning of the next line.
    pub closed spec fn view(&self) -> Seq<char> {
        self.pending@
    }

    pub fn new() -> (b: LineBuffer)
        ensures
            b@ == Seq::<char>::empty(),
    {
        LineBuffer { pending: Vec::new() }
    }

    /// Takes a piece of text, and gives the lines that it completes.
    pub fn feed(&mut self, piece: &str) -> (r: Vec<String>)
        ensures
            texts(r@) == kept_lines(split_lines(old(self)@, piece@).0),
            final(self)@ == split_lines(old(self)@, piece@).1,
    {
        let mut r: Vec<String> = Vec::new();
        assert(texts(r@) =~= Seq::<Seq<char>>::empty());
        for c in it: piece.chars()
            invariant
                it.seq() == piece@,
                texts(r@) == kept_lines(split_lines(old(self)@, piece@.take(it.index())).0),
                self@ == split_lines(old(self)@, piece@.take(it.index())).1,
        {
            let ghost i = it.index();
            let ghost before = r@;
            proof {
                assert(piece@.take(i + 1).drop_last() =~= piece@.take(i));
                assert(piece@.take(i + 1).last() == c);
            }
            if c == '\n' {
                let whole: String = string_of(&self.pending);
                let ghost lines = split_lines(old(self)@, piece@.take(i)).0;
                assert(lines.push(whole@).drop_last() =~= lines);
                let line: &str = whole.trim();
                if !line.is_empty() {
                    r.push(line.to_owned());
                    assert(texts(r@) =~= texts(before).push(line@));
                }
                self.pending = Vec::new();
                assert(self@ =~= Seq::<char>::empty());
            } else {
                self.pending.push(c);
            }
        }
        assert(piece@.take(piece@.len() as int) =~= piece@);
        r
    }

    /// Takes what came out of a stream, and gives the lines that it completes. Bytes that are
    /// no UTF-8 are left out.
    pub fn feed_bytes(&mut self, bytes: &[u8]) -> (r: Vec<String>)
        ensures
            texts(r@) == received(old(self)@, bytes@).0,
            final(self)@ == received(old(self)@, bytes@).1,
    {
        let r: Vec<String> = Vec::new();
        assert(texts(r@) =~= Seq::<Seq<char>>::empty());
        if bytes.len() == 0 {
            return r;
        }
        match text_of(bytes) {
            Some(piece) => self.feed(piece.as_str()),
            None => r,
        }
    }
}

/// The stream of a receiver.
pub struct Zlib2Decompressor {
    decompressor: Decompress,
    lines: LineBuffer,
    out_buf: Vec<u8>,
}

impl Default for Zlib2Decompressor {
    fn default() -> (z: Self)
        ensures
            z.wf(),
            z.history() == History::empty(),
            z.pending() == Seq::<char>::empty(),
    {
        Zlib2Decompressor {
            decompressor: zlib_start(),
            lines: LineBuffer::new(),
            out_buf: vec![0u8;OUT_SIZE],
        }
    }
}

/// Bytes, with those that end a packet.
fn with_end(packet: &[u8]) -> (r: Vec<u8>)
    ensures
        r@ == packet@ + packet_end(),
{
    let mut r: Vec<u8> = Vec::new();
    let mut i: usize = 0;
    while i < packet.len()
        invariant
            i <= packet@.len(),
            r@ =~= packet@.take(i as int),
        decreases packet@.len() - i,
    {
        r.push(packet[i]);
        i += 1;
    }
    r.push(0x00);
    r.push(0x00);
    r.push(0xff);
    r.push(0xff);
    assert(r@ =~= packet@ + packet_end());
    r
}

/// The difference of two counters of 64 bits.
proof fn lemma_counter(before: nat, step: nat)
    requires
        step < 0x1_0000_0000_0000_0000,
    ensures
        ({
            let m = 0x1_0000_0000_0000_0000int;
            let a = before as int % m;
            let b = (before + step) as int % m;
            &&& b >= a ==> b - a == step
            &&& b < a ==> b - a + m == step
        }),
{
}

impl Zlib2Decompressor {
    /// There is room for what comes out, and what waits for its end is part of one line.
    pub closed spec fn wf(self) -> bool {
        &&& self.out_buf@.len() == OUT_SIZE
        &&& !self.lines@.contains('\n')
    }

    /// What the stream was given since its start.
    pub closed spec fn history(self) -> History {
        zlib_history(self.decompressor)
    }

    /// The beginning of the next line.
    pub closed spec fn pending(self) -> Seq<char> {
        self.lines@
    }

    pub fn new() -> (z: Self)
        ensures
            z.wf(),
            z.history() == History::empty(),
            z.pending() == Seq::<char>::empty(),
    {
        Zlib2Decompressor::default()
    }

    /// Takes a packet, and gives the lines that it completes.
    pub fn decompress_packet_callback(&mut self, packet: &[u8]) -> (r: Vec<String>)
        requires
            old(self).wf(),
        ensures
            final(self).wf(),
            ({
                let u = unpacked(old(self).history(), packet@ + packet_end(), old(self).pending());
                &&& texts(r@) == u.lines
                &&& final(self).history() == u.history
                &&& final(self).pending() == u.pending
            }),
            forall|i: int| 0 <= i < r@.len() ==> is_line(#[trigger] r@[i]@),
    {
        let full: Vec<u8> = with_end(packet);
        let mut r: Vec<String> = Vec::new();
        let mut total_in: usize = 0;
        let ghost whole = unpacked(self.history(), full@, self.pending());
        assert(full@.skip(0) =~= full@);
        assert(texts(r@) =~= Seq::<Seq<char>>::empty());
        assert(whole.lines =~= texts(r@) + whole.lines);
        while total_in < full.len()
            invariant_except_break
                total_in <= full@.len(),
                self.out_buf@.len() == OUT_SIZE,
                ({
                    let u = unpacked(self.history(), full@.skip(total_in as int), self.pending());
                    &&& whole.lines == texts(r@) + u.lines
                    &&& whole.history == u.history
                    &&& whole.pending == u.pending
                }),
            ensures
                self.out_buf@.len() == OUT_SIZE,
                whole.lines == texts(r@),
                whole.history == self.history(),
                whole.pending == self.pending(),
            decreases full@.len() - total_in,
        {
            let before_in: u64 = zlib_total_in(&self.decompressor);
            let before_out: u64 = zlib_total_out(&self.decompressor);
            let rest: &[u8] = vstd::slice::slice_subrange(full.as_slice(), total_in, full.len());
            let ghost history = self.history();
            let ghost pending = self.pending();
            let ghost found = texts(r@);
            assert(rest@ =~= full@.skip(total_in as int));
            let ok: bool = zlib_step(&mut self.decompressor, rest, &mut self.out_buf);
            let ghost next = history.push((rest@, OUT_SIZE as nat));
            let ghost outcome = zlib_outcome(next);
            assert(self.history() == next);
            if !ok {
                zlib_restart(&mut self.decompressor);
                assert(whole.lines =~= texts(r@));
                break;
            }
            proof {
                assert(next.drop_last() =~= history);
                lemma_counter(taken(history), outcome.1);
                lemma_counter(given(history), outcome.2.len());
            }
            let consumed: usize = zlib_total_in(&self.decompressor).wrapping_sub(
                before_in,
            ) as usize;
            let written: usize = zlib_total_out(&self.decompressor).wrapping_sub(
                before_out,
            ) as usize;
            assert(consumed == outcome.1);
            assert(written == outcome.2.len());
            let bytes: &[u8] = vstd::slice::slice_subrange(self.out_buf.as_slice(), 0, written);
            assert(bytes@ =~= outcome.2);
            let mut lines: Vec<String> = self.lines.feed_bytes(bytes);
            let ghost now = r@;
            let ghost came = lines@;
            r.append(&mut lines);
            assert(texts(r@) =~= texts(now) + texts(came));
            let ghost step = received(pending, outcome.2);
            assert(texts(r@) =~= found + step.0);
            assert(self.pending() == step.1);
            if consumed == 0 {
                assert(whole.lines =~= texts(r@));
                break;
            }
            proof {
                assert(rest@.skip(consumed as int) =~= full@.skip(total_in + consumed));
                let later = unpacked(next, rest@.skip(consumed as int), step.1);
                assert(whole.lines =~= texts(r@) + later.lines);
            }
            total_in += consumed;
        }
        proof {
            law_lines_are_whole(old(self).history(), full@, old(self).pending());
            assert forall|i: int| 0 <= i < r@.len() implies is_line(#[trigger] r@[i]@) by {
                assert(texts(r@)[i] == r@[i]@);
            }
        }
        r
    }

    /// What waits for its end is part of one line.
    pub proof fn law_pending_is_one_line(self)
        requires
            self.wf(),
        ensures
            !self.pending().contains('\n'),
    {
    }
}

/// The lines that come out do not depend on the pieces in which a text arrives.
pub proof fn law_pieces_do_not_matter(pending: Seq<char>, a: Seq<char>, b: Seq<char>)
    ensures
        ({
            let first = split_lines(pending, a);
            let second = split_lines(first.1, b);
            let both = split_lines(pending, a + b);
            &&& both.0 == first.0 + second.0
            &&& both.1 == second.1
            &&& kept_lines(both.0) == kept_lines(first.0) + kept_lines(second.0)
        }),
    decreases b.len(),
{
    let first = split_lines(pending, a);
    let second = split_lines(first.1, b);
    if b.len() == 0 {
        assert(a + b =~= a);
        assert(first.0 + second.0 =~= first.0);
    } else {
        law_pieces_do_not_matter(pending, a, b.drop_last());
        assert((a + b).drop_last() =~= a + b.drop_last());
        assert((a + b).last() == b.last());
        let before = split_lines(first.1, b.drop_last());
        if b.last() == '\n' {
            assert((first.0 + before.0).push(before.1) =~= first.0 + before.0.push(before.1));
        }
    }
    lemma_kept_lines_add(first.0, second.0);
}

proof fn lemma_kept_lines_add(a: Seq<Seq<char>>, b: Seq<Seq<char>>)
    ensures
        kept_lines(a + b) == kept_lines(a) + kept_lines(b),
    decreases b.len(),
{
    if b.len() == 0 {
        assert(a + b =~= a);
        assert(kept_lines(a) + kept_lines(b) =~= kept_lines(a));
    } else {
        lemma_kept_lines_add(a, b.drop_last());
        assert((a + b).drop_last() =~= a + b.drop_last());
        assert((a + b).last() == b.last());
        let before = kept_lines(a) + kept_lines(b.drop_last());
        let line = trimmed(b.last());
        assert(before.push(line) =~= kept_lines(a) + kept_lines(b.drop_last()).push(line));
    }
}

/// What is left behind the last line holds no line break if what came before held none.
pub proof fn law_pending_has_no_line_break(pending: Seq<char>, text: Seq<char>)
    requires
        !pending.contains('\n'),
    ensures
        !split_lines(pending, text).1.contains('\n'),
        forall|i: int|
            0 <= i < split_lines(pending, text).0.len() ==> !(#[trigger] split_lines(
                pending,
                text,
            ).0[i]).contains('\n'),
    decreases text.len(),
{
    if text.len() > 0 {
        law_pending_has_no_line_break(pending, text.drop_last());
        let (lines, rest) = split_lines(pending, text.drop_last());
        if text.last() != '\n' {
            let longer = rest.push(text.last());
            assert forall|i: int| 0 <= i < longer.len() implies longer[i] != '\n' by {
                if i < rest.len() {
                    assert(rest.contains(rest[i]));
                }
            }
        }
    }
}

proof fn lemma_trimmed(s: Seq<char>, c: char)
    requires
        !s.contains(c),
    ensures
        !trimmed(s).contains(c),
{
    lemma_trimmed_start(s, c);
    lemma_trimmed_end(trimmed_start(s), c);
}

proof fn lemma_trimmed_start(s: Seq<char>, c: char)
    requires
        !s.contains(c),
    ensures
        !trimmed_start(s).contains(c),
    decreases s.len(),
{
    if s.len() > 0 && is_white(s[0]) {
        let rest = s.drop_first();
        assert forall|i: int| 0 <= i < rest.len() implies rest[i] != c by {
            assert(s.contains(s[i + 1]));
        }
        lemma_trimmed_start(rest, c);
    }
}

proof fn lemma_trimmed_end(s: Seq<char>, c: char)
    requires
        !s.contains(c),
    ensures
        !trimmed_end(s).contains(c),
    decreases s.len(),
{
    if s.len() > 0 && is_white(s.last()) {
        let rest = s.drop_last();
        assert forall|i: int| 0 <= i < rest.len() implies rest[i] != c by {
            assert(s.contains(s[i]));
        }
        lemma_trimmed_end(rest, c);
    }
}

proof fn lemma_kept_lines(lines: Seq<Seq<char>>)
    requires
        forall|i: int| 0 <= i < lines.len() ==> !(#[trigger] lines[i]).contains('\n'),
    ensures
        forall|i: int|
            0 <= i < kept_lines(lines).len() ==> is_line(#[trigger] kept_lines(lines)[i]),
    decreases lines.len(),
{
    if lines.len() > 0 {
        let before = kept_lines(lines.drop_last());
        lemma_kept_lines(lines.drop_last());
        lemma_trimmed(lines.last(), '\n');
        assert forall|i: int| 0 <= i < kept_lines(lines).len() implies is_line(
            #[trigger] kept_lines(lines)[i],
        ) by {
            if i < before.len() {
                assert(kept_lines(lines)[i] == before[i]);
            }
        }
    }
}

/// No line that comes out of a packet is empty or holds a line break, nor does what is left
/// behind the last of them hold one, if what came before held none.
pub proof fn law_lines_are_whole(history: History, input: Seq<u8>, pending: Seq<char>)
    requires
        !pending.contains('\n'),
    ensures
        ({
            let u = unpacked(history, input, pending);
            &&& !u.pending.contains('\n')
            &&& forall|i: int| 0 <= i < u.lines.len() ==> is_line(#[trigger] u.lines[i])
        }),
    decreases input.len(),
{
    if input.len() > 0 {
        let next = history.push((input, OUT_SIZE as nat));
        let (ok, consumed, bytes) = zlib_outcome(next);
        let (lines, rest) = received(pending, bytes);
        if bytes.len() > 0 && valid_utf8(bytes) {
            law_pending_has_no_line_break(pending, decode_utf8(bytes));
            lemma_kept_lines(split_lines(pending, decode_utf8(bytes)).0);
        }
        if ok && 0 < consumed <= input.len() {
            law_lines_are_whole(next, input.skip(consumed as int), rest);
        }
    }
}

/// The lines that come out of a packet are those of its text.
pub proof fn law_lines_of_a_packet(history: History, input: Seq<u8>, pending: Seq<char>)
    ensures
        packet_text(history, input) matches Some(text) ==> {
            let u = unpacked(history, input, pending);
            &&& u.lines == kept_lines(split_lines(pending, text).0)
            &&& u.pending == split_lines(pending, text).1
        },
    decreases input.len(),
{
    if packet_text(history, input) is Some && input.len() > 0 {
        let next = history.push((input, OUT_SIZE as nat));
        let (ok, consumed, bytes) = zlib_outcome(next);
        let (lines, rest) = received(pending, bytes);
        let text = decode_utf8(bytes);
        assert(lines == kept_lines(split_lines(pending, text).0) && rest == split_lines(
            pending,
            text,
        ).1);
        if 0 < consumed <= input.len() {
            let left = input.skip(consumed as int);
            law_lines_of_a_packet(next, left, rest);
            law_pieces_do_not_matter(pending, text, packet_text(next, left)->0);
        }
    }
}

/// What a stream was given does not depend on the line that it has begun.
proof fn lemma_history(history: History, input: Seq<u8>, a: Seq<char>, b: Seq<char>)
    ensures
        unpacked(history, input, a).history == unpacked(history, input, b).history,
    decreases input.len(),
{
    if input.len() > 0 {
        let next = history.push((input, OUT_SIZE as nat));
        let (ok, consumed, bytes) = zlib_outcome(next);
        if ok && 0 < consumed <= input.len() {
            lemma_history(
                next,
                input.skip(consumed as int),
                received(a, bytes).1,
                received(b, bytes).1,
            );
        }
    }
}

proof fn lemma_histories(history: History, packets: Seq<Seq<u8>>, a: Seq<char>, b: Seq<char>)
    ensures
        unpacked_all(history, packets, a).history == unpacked_all(history, packets, b).history,
    decreases packets.len(),
{
    if packets.len() > 0 {
        lemma_histories(history, packets.drop_last(), a, b);
        let x = unpacked_all(history, packets.drop_last(), a);
        let y = unpacked_all(history, packets.drop_last(), b);
        lemma_history(x.history, packets.last() + packet_end(), x.pending, y.pending);
    }
}

/// The lines that come out of a stream are those of its text, however it was cut into packets.
pub proof fn law_lines_of_a_stream(history: History, packets: Seq<Seq<u8>>, pending: Seq<char>)
    ensures
        stream_text(history, packets) matches Some(text) ==> {
            let u = unpacked_all(history, packets, pending);
            &&& u.lines == kept_lines(split_lines(pending, text).0)
            &&& u.pending == split_lines(pending, text).1
        },
    decreases packets.len(),
{
    if stream_text(history, packets) is Some && packets.len() > 0 {
        law_lines_of_a_stream(history, packets.drop_last(), pending);
        lemma_histories(history, packets.drop_last(), pending, Seq::empty());
        let before = unpacked_all(history, packets.drop_last(), pending);
        let input = packets.last() + packet_end();
        law_lines_of_a_packet(before.history, input, before.pending);
        law_pieces_do_not_matter(
            pending,
            stream_text(history, packets.drop_last())->0,
            packet_text(before.history, input)->0,
        );
    }
}

/// A piece without a line break makes the line that was begun longer; a line break ends that line,
/// and the next begins empty.
pub proof fn law_line_break_ends_a_line(pending: Seq<char>, text: Seq<char>)
    ensures
        !text.contains('\n') ==> split_lines(pending, text) == (
            Seq::<Seq<char>>::empty(),
            pending + text,
        ),
        split_lines(pending, seq!['\n']).0 == seq![pending],
        split_lines(pending, seq!['\n']).1.len() == 0,
    decreases text.len(),
{
    let one = seq!['\n'];
    assert(one.drop_last() =~= Seq::<char>::empty());
    assert(split_lines(pending, one.drop_last()) == (Seq::<Seq<char>>::empty(), pending));
    assert(Seq::<Seq<char>>::empty().push(pending) =~= seq![pending]);
    if !text.contains('\n') {
        if text.len() == 0 {
            assert(pending + text =~= pending);
        } else {
            assert forall|i: int| 0 <= i < text.drop_last().len() implies text.drop_last()[i]
                != '\n' by {
                assert(text.contains(text[i]));
            }
            law_line_break_ends_a_line(pending, text.drop_last());
            assert(text.contains(text[text.len() - 1]));
            assert((pending + text.drop_last()).push(text.last()) =~= pending + text);
        }
    }
}

/// The lines that are kept are all of them, in their order, without the white space at their ends,
/// but for those of which nothing is left.
pub proof fn law_lines_are_kept_in_order(lines: Seq<Seq<char>>)
    ensures
        kept_lines(lines) == lines.filter_map(
            |l: Seq<char>|
                if trimmed(l).len() > 0 {
                    Some(trimmed(l))
                } else {
                    None
                },
        ),
    decreases lines.len(),
{
    if lines.len() > 0 {
        law_lines_are_kept_in_order(lines.drop_last());
    }
}

/// What a step brings is cut into lines if it is text; what is no text is left out.
pub proof fn law_text_is_received(pending: Seq<char>, bytes: Seq<u8>)
    ensures
        valid_utf8(bytes) && bytes.len() > 0 ==> received(pending, bytes).0 == kept_lines(
            split_lines(pending, decode_utf8(bytes)).0,
        ) && received(pending, bytes).1 == split_lines(pending, decode_utf8(bytes)).1,
        !valid_utf8(bytes) || bytes.len() == 0 ==> received(pending, bytes).0.len() == 0 && received(
            pending,
            bytes,
        ).1 == pending,
{
}

} // verus!
