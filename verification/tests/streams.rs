use flate2::{Compress, Compression, FlushCompress};
use mlat_server::zlib_transport::{LineBuffer, Zlib2Decompressor};

struct Sender {
    c: Compress,
}

impl Sender {
    fn new() -> Sender {
        Sender { c: Compress::new(Compression::default(), true) }
    }

    // A packet with its last four bytes cut off.
    fn packet(&mut self, text: &[u8]) -> Vec<u8> {
        let mut out = Vec::with_capacity(100_000);
        self.c.compress_vec(text, &mut out, FlushCompress::Sync).unwrap();
        assert_eq!(&out[out.len() - 4..], &[0x00, 0x00, 0xff, 0xff]);
        out.truncate(out.len() - 4);
        out
    }
}

#[test]
fn lines_come_out_of_packets() {
    let mut s = Sender::new();
    let mut z = Zlib2Decompressor::new();
    assert_eq!(z.decompress_packet_callback(&s.packet(b"one\ntwo\n")), vec!["one", "two"]);
    assert_eq!(z.decompress_packet_callback(&s.packet(b"three\nfo")), vec!["three"]);
    assert_eq!(z.decompress_packet_callback(&s.packet(b"ur\n")), vec!["four"]);
}

#[test]
fn lines_are_trimmed_and_empty_ones_dropped() {
    let mut s = Sender::new();
    let mut z = Zlib2Decompressor::default();
    let r = z.decompress_packet_callback(&s.packet(b"\n  a b \r\n\t\n\nc\n"));
    assert_eq!(r, vec!["a b", "c"]);
}

#[test]
fn corrupt_packet_starts_the_stream_anew() {
    let mut s = Sender::new();
    let mut z = Zlib2Decompressor::new();
    assert_eq!(z.decompress_packet_callback(&s.packet(b"x\npart")), vec!["x"]);
    assert_eq!(z.decompress_packet_callback(&[0xff, 0xff, 0xff, 0xff]), Vec::<String>::new());
    let mut fresh = Sender::new();
    assert_eq!(z.decompress_packet_callback(&fresh.packet(b"ial\ny\n")), vec!["partial", "y"]);
}

#[test]
fn bytes_that_are_no_text_are_left_out() {
    let mut s = Sender::new();
    let mut z = Zlib2Decompressor::new();
    assert_eq!(z.decompress_packet_callback(&s.packet(b"a\xff\n")), Vec::<String>::new());
    assert_eq!(z.decompress_packet_callback(&s.packet("\u{e9}\n".as_bytes())), vec!["\u{e9}"]);
}

#[test]
fn lines_do_not_depend_on_the_pieces() {
    let text = "first\nse cond \n\n  third\nrest";
    for cut in 0..text.len() {
        let mut b = LineBuffer::new();
        let mut r = b.feed(&text[..cut]);
        r.extend(b.feed(&text[cut..]));
        assert_eq!(r, vec!["first", "se cond", "third"]);
        assert_eq!(b.feed("\n"), vec!["rest"]);
    }
}

#[test]
fn bytes_are_taken_as_text() {
    let mut b = LineBuffer::new();
    assert_eq!(b.feed_bytes(b"ab"), Vec::<String>::new());
    assert_eq!(b.feed_bytes(b"\xff\n"), Vec::<String>::new());
    assert_eq!(b.feed_bytes(b""), Vec::<String>::new());
    assert_eq!(b.feed_bytes(b"c\n"), vec!["abc"]);
}

#[test]
fn lines_do_not_depend_on_the_packets() {
    let text = b"first\nse cond \n\n  third\nlast\nrest";
    for size in 1..text.len() + 1 {
        let mut s = Sender::new();
        let mut z = Zlib2Decompressor::new();
        let mut lines: Vec<String> = Vec::new();
        for piece in text.chunks(size) {
            lines.extend(z.decompress_packet_callback(&s.packet(piece)));
        }
        assert_eq!(lines, vec!["first", "se cond", "third", "last"], "{}", size);
        assert!(lines.iter().all(|l| !l.is_empty() && !l.contains('\n')));
        assert_eq!(z.decompress_packet_callback(&s.packet(b"!\n")), vec!["rest!"]);
    }
}
