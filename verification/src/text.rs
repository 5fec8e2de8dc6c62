//! Text: characters, digits, lines and fields.

use vstd::prelude::*;
use vstd::utf8::{decode_utf8, encode_utf8, encode_utf8_decode_utf8, valid_utf8};

verus! {

/// `String::push`: the character becomes the last one of the string.
pub assume_specification[ String::push ](s: &mut String, c: char)
    ensures
        final(s)@ == old(s)@.push(c),
;

/// `str::trim`: the string without the white space at its two ends.
pub assume_specification[ str::trim ](s: &str) -> (r: &str)
    ensures
        r@ == trimmed(s@),
;

/// `str::from_utf8`: the text that bytes encode, where they are UTF-8.
#[verifier::external_body]
pub(crate) fn text_of(bytes: &[u8]) -> (r: Option<String>)
    ensures
        r is Some <==> valid_utf8(bytes@),
        r matches Some(s) ==> s@ == decode_utf8(bytes@),
{
    std::str::from_utf8(bytes).ok().map(|s| s.to_string())
}

/// The characters that Unicode calls white space.
pub open spec fn is_white(c: char) -> bool {
    let u = c as u32;
    ||| 0x09 <= u <= 0x0d
    ||| u == 0x20
    ||| u == 0x85
    ||| u == 0xa0
    ||| u == 0x1680
    ||| 0x2000 <= u <= 0x200a
    ||| u == 0x2028
    ||| u == 0x2029
    ||| u == 0x202f
    ||| u == 0x205f
    ||| u == 0x3000
}

/// A text without the white space at its start.
pub open spec fn trimmed_start(s: Seq<char>) -> Seq<char>
    decreases s.len(),
{
    if s.len() > 0 && is_white(s[0]) {
        trimmed_start(s.drop_first())
    } else {
        s
    }
}

/// A text without the white space at its end.
pub open spec fn trimmed_end(s: Seq<char>) -> Seq<char>
    decreases s.len(),
{
    if s.len() > 0 && is_white(s.last()) {
        trimmed_end(s.drop_last())
    } else {
        s
    }
}

/// A text without the white space at its two ends.
pub open spec fn trimmed(s: Seq<char>) -> Seq<char> {
    trimmed_end(trimmed_start(s))
}

/// The characters of a text.
pub(crate) fn chars_of(s: &str) -> (r: Vec<char>)
    ensures
        r@ == s@,
{
    let mut r: Vec<char> = Vec::new();
    for c in it: s.chars()
        invariant
            r@ =~= it.seq().take(it.index()),
            it.seq() == s@,
    {
        r.push(c);
    }
    r
}

/// The text of characters.
pub(crate) fn string_of(chars: &[char]) -> (s: String)
    ensures
        s@ == chars@,
{
    let mut s: String = String::new();
    let mut i: usize = 0;
    while i < chars.len()
        invariant
            i <= chars@.len(),
            s@ =~= chars@.take(i as int),
        decreases chars@.len() - i,
    {
        s.push(chars[i]);
        i += 1;
    }
    s
}

/// The value of a hexadecimal digit.
pub open spec fn hex_digit(c: u32) -> Option<int> {
    if 0x30 <= c <= 0x39 {
        Some(c - 0x30)
    } else if 0x41 <= c <= 0x46 {
        Some(c - 0x37)
    } else if 0x61 <= c <= 0x66 {
        Some(c - 0x57)
    } else {
        None
    }
}

/// The value of a hexadecimal digit, by its code.
pub(crate) fn hex_digit_value(c: u32) -> (r: Option<u32>)
    ensures
        hex_digit(c) is Some <==> r is Some,
        r matches Some(v) ==> hex_digit(c) == Some(v as int) && v < 16,
{
    if 0x30 <= c && c <= 0x39 {
        Some(c - 0x30)
    } else if 0x41 <= c && c <= 0x46 {
        Some(c - 0x37)
    } else if 0x61 <= c && c <= 0x66 {
        Some(c - 0x57)
    } else {
        None
    }
}

/// The number that hexadecimal digits stand for; none where a character is no digit.
pub open spec fn hex_number(s: Seq<char>) -> Option<int>
    decreases s.len(),
{
    if s.len() == 0 {
        Some(0)
    } else {
        match (hex_number(s.drop_last()), hex_digit(s.last() as u32)) {
            (Some(high), Some(low)) => Some(16 * high + low),
            _ => None,
        }
    }
}

/// The number that a text stands for in base 16: an optional plus sign, then at least one
/// digit, and no more than 32 bits.
pub open spec fn parsed_hex(s: Seq<char>) -> Option<u32> {
    let digits = if s.len() > 0 && s[0] == '+' {
        s.skip(1)
    } else {
        s
    };
    match hex_number(digits) {
        Some(n) => if digits.len() > 0 && n <= u32::MAX {
            Some(n as u32)
        } else {
            None
        },
        None => None,
    }
}

proof fn lemma_hex_number_prefix(s: Seq<char>, n: int)
    requires
        0 <= n <= s.len(),
    ensures
        hex_number(s) is Some ==> hex_number(s.take(n)) is Some,
        hex_number(s) matches Some(v) ==> 0 <= hex_number(s.take(n))->0 <= v,
    decreases s.len(),
{
    if n < s.len() {
        lemma_hex_number_prefix(s.drop_last(), n);
        assert(s.drop_last().take(n) =~= s.take(n));
    } else {
        assert(s.take(n) =~= s);
        if s.len() > 0 {
            lemma_hex_number_prefix(s.drop_last(), n - 1);
        }
    }
}

/// The number that a text stands for in base 16.
pub(crate) fn parse_hex(s: &[char]) -> (r: Option<u32>)
    ensures
        r == parsed_hex(s@),
{
    let start: usize = if s.len() > 0 && s[0] == '+' {
        1
    } else {
        0
    };
    let ghost digits = s@.skip(start as int);
    assert(start == 0 ==> digits =~= s@);
    if s.len() == start {
        return None;
    }
    let mut n: u32 = 0;
    let mut i: usize = start;
    while i < s.len()
        invariant
            start <= i <= s@.len(),
            start <= 1,
            digits == s@.skip(start as int),
            hex_number(digits.take(i - start)) == Some(n as int),
            digits.len() > 0,
            parsed_hex(s@) == (match hex_number(digits) {
                Some(n) => if n <= u32::MAX {
                    Some(n as u32)
                } else {
                    None
                },
                None => None,
            }),
        decreases s@.len() - i,
    {
        let c: char = s[i];
        proof {
            assert(digits.take(i + 1 - start).drop_last() =~= digits.take(i - start));
            assert(digits.take(i + 1 - start).last() == s@[i as int]);
            lemma_hex_number_prefix(digits, i + 1 - start);
        }
        let d: u32 = match hex_digit_value(c as u32) {
            Some(d) => d,
            None => return None,
        };
        if n > 0x0fff_ffff {
            return None;
        }
        n = 16 * n + d;
        i += 1;
    }
    assert(digits.take(i - start) =~= digits);
    Some(n)
}

/// The digits of a number in base 10.
pub open spec fn decimal(n: nat) -> Seq<char>
    decreases n,
{
    if n < 10 {
        seq![(n + 0x30) as u8 as char]
    } else {
        decimal(n / 10).push((n % 10 + 0x30) as u8 as char)
    }
}

/// A number in base 10, with a minus sign where it is negative.
pub open spec fn signed_decimal(n: int) -> Seq<char> {
    if n < 0 {
        seq!['-'] + decimal((-n) as nat)
    } else {
        decimal(n as nat)
    }
}

/// Appends a number in base 10.
pub(crate) fn push_decimal(s: &mut String, n: u64)
    ensures
        final(s)@ == old(s)@ + decimal(n as nat),
    decreases n,
{
    if n >= 10 {
        push_decimal(s, n / 10);
    }
    s.push(((n % 10) as u8 + 0x30) as char);
    assert(s@ =~= old(s)@ + decimal(n as nat));
}

/// Appends a number in base 10, with a minus sign where it is negative.
pub(crate) fn push_signed(s: &mut String, n: i32)
    ensures
        final(s)@ == old(s)@ + signed_decimal(n as int),
{
    let m: i64 = n as i64;
    if m < 0 {
        s.push('-');
        push_decimal(s, (-m) as u64);
    } else {
        push_decimal(s, m as u64);
    }
    assert(s@ =~= old(s)@ + signed_decimal(n as int));
}

/// A hexadecimal digit; the letters are small unless `upper`.
pub open spec fn hex_char(d: int, upper: bool) -> char {
    if d < 10 {
        (d + 0x30) as u8 as char
    } else if upper {
        (d + 0x37) as u8 as char
    } else {
        (d + 0x57) as u8 as char
    }
}

/// The digits of a number in base 16, at least `width` of them.
pub open spec fn hex_padded(n: nat, width: nat, upper: bool) -> Seq<char>
    decreases n, width,
{
    if n < 16 && width <= 1 {
        seq![hex_char(n as int, upper)]
    } else {
        hex_padded(n / 16, (if width > 0 {
            width - 1
        } else {
            0
        }) as nat, upper).push(hex_char((n % 16) as int, upper))
    }
}

/// Appends a number in base 16, padded with zeros.
fn push_hex(s: &mut String, n: u32, width: u32, upper: bool)
    ensures
        final(s)@ == old(s)@ + hex_padded(n as nat, width as nat, upper),
    decreases n, width,
{
    if n >= 16 || width > 1 {
        push_hex(s, n / 16, if width > 0 {
            width - 1
        } else {
            0
        }, upper);
    }
    let d: u8 = (n % 16) as u8;
    s.push(
        (d + (if d < 10 {
            0x30
        } else if upper {
            0x37
        } else {
            0x57
        })) as char,
    );
    assert(s@ =~= old(s)@ + hex_padded(n as nat, width as nat, upper));
}

/// An aircraft address as six or more hexadecimal digits.
pub open spec fn icao_text(icao: u32, upper: bool) -> Seq<char> {
    hex_padded(icao as nat, 6, upper)
}

/// An aircraft address as six or more hexadecimal digits.
pub fn format_icao(icao: u32, upper: bool) -> (s: String)
    ensures
        s@ == icao_text(icao, upper),
{
    let mut s: String = String::new();
    push_hex(&mut s, icao, 6, upper);
    assert(s@ =~= icao_text(icao, upper));
    s
}

/// An ASCII letter as a capital letter; any other character as it is.
pub open spec fn ascii_upper(c: char) -> char {
    if 'a' <= c <= 'z' {
        (c as u32 - 0x20) as u8 as char
    } else {
        c
    }
}

/// A text with its ASCII letters as capital letters.
pub open spec fn upper_text(s: Seq<char>) -> Seq<char> {
    s.map_values(|c: char| ascii_upper(c))
}

/// The order of byte strings: by the first byte in which they differ, a beginning before
/// what it begins.
pub open spec fn bytes_less(a: Seq<u8>, b: Seq<u8>) -> bool
    decreases a.len(),
{
    if b.len() == 0 {
        false
    } else if a.len() == 0 {
        true
    } else if a[0] != b[0] {
        a[0] < b[0]
    } else {
        bytes_less(a.drop_first(), b.drop_first())
    }
}

/// The order of texts.
pub open spec fn text_less(a: Seq<char>, b: Seq<char>) -> bool {
    bytes_less(encode_utf8(a), encode_utf8(b))
}

proof fn lemma_bytes_order(a: Seq<u8>, b: Seq<u8>)
    ensures
        !(bytes_less(a, b) && bytes_less(b, a)),
        bytes_less(a, b) || bytes_less(b, a) <==> a != b,
    decreases a.len(),
{
    if a.len() > 0 && b.len() > 0 {
        lemma_bytes_order(a.drop_first(), b.drop_first());
        if a[0] == b[0] && a.drop_first() == b.drop_first() {
            assert(a =~= seq![a[0]] + a.drop_first());
            assert(b =~= seq![b[0]] + b.drop_first());
        }
    } else if a.len() == 0 && b.len() == 0 {
        assert(a =~= b);
    }
}

/// Of two different texts one comes first.
pub proof fn law_text_order(a: Seq<char>, b: Seq<char>)
    ensures
        !(text_less(a, b) && text_less(b, a)),
        text_less(a, b) || text_less(b, a) <==> a != b,
{
    lemma_bytes_order(encode_utf8(a), encode_utf8(b));
    if encode_utf8(a) == encode_utf8(b) {
        encode_utf8_decode_utf8(a);
        encode_utf8_decode_utf8(b);
    }
}

/// Whether a text comes before another.
pub(crate) fn text_lt(a: &str, b: &str) -> (r: bool)
    ensures
        r == text_less(a@, b@),
{
    let x: &[u8] = a.as_bytes();
    let y: &[u8] = b.as_bytes();
    let mut i: usize = 0;
    assert(x@.skip(0) =~= x@);
    assert(y@.skip(0) =~= y@);
    while i < x.len() && i < y.len()
        invariant
            i <= x@.len(),
            i <= y@.len(),
            x@ == encode_utf8(a@),
            y@ == encode_utf8(b@),
            text_less(a@, b@) == bytes_less(x@.skip(i as int), y@.skip(i as int)),
        decreases x@.len() - i,
    {
        if x[i] != y[i] {
            return x[i] < y[i];
        }
        assert(x@.skip(i as int).drop_first() =~= x@.skip(i + 1));
        assert(y@.skip(i as int).drop_first() =~= y@.skip(i + 1));
        i += 1;
    }
    i < y.len()
}

/// Whether two texts are the same.
pub(crate) fn text_eq(a: &str, b: &str) -> (r: bool)
    ensures
        r == (a@ == b@),
{
    let x: &[u8] = a.as_bytes();
    let y: &[u8] = b.as_bytes();
    proof {
        encode_utf8_decode_utf8(a@);
        encode_utf8_decode_utf8(b@);
    }
    if x.len() != y.len() {
        return false;
    }
    let mut i: usize = 0;
    while i < x.len()
        invariant
            i <= x@.len(),
            x@.len() == y@.len(),
            x@ == encode_utf8(a@),
            y@ == encode_utf8(b@),
            x@.take(i as int) =~= y@.take(i as int),
        decreases x@.len() - i,
    {
        if x[i] != y[i] {
            return false;
        }
        i += 1;
    }
    assert(x@ =~= y@) by {
        assert(x@.take(i as int) =~= x@);
        assert(y@.take(i as int) =~= y@);
    }
    true
}

/// A text with its ASCII letters as capital letters.
pub(crate) fn upper_of(s: &[char]) -> (r: Vec<char>)
    ensures
        r@ == upper_text(s@),
{
    let mut r: Vec<char> = Vec::new();
    let mut i: usize = 0;
    while i < s.len()
        invariant
            i <= s@.len(),
            r@ =~= upper_text(s@).take(i as int),
        decreases s@.len() - i,
    {
        let c: char = s[i];
        let u: char = if 'a' <= c && c <= 'z' {
            (c as u32 - 0x20) as u8 as char
        } else {
            c
        };
        r.push(u);
        i += 1;
    }
    assert(r@ =~= upper_text(s@));
    r
}

/// The parts of a text between separators.
pub open spec fn fields(s: Seq<char>, separator: char) -> Seq<Seq<char>>
    decreases s.len(),
{
    if s.len() == 0 {
        seq![Seq::<char>::empty()]
    } else {
        let before = fields(s.drop_last(), separator);
        if s.last() == separator {
            before.push(Seq::empty())
        } else {
            before.drop_last().push(before.last().push(s.last()))
        }
    }
}

/// The contents of lists of characters.
pub open spec fn char_lists(lists: Seq<Vec<char>>) -> Seq<Seq<char>> {
    lists.map_values(|l: Vec<char>| l@)
}

/// The parts of a text between separators.
pub(crate) fn split_fields(s: &[char], separator: char) -> (r: Vec<Vec<char>>)
    ensures
        char_lists(r@) == fields(s@, separator),
{
    let mut done: Vec<Vec<char>> = Vec::new();
    let mut part: Vec<char> = Vec::new();
    let mut i: usize = 0;
    assert(s@.take(0) =~= Seq::<char>::empty());
    assert(char_lists(done@).push(part@) =~= fields(s@.take(0), separator));
    while i < s.len()
        invariant
            i <= s@.len(),
            char_lists(done@).push(part@) == fields(s@.take(i as int), separator),
        decreases s@.len() - i,
    {
        let c: char = s[i];
        let ghost before = done@;
        let ghost last = part@;
        proof {
            assert(s@.take(i + 1).drop_last() =~= s@.take(i as int));
            assert(s@.take(i + 1).last() == c);
            assert(char_lists(before).push(last).drop_last() =~= char_lists(before));
        }
        if c == separator {
            done.push(part);
            part = Vec::new();
            assert(char_lists(done@) =~= char_lists(before).push(last));
            assert(part@ =~= Seq::<char>::empty());
        } else {
            part.push(c);
        }
        i += 1;
    }
    assert(s@.take(i as int) =~= s@);
    let ghost before = done@;
    done.push(part);
    assert(char_lists(done@) =~= char_lists(before).push(part@));
    done
}

/// Whether characters are those of a text.
pub(crate) fn chars_eq(a: &[char], b: &str) -> (r: bool)
    ensures
        r == (a@ == b@),
{
    let other: Vec<char> = chars_of(b);
    if a.len() != other.len() {
        return false;
    }
    let mut i: usize = 0;
    while i < a.len()
        invariant
            i <= a@.len(),
            other@ == b@,
            a@.len() == other@.len(),
            a@.take(i as int) =~= other@.take(i as int),
        decreases a@.len() - i,
    {
        if a[i] != other[i] {
            return false;
        }
        i += 1;
    }
    assert(a@ =~= other@) by {
        assert(a@.take(i as int) =~= a@);
        assert(other@.take(i as int) =~= other@);
    }
    true
}

/// A text begins with another.
pub open spec fn begins(s: Seq<char>, start: Seq<char>) -> bool {
    s.len() >= start.len() && s.take(start.len() as int) == start
}

/// Whether characters begin with those of a text.
pub(crate) fn chars_begin(a: &[char], start: &str) -> (r: bool)
    ensures
        r == begins(a@, start@),
{
    let other: Vec<char> = chars_of(start);
    if a.len() < other.len() {
        return false;
    }
    let first: &[char] = vstd::slice::slice_subrange(a, 0, other.len());
    assert(first@ =~= a@.take(other@.len() as int));
    chars_eq(first, start)
}

/// Appends a text.
pub(crate) fn push_text(s: &mut String, t: &str)
    ensures
        final(s)@ == old(s)@ + t@,
{
    for c in it: t.chars()
        invariant
            it.seq() == t@,
            s@ =~= old(s)@ + t@.take(it.index()),
    {
        s.push(c);
    }
    assert(t@.take(t@.len() as int) =~= t@);
}

/// Whether a character is white space.
fn white(c: char) -> (r: bool)
    ensures
        r == is_white(c),
{
    let u: u32 = c as u32;
    (0x09 <= u && u <= 0x0d) || u == 0x20 || u == 0x85 || u == 0xa0 || u == 0x1680 || (0x2000 <= u
        && u <= 0x200a) || u == 0x2028 || u == 0x2029 || u == 0x202f || u == 0x205f || u == 0x3000
}

/// The words of a text that white space follows, and the one that nothing follows.
pub open spec fn split_words(s: Seq<char>) -> (Seq<Seq<char>>, Seq<char>)
    decreases s.len(),
{
    if s.len() == 0 {
        (Seq::empty(), Seq::empty())
    } else {
        let (done, word) = split_words(s.drop_last());
        if !is_white(s.last()) {
            (done, word.push(s.last()))
        } else if word.len() == 0 {
            (done, word)
        } else {
            (done.push(word), Seq::empty())
        }
    }
}

/// The words of a text, which white space parts.
pub open spec fn words(s: Seq<char>) -> Seq<Seq<char>> {
    let (done, word) = split_words(s);
    if word.len() == 0 {
        done
    } else {
        done.push(word)
    }
}

/// The words of a text, which white space parts.
pub(crate) fn words_of(s: &str) -> (r: Vec<Vec<char>>)
    ensures
        char_lists(r@) == words(s@),
{
    let mut done: Vec<Vec<char>> = Vec::new();
    let mut word: Vec<char> = Vec::new();
    assert(char_lists(done@) =~= Seq::<Seq<char>>::empty());
    assert(word@ =~= Seq::<char>::empty());
    assert(s@.take(0) =~= Seq::<char>::empty());
    for c in it: s.chars()
        invariant
            it.seq() == s@,
            (char_lists(done@), word@) == split_words(s@.take(it.index())),
    {
        let ghost i = it.index();
        let ghost before = done@;
        let ghost last = word@;
        proof {
            assert(s@.take(i + 1).drop_last() =~= s@.take(i));
            assert(s@.take(i + 1).last() == c);
        }
        if !white(c) {
            word.push(c);
        } else if word.len() > 0 {
            done.push(word);
            word = Vec::new();
            assert(char_lists(done@) =~= char_lists(before).push(last));
            assert(word@ =~= Seq::<char>::empty());
        }
    }
    assert(s@.take(s@.len() as int) =~= s@);
    if word.len() > 0 {
        let ghost before = done@;
        done.push(word);
        assert(char_lists(done@) =~= char_lists(before).push(word@));
    }
    done
}

/// What an address is written as stands for it.
pub proof fn law_address_text_is_read_back(icao: u32, upper: bool)
    ensures
        parsed_hex(icao_text(icao, upper)) == Some(icao),
{
    lemma_hex_padded(icao as nat, 6, upper);
    let s = icao_text(icao, upper);
    lemma_hex_chars(icao as nat, 6, upper);
    assert(s[0] != '+');
}

proof fn lemma_hex_padded(n: nat, width: nat, upper: bool)
    ensures
        hex_number(hex_padded(n, width, upper)) == Some(n as int),
        hex_padded(n, width, upper).len() > 0,
    decreases n, width,
{
    let low = hex_char((n % 16) as int, upper);
    assert(hex_digit(low as u32) == Some((n % 16) as int));
    let s = hex_padded(n, width, upper);
    if n < 16 && width <= 1 {
        assert(s =~= seq![low]);
        assert(s.drop_last() =~= Seq::<char>::empty());
        assert(hex_number(Seq::<char>::empty()) == Some(0int));
    } else {
        let w = (if width > 0 {
            width - 1
        } else {
            0
        }) as nat;
        lemma_hex_padded(n / 16, w, upper);
        assert(s.drop_last() =~= hex_padded(n / 16, w, upper));
        assert(s.last() == low);
        assert(16 * (n / 16) + n % 16 == n);
    }
}

proof fn lemma_hex_chars(n: nat, width: nat, upper: bool)
    ensures
        forall|i: int|
            0 <= i < hex_padded(n, width, upper).len() ==> #[trigger] hex_padded(
                n,
                width,
                upper,
            )[i] != '+',
    decreases n, width,
{
    let low = hex_char((n % 16) as int, upper);
    assert(hex_digit(low as u32) == Some((n % 16) as int));
    assert(hex_digit('+' as u32) is None);
    assert(low != '+');
    if !(n < 16 && width <= 1) {
        let w = (if width > 0 {
            width - 1
        } else {
            0
        }) as nat;
        lemma_hex_chars(n / 16, w, upper);
        let high = hex_padded(n / 16, w, upper);
        let all = hex_padded(n, width, upper);
        assert(all == high.push(low));
        assert forall|i: int| 0 <= i < all.len() implies all[i] != '+' by {
            if i < high.len() {
                assert(all[i] == high[i]);
            }
        }
    } else {
        assert(hex_padded(n, width, upper) =~= seq![low]);
    }
}

/// How often a character stands in a text.
pub open spec fn occurrences(s: Seq<char>, c: char) -> nat
    decreases s.len(),
{
    if s.len() == 0 {
        0
    } else {
        occurrences(s.drop_last(), c) + (if s.last() == c {
            1nat
        } else {
            0
        })
    }
}

/// A text has one part more than separators.
pub proof fn lemma_fields_len(s: Seq<char>, separator: char)
    ensures
        fields(s, separator).len() == occurrences(s, separator) + 1,
    decreases s.len(),
{
    if s.len() > 0 {
        lemma_fields_len(s.drop_last(), separator);
    }
}

pub proof fn lemma_occurrences_add(a: Seq<char>, b: Seq<char>, c: char)
    ensures
        occurrences(a + b, c) == occurrences(a, c) + occurrences(b, c),
    decreases b.len(),
{
    if b.len() == 0 {
        assert(a + b =~= a);
    } else {
        lemma_occurrences_add(a, b.drop_last(), c);
        assert((a + b).drop_last() =~= a + b.drop_last());
        assert((a + b).last() == b.last());
    }
}

/// No digit is a comma.
pub proof fn lemma_decimal_has_no_comma(n: nat)
    ensures
        occurrences(decimal(n), ',') == 0,
    decreases n,
{
    reveal_with_fuel(occurrences, 2);
    let d = decimal(n);
    if n >= 10 {
        lemma_decimal_has_no_comma(n / 10);
        assert(d.drop_last() =~= decimal(n / 10));
        assert(d.last() as u32 == n % 10 + 0x30);
    } else {
        assert(d.drop_last() =~= Seq::<char>::empty());
        assert(d.last() as u32 == n + 0x30);
    }
}

/// Letters of either size are the same digits.
pub proof fn law_digits_of_either_size(s: Seq<char>)
    ensures
        parsed_hex(upper_text(s)) == parsed_hex(s),
{
    let u = upper_text(s);
    if s.len() > 0 {
        assert(u[0] == ascii_upper(s[0]));
        if s[0] == '+' {
            assert(u.skip(1) =~= upper_text(s.skip(1)));
            lemma_upper_number(s.skip(1));
        } else {
            assert(u[0] != '+') by {
                if 'a' <= s[0] <= 'z' {
                    assert(u[0] as u32 == s[0] as u32 - 0x20);
                }
            }
            lemma_upper_number(s);
        }
    } else {
        assert(u =~= s);
    }
}

proof fn lemma_upper_number(s: Seq<char>)
    ensures
        hex_number(upper_text(s)) == hex_number(s),
        upper_text(s).len() == s.len(),
    decreases s.len(),
{
    let u = upper_text(s);
    if s.len() > 0 {
        lemma_upper_number(s.drop_last());
        assert(u.drop_last() =~= upper_text(s.drop_last()));
        let c = s.last();
        assert(u.last() == ascii_upper(c));
        if 'a' <= c <= 'z' {
            assert(u.last() as u32 == c as u32 - 0x20);
        }
    }
}

/// A text stands for a number in base 16 if it is that of its digits, the first one weighing the
/// most: one more digit counts as itself, and the others sixteen times.
pub proof fn law_digits_weigh_sixteen(s: Seq<char>, n: u32, c: char, d: int)
    requires
        parsed_hex(s) == Some(n),
        '0' <= c <= '9' && d == c as u32 - 0x30 || 'a' <= c <= 'f' && d == c as u32 - 0x57,
    ensures
        16 * n + d <= u32::MAX ==> parsed_hex(s.push(c)) == Some((16 * n + d) as u32),
        16 * n + d > u32::MAX ==> parsed_hex(s.push(c)) is None,
        parsed_hex(Seq::<char>::empty()) is None,
        parsed_hex(seq![c]) == Some(d as u32),
{
    let t = s.push(c);
    assert(t[0] == s[0]);
    let digits = if s[0] == '+' {
        s.skip(1)
    } else {
        s
    };
    let more = if s[0] == '+' {
        t.skip(1)
    } else {
        t
    };
    assert(more.drop_last() =~= digits);
    assert(more.last() == c);
    lemma_hex_number_prefix(digits, digits.len() as int);
    assert(digits.take(digits.len() as int) =~= digits);
    assert(hex_number(digits) == Some(n as int));
    assert(hex_digit(c as u32) == Some(d));
    assert(hex_number(more) == Some(16 * n + d));
    assert(seq![c].drop_last() =~= Seq::<char>::empty());
    reveal_with_fuel(hex_number, 2);
}

/// An address is written with six digits, or with more where it needs them.
pub proof fn law_addresses_have_six_digits(icao: u32, upper: bool)
    ensures
        icao_text(icao, upper).len() >= 6,
        icao < 0x100_0000 ==> icao_text(icao, upper).len() == 6,
{
    reveal_with_fuel(hex_padded, 9);
}

/// The number that decimal digits stand for.
pub open spec fn decimal_value(s: Seq<char>) -> int
    decreases s.len(),
{
    if s.len() == 0 {
        0
    } else {
        10 * decimal_value(s.drop_last()) + (s.last() as u32 - 0x30)
    }
}

/// A number in base 10 is written with digits that stand for it, without a zero in front; a
/// negative one has a minus sign before them.
pub proof fn law_decimals_are_read_back(n: nat)
    ensures
        decimal_value(decimal(n)) == n,
        decimal(n).len() > 0,
        n > 0 ==> decimal(n)[0] != '0',
        forall|i: int| 0 <= i < decimal(n).len() ==> '0' <= #[trigger] decimal(n)[i] <= '9',
        n > 0 ==> signed_decimal(-(n as int)) == seq!['-'] + decimal(n),
        signed_decimal(n as int) == decimal(n),
    decreases n,
{
    let d = decimal(n);
    if n >= 10 {
        law_decimals_are_read_back(n / 10);
        assert(d.drop_last() =~= decimal(n / 10));
        assert(d.last() as u32 == n % 10 + 0x30);
        assert(d[0] == decimal(n / 10)[0]);
        assert forall|i: int| 0 <= i < d.len() implies '0' <= #[trigger] d[i] <= '9' by {
            if i < d.len() - 1 {
                assert(d[i] == decimal(n / 10)[i]);
            }
        }
    } else {
        assert(d.drop_last() =~= Seq::<char>::empty());
        assert(d.last() as u32 == n + 0x30);
        reveal_with_fuel(decimal_value, 2);
    }
}

/// A separator parts what stands before it from what follows; a text without one is one part.
pub proof fn law_separators_part(a: Seq<char>, b: Seq<char>, separator: char)
    ensures
        fields(a.push(separator) + b, separator) == fields(a, separator) + fields(b, separator),
        !a.contains(separator) ==> fields(a, separator) == seq![a],
    decreases a.len() + b.len(),
{
    lemma_fields_some(a, separator);
    lemma_fields_some(b, separator);
    let all = a.push(separator) + b;
    if b.len() == 0 {
        assert(all =~= a.push(separator));
        assert(a.push(separator).drop_last() =~= a);
        assert(fields(a, separator).push(Seq::empty()) =~= fields(a, separator) + fields(
            b,
            separator,
        ));
    } else {
        law_separators_part(a, b.drop_last(), separator);
        lemma_fields_some(b.drop_last(), separator);
        assert(all.drop_last() =~= a.push(separator) + b.drop_last());
        assert(all.last() == b.last());
        let x = fields(a, separator);
        let y = fields(b.drop_last(), separator);
        if b.last() == separator {
            assert((x + y).push(Seq::empty()) =~= x + y.push(Seq::empty()));
        } else {
            assert((x + y).last() == y.last());
            assert((x + y).drop_last().push(y.last().push(b.last())) =~= x + y.drop_last().push(
                y.last().push(b.last()),
            ));
        }
    }
    if !a.contains(separator) {
        lemma_one_field(a, separator);
    }
}

proof fn lemma_fields_some(s: Seq<char>, separator: char)
    ensures
        fields(s, separator).len() > 0,
{
    lemma_fields_len(s, separator);
}

proof fn lemma_one_field(a: Seq<char>, separator: char)
    requires
        !a.contains(separator),
    ensures
        fields(a, separator) == seq![a],
    decreases a.len(),
{
    if a.len() == 0 {
        assert(a =~= Seq::<char>::empty());
    } else {
        assert forall|i: int| 0 <= i < a.drop_last().len() implies a.drop_last()[i] != separator by {
            assert(a.contains(a[i]));
        }
        lemma_one_field(a.drop_last(), separator);
        assert(a.contains(a[a.len() - 1]));
        assert(a.drop_last().push(a.last()) =~= a);
        let before = fields(a.drop_last(), separator);
        assert(before.drop_last().push(before.last().push(a.last())) =~= seq![a]);
    }
}

/// White space parts words: those before it and those behind it are read each for themselves; a
/// text without any is one word, and no word is empty.
pub proof fn law_white_space_parts_words(a: Seq<char>, w: char, b: Seq<char>)
    requires
        is_white(w),
    ensures
        words(a.push(w) + b) == words(a) + words(b),
        (forall|i: int| 0 <= i < a.len() ==> !is_white(#[trigger] a[i])) && a.len() > 0 ==> words(a)
            == seq![a],
        words(Seq::<char>::empty()).len() == 0,
{
    let head = a.push(w);
    assert(head.drop_last() =~= a);
    assert(split_words(head).1.len() == 0);
    assert(split_words(head).0 =~= words(a));
    lemma_words_join(head, b);
    let (done, word) = split_words(b);
    if word.len() > 0 {
        assert((words(a) + done).push(word) =~= words(a) + done.push(word));
    }
    if (forall|i: int| 0 <= i < a.len() ==> !is_white(#[trigger] a[i])) && a.len() > 0 {
        lemma_one_word(a);
        assert(Seq::<Seq<char>>::empty().push(a) =~= seq![a]);
    }
}

proof fn lemma_words_join(a: Seq<char>, b: Seq<char>)
    requires
        split_words(a).1.len() == 0,
    ensures
        split_words(a + b).0 == split_words(a).0 + split_words(b).0,
        split_words(a + b).1 == split_words(b).1,
    decreases b.len(),
{
    if b.len() == 0 {
        assert(a + b =~= a);
        assert(split_words(a).0 + split_words(b).0 =~= split_words(a).0);
        assert(split_words(a).1 =~= Seq::<char>::empty());
    } else {
        lemma_words_join(a, b.drop_last());
        assert((a + b).drop_last() =~= a + b.drop_last());
        assert((a + b).last() == b.last());
        let (done, word) = split_words(b.drop_last());
        assert((split_words(a).0 + done).push(word) =~= split_words(a).0 + done.push(word));
    }
}

proof fn lemma_one_word(a: Seq<char>)
    requires
        forall|i: int| 0 <= i < a.len() ==> !is_white(#[trigger] a[i]),
    ensures
        split_words(a).0 == Seq::<Seq<char>>::empty(),
        split_words(a).1 == a,
    decreases a.len(),
{
    if a.len() > 0 {
        lemma_one_word(a.drop_last());
        assert(!is_white(a[a.len() - 1]));
        assert(a.drop_last().push(a.last()) =~= a);
    }
}

/// A text is trimmed at both ends and nowhere else: what is left neither starts nor ends with white
/// space, and nothing but white space is gone.
pub proof fn law_trimmed_at_both_ends(s: Seq<char>)
    ensures
        trimmed(s).len() > 0 ==> !is_white(trimmed(s)[0]) && !is_white(trimmed(s).last()),
        exists|i: int, j: int|
            0 <= i <= j <= s.len() && trimmed(s) == #[trigger] s.subrange(i, j) && (forall|k: int|
                (0 <= k < i || j <= k < s.len()) ==> is_white(#[trigger] s[k])),
{
    let t = trimmed_start(s);
    lemma_start_trimmed(s);
    lemma_end_trimmed(t);
    let i = s.len() - t.len();
    let j = i + trimmed(s).len();
    assert(trimmed(s) =~= s.subrange(i, j));
    assert forall|k: int| (0 <= k < i || j <= k < s.len()) implies is_white(#[trigger] s[k]) by {
        if k >= j {
            assert(s[k] == t[k - i]);
        }
    }
    if trimmed(s).len() > 0 {
        assert(trimmed(s)[0] == t[0]);
    }
}

proof fn lemma_start_trimmed(s: Seq<char>)
    ensures
        trimmed_start(s).len() <= s.len(),
        trimmed_start(s) == s.skip(s.len() - trimmed_start(s).len()),
        trimmed_start(s).len() > 0 ==> !is_white(trimmed_start(s)[0]),
        forall|k: int| 0 <= k < s.len() - trimmed_start(s).len() ==> is_white(#[trigger] s[k]),
    decreases s.len(),
{
    if s.len() > 0 && is_white(s[0]) {
        let rest = s.drop_first();
        lemma_start_trimmed(rest);
        let n = rest.len() - trimmed_start(s).len();
        assert(rest.skip(n) =~= s.skip(n + 1));
        assert forall|k: int| 0 <= k < s.len() - trimmed_start(s).len() implies is_white(
            #[trigger] s[k],
        ) by {
            if k > 0 {
                assert(rest[k - 1] == s[k]);
            }
        }
    } else {
        assert(s.skip(0) =~= s);
    }
}

proof fn lemma_end_trimmed(s: Seq<char>)
    ensures
        trimmed_end(s).len() <= s.len(),
        trimmed_end(s) == s.take(trimmed_end(s).len() as int),
        trimmed_end(s).len() > 0 ==> !is_white(trimmed_end(s).last()),
        forall|k: int| trimmed_end(s).len() <= k < s.len() ==> is_white(#[trigger] s[k]),
    decreases s.len(),
{
    if s.len() > 0 && is_white(s.last()) {
        let rest = s.drop_last();
        lemma_end_trimmed(rest);
        let n = trimmed_end(s).len() as int;
        assert(rest.take(n) =~= s.take(n));
        assert forall|k: int| n <= k < s.len() implies is_white(#[trigger] s[k]) by {
            if k < rest.len() {
                assert(rest[k] == s[k]);
            }
        }
    } else {
        assert(s.take(s.len() as int) =~= s);
    }
}

/// Texts are ordered by the first byte in which they differ; a beginning comes before what it
/// begins.
pub proof fn law_first_difference_decides(common: Seq<u8>, a: Seq<u8>, b: Seq<u8>)
    ensures
        bytes_less(common + a, common + b) == bytes_less(a, b),
        a.len() > 0 && b.len() > 0 && a[0] < b[0] ==> bytes_less(a, b),
        a.len() == 0 && b.len() > 0 ==> bytes_less(a, b),
    decreases common.len(),
{
    if common.len() == 0 {
        assert(common + a =~= a);
        assert(common + b =~= b);
    } else {
        law_first_difference_decides(common.drop_first(), a, b);
        assert((common + a).drop_first() =~= common.drop_first() + a);
        assert((common + b).drop_first() =~= common.drop_first() + b);
    }
}

} // verus!
