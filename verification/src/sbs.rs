//! Positions as lines of the BaseStation format.

use crate::coordinates::GeodeticPoint;
use crate::fixed::{fixed6, format_fixed6, last_digits, millionths, MILLION};
use crate::scalar::{Scalar, SIGN};
use crate::text::{
    ascii_upper, decimal, decimal_value, fields, law_decimals_are_read_back, law_separators_part,
    lemma_decimal_has_no_comma, lemma_fields_len, lemma_occurrences_add, occurrences, push_decimal,
    push_signed, push_text, signed_decimal, upper_text,
};
use crate::utc::{
    day_number, days_before, format_utc, is_date, is_usual, three_digits, time_of_day, two_digits,
    utc_text,
};
use vstd::prelude::*;

verus! {

/// A text in capital letters.
pub uninterp spec fn upper_case(s: Seq<char>) -> Seq<char>;

/// Every character is an ASCII one.
pub open spec fn is_plain(s: Seq<char>) -> bool {
    forall|i: int| 0 <= i < s.len() ==> (#[trigger] s[i]) as u32 <= 0x7f
}

/// `str::to_uppercase`: the text in capital letters, by the rules of Unicode. Of ASCII
/// characters these touch the letters alone.
#[verifier::external_body]
fn to_upper(s: &str) -> (r: String)
    ensures
        r@ == upper_case(s@),
        is_plain(s@) ==> r@ == upper_text(s@),
{
    s.to_uppercase()
}

/// A number that may be missing.
pub open spec fn optional(n: Option<i32>) -> Seq<char> {
    match n {
        Some(n) => signed_decimal(n as int),
        None => Seq::empty(),
    }
}

/// Appends a number that may be missing.
pub(crate) fn push_optional(s: &mut String, n: Option<i32>)
    ensures
        final(s)@ == old(s)@ + optional(n),
{
    match n {
        Some(n) => push_signed(s, n),
        None => {
            assert(s@ =~= old(s)@ + optional(n));
        },
    }
}

/// The date and the time of day, twice: of the position and of the record.
pub open spec fn moments(date: Seq<char>, time: Seq<char>) -> Seq<char> {
    date + ","@ + time + ","@ + date + ","@ + time
}

/// Appends the date and the time of day, twice.
pub(crate) fn push_moments(s: &mut String, date: &str, time: &str)
    ensures
        final(s)@ == old(s)@ + moments(date@, time@),
{
    push_text(s, date);
    push_text(s, ",");
    push_text(s, time);
    push_text(s, ",");
    push_text(s, date);
    push_text(s, ",");
    push_text(s, time);
    assert(s@ =~= old(s)@ + moments(date@, time@));
}

/// The record of a position. Speed, heading, vertical rate, squawk and the flags are empty.
pub open spec fn sbs_text(
    hex: Seq<char>,
    date: Seq<char>,
    time: Seq<char>,
    callsign: Option<Seq<char>>,
    alt_ft: Option<i32>,
    geo: GeodeticPoint,
    num_receivers: usize,
) -> Seq<char> {
    "MSG,3,1,1,"@ + hex + ",1,"@ + moments(date, time) + ","@ + (match callsign {
        Some(c) => c,
        None => Seq::empty(),
    }) + ","@ + optional(alt_ft) + ",,,"@ + fixed6(geo.lat) + ","@ + fixed6(geo.lon)
        + ",,,"@ + (if num_receivers > 0 {
        decimal(num_receivers as nat)
    } else {
        Seq::empty()
    }) + ",,,\n"@
}

/// The text is the record of a position at a moment.
pub open spec fn is_record(
    text: Seq<char>,
    hex: Seq<char>,
    secs: i64,
    nanos: u32,
    callsign: Option<Seq<char>>,
    alt_ft: Option<i32>,
    geo: GeodeticPoint,
    num_receivers: usize,
) -> bool {
    exists|date: Seq<char>| #[trigger]
        is_date(secs, date) && text == sbs_text(
            hex,
            date,
            time_of_day(secs, nanos),
            callsign,
            alt_ft,
            geo,
            num_receivers,
        )
}

/// What a text that may be missing holds.
pub open spec fn text_or_none(s: Option<&str>) -> Option<Seq<char>> {
    match s {
        Some(s) => Some(s@),
        None => None,
    }
}

/// The record of a position, of an address in capital letters and of texts for the date and the
/// time of day.
pub fn sbs_line(
    hex: &str,
    date: &str,
    time: &str,
    callsign: Option<&str>,
    alt_ft: Option<i32>,
    geo: &GeodeticPoint,
    num_receivers: usize,
) -> (r: String)
    ensures
        r@ == sbs_text(
            hex@,
            date@,
            time@,
            text_or_none(callsign),
            alt_ft,
            *geo,
            num_receivers,
        ),
{
    let mut s: String = String::new();
    push_text(&mut s, "MSG,3,1,1,");
    push_text(&mut s, hex);
    push_text(&mut s, ",1,");
    push_moments(&mut s, date, time);
    push_text(&mut s, ",");
    if let Some(c) = callsign {
        push_text(&mut s, c);
    }
    push_text(&mut s, ",");
    push_optional(&mut s, alt_ft);
    push_text(&mut s, ",,,");
    push_text(&mut s, format_fixed6(geo.lat).as_str());
    push_text(&mut s, ",");
    push_text(&mut s, format_fixed6(geo.lon).as_str());
    push_text(&mut s, ",,,");
    if num_receivers > 0 {
        push_decimal(&mut s, num_receivers as u64);
    }
    push_text(&mut s, ",,,\n");
    assert(s@ =~= sbs_text(
        hex@,
        date@,
        time@,
        text_or_none(callsign),
        alt_ft,
        *geo,
        num_receivers,
    ));
    s
}

/// The record of a position at a moment, in seconds and nanoseconds since the start of 1970;
/// none where the moment is out of range.
pub fn format_sbs_msg3(
    hex: &str,
    geo: &GeodeticPoint,
    callsign: Option<&str>,
    alt_ft: Option<i32>,
    num_receivers: usize,
    secs: i64,
    nanos: u32,
) -> (r: Option<String>)
    ensures
        match (utc_text(secs, nanos, "%Y/%m/%d"@), utc_text(secs, nanos, "%H:%M:%S%.3f"@)) {
            (Some(date), Some(time)) => r matches Some(s) && s@ == sbs_text(
                upper_case(hex@),
                date,
                time,
                text_or_none(callsign),
                alt_ft,
                *geo,
                num_receivers,
            ),
            _ => r is None,
        },
        is_usual(secs, nanos) ==> r is Some,
        r matches Some(s) ==> is_usual(secs, nanos) ==> is_record(
            s@,
            upper_case(hex@),
            secs,
            nanos,
            text_or_none(callsign),
            alt_ft,
            *geo,
            num_receivers,
        ),
        r matches Some(s) ==> is_usual(secs, nanos) && is_plain(hex@) ==> is_record(
            s@,
            upper_text(hex@),
            secs,
            nanos,
            text_or_none(callsign),
            alt_ft,
            *geo,
            num_receivers,
        ),
        r matches Some(s) ==> is_usual(secs, nanos) && is_plain(hex@) && is_field(hex@) && (
        callsign matches Some(c) ==> is_field(c@)) ==> fields(s@, ',').len() == 22 && s@.last()
            == '\n',
{
    let date: String = match format_utc(secs, nanos, "%Y/%m/%d") {
        Some(d) => d,
        None => return None,
    };
    let time: String = match format_utc(secs, nanos, "%H:%M:%S%.3f") {
        Some(t) => t,
        None => return None,
    };
    let upper: String = to_upper(hex);
    proof {
        if is_usual(secs, nanos) {
            lemma_moment_is_field(secs, nanos, date@);
            if is_plain(hex@) && is_field(hex@) && (callsign matches Some(c) ==> is_field(c@)) {
                lemma_upper_is_field(hex@);
                law_record_has_22_fields(
                    upper@,
                    date@,
                    time@,
                    text_or_none(callsign),
                    alt_ft,
                    *geo,
                    num_receivers,
                );
            }
        }
    }
    Some(
        sbs_line(
            upper.as_str(),
            date.as_str(),
            time.as_str(),
            callsign,
            alt_ft,
            geo,
            num_receivers,
        ),
    )
}

/// A text without a comma.
pub open spec fn is_field(s: Seq<char>) -> bool {
    occurrences(s, ',') == 0
}

proof fn lemma_two_digits_are_field(n: int)
    ensures
        is_field(two_digits(n)),
        is_field(seq!['0'] + two_digits(n)),
{
    reveal_with_fuel(occurrences, 2);
    lemma_decimal_has_no_comma(n as nat);
    lemma_occurrences_add(seq!['0'], decimal(n as nat), ',');
    lemma_occurrences_add(seq!['0'], two_digits(n), ',');
}

/// The date and the time of day are one field each.
pub proof fn lemma_moment_is_field(secs: i64, nanos: u32, date: Seq<char>)
    requires
        is_date(secs, date),
    ensures
        is_field(date),
        is_field(time_of_day(secs, nanos)),
{
    let (year, month, day) = choose|year: int, month: int, day: int| #[trigger]
        day_number(year, month, day) == secs as int / 86_400 && 1970 <= year <= 9999 && 1 <= month
            <= 12 && 1 <= day <= days_before(year, month + 1) - days_before(year, month) && date
            == decimal(year as nat) + seq!['/'] + two_digits(month) + seq!['/'] + two_digits(day);
    reveal_with_fuel(occurrences, 2);
    let y = decimal(year as nat);
    lemma_decimal_has_no_comma(year as nat);
    lemma_two_digits_are_field(month);
    lemma_two_digits_are_field(day);
    lemma_occurrences_add(y, seq!['/'], ',');
    lemma_occurrences_add(y + seq!['/'], two_digits(month), ',');
    let m = y + seq!['/'] + two_digits(month);
    lemma_occurrences_add(m, seq!['/'], ',');
    lemma_occurrences_add(m + seq!['/'], two_digits(day), ',');
    let s = secs as int % 86_400;
    let thousandths = nanos as int / 1_000_000;
    lemma_two_digits_are_field(s / 3600);
    lemma_two_digits_are_field(s / 60 % 60);
    lemma_two_digits_are_field(s % 60);
    lemma_two_digits_are_field(thousandths);
    lemma_decimal_has_no_comma(thousandths as nat);
    let hours = two_digits(s / 3600);
    lemma_occurrences_add(hours, seq![':'], ',');
    lemma_occurrences_add(hours + seq![':'], two_digits(s / 60 % 60), ',');
    let minutes = hours + seq![':'] + two_digits(s / 60 % 60);
    lemma_occurrences_add(minutes, seq![':'], ',');
    lemma_occurrences_add(minutes + seq![':'], two_digits(s % 60), ',');
    let seconds = minutes + seq![':'] + two_digits(s % 60);
    lemma_occurrences_add(seconds, seq!['.'], ',');
    lemma_occurrences_add(seconds + seq!['.'], three_digits(thousandths), ',');
}

/// Capital letters add no comma.
proof fn lemma_upper_is_field(s: Seq<char>)
    requires
        is_field(s),
    ensures
        is_field(upper_text(s)),
    decreases s.len(),
{
    if s.len() > 0 {
        let u = upper_text(s);
        lemma_upper_is_field(s.drop_last());
        assert(u.drop_last() =~= upper_text(s.drop_last()));
        assert(u.last() == ascii_upper(s.last()));
    }
}

/// A number that may be missing is one field.
pub proof fn lemma_optional_is_field(n: Option<i32>)
    ensures
        is_field(optional(n)),
{
    match n {
        Some(n) => {
            if n < 0 {
                lemma_decimal_has_no_comma((-(n as int)) as nat);
                lemma_occurrences_add(seq!['-'], decimal((-(n as int)) as nat), ',');
                reveal_with_fuel(occurrences, 2);
            } else {
                lemma_decimal_has_no_comma(n as nat);
            }
        },
        None => {},
    }
}

/// A number with six decimals is one field.
pub proof fn lemma_fixed6_is_field(x: Scalar)
    ensures
        is_field(fixed6(x)),
{
    reveal_strlit("NaN");
    reveal_strlit("inf");
    reveal_strlit("-");
    reveal_strlit("");
    reveal_strlit(".");
    reveal_with_fuel(occurrences, 4);
    let sign = if x.bits >= SIGN {
        "-"@
    } else {
        ""@
    };
    lemma_occurrences_add(sign, "inf"@, ',');
    let q = millionths(x) as nat;
    let whole = decimal(q / MILLION as nat);
    let parts = last_digits(q % MILLION as nat, 6);
    lemma_decimal_has_no_comma(q / MILLION as nat);
    lemma_digits_have_no_comma(q % MILLION as nat, 6);
    lemma_occurrences_add(sign, whole, ',');
    lemma_occurrences_add(sign + whole, "."@, ',');
    lemma_occurrences_add(sign + whole + "."@, parts, ',');
}

proof fn lemma_digits_have_no_comma(n: nat, width: nat)
    ensures
        occurrences(last_digits(n, width), ',') == 0,
    decreases width,
{
    if width > 0 {
        lemma_digits_have_no_comma(n / 10, (width - 1) as nat);
        let d = last_digits(n, width);
        assert(d.drop_last() =~= last_digits(n / 10, (width - 1) as nat));
        assert(d.last() as u32 == n % 10 + 0x30);
    }
}

/// The commas in the fixed parts of a record.
pub proof fn lemma_commas()
    ensures
        occurrences("MSG,3,1,1,"@, ',') == 4,
        occurrences(",1,"@, ',') == 2,
        occurrences(","@, ',') == 1,
        occurrences(",,"@, ',') == 2,
        occurrences(",,,"@, ',') == 3,
        occurrences(",,,\n"@, ',') == 3,
        occurrences(",,,0\r\n"@, ',') == 3,
{
    reveal_strlit("MSG,3,1,1,");
    reveal_strlit(",1,");
    reveal_strlit(",");
    reveal_strlit(",,");
    reveal_strlit(",,,");
    reveal_strlit(",,,\n");
    reveal_strlit(",,,0\r\n");
    reveal_with_fuel(occurrences, 11);
}

/// The dates and times of day are four fields.
pub proof fn lemma_moments(date: Seq<char>, time: Seq<char>)
    requires
        is_field(date),
        is_field(time),
    ensures
        occurrences(moments(date, time), ',') == 3,
{
    lemma_commas();
    let a = date + ","@;
    let b = a + time;
    let c = b + ","@;
    let d = c + date;
    let e = d + ","@;
    lemma_occurrences_add(date, ","@, ',');
    lemma_occurrences_add(a, time, ',');
    lemma_occurrences_add(b, ","@, ',');
    lemma_occurrences_add(c, date, ',');
    lemma_occurrences_add(d, ","@, ',');
    lemma_occurrences_add(e, time, ',');
}

/// A record has 22 fields, and ends in a line feed, where no text in it holds a comma.
pub proof fn law_record_has_22_fields(
    hex: Seq<char>,
    date: Seq<char>,
    time: Seq<char>,
    callsign: Option<Seq<char>>,
    alt_ft: Option<i32>,
    geo: GeodeticPoint,
    num_receivers: usize,
)
    requires
        is_field(hex),
        is_field(date),
        is_field(time),
        callsign matches Some(c) ==> is_field(c),
    ensures
        fields(sbs_text(hex, date, time, callsign, alt_ft, geo, num_receivers), ',').len() == 22,
        sbs_text(hex, date, time, callsign, alt_ft, geo, num_receivers).last() == '\n',
{
    lemma_commas();
    lemma_moments(date, time);
    lemma_optional_is_field(alt_ft);
    lemma_decimal_has_no_comma(num_receivers as nat);
    lemma_fixed6_is_field(geo.lat);
    lemma_fixed6_is_field(geo.lon);
    let lat = fixed6(geo.lat);
    let lon = fixed6(geo.lon);
    let sign = match callsign {
        Some(c) => c,
        None => Seq::empty(),
    };
    let count = if num_receivers > 0 {
        decimal(num_receivers as nat)
    } else {
        Seq::empty()
    };
    let a = "MSG,3,1,1,"@ + hex;
    let b = a + ",1,"@;
    let c = b + moments(date, time);
    let d = c + ","@;
    let e = d + sign;
    let f = e + ","@;
    let g = f + optional(alt_ft);
    let h = g + ",,,"@;
    let i = h + lat;
    let j = i + ","@;
    let k = j + lon;
    let l = k + ",,,"@;
    let m = l + count;
    let n = m + ",,,\n"@;
    lemma_occurrences_add("MSG,3,1,1,"@, hex, ',');
    lemma_occurrences_add(a, ",1,"@, ',');
    lemma_occurrences_add(b, moments(date, time), ',');
    lemma_occurrences_add(c, ","@, ',');
    lemma_occurrences_add(d, sign, ',');
    lemma_occurrences_add(e, ","@, ',');
    lemma_occurrences_add(f, optional(alt_ft), ',');
    lemma_occurrences_add(g, ",,,"@, ',');
    lemma_occurrences_add(h, lat, ',');
    lemma_occurrences_add(i, ","@, ',');
    lemma_occurrences_add(j, lon, ',');
    lemma_occurrences_add(k, ",,,"@, ',');
    lemma_occurrences_add(l, count, ',');
    lemma_occurrences_add(m, ",,,\n"@, ',');
    lemma_fields_len(n, ',');
    reveal_strlit(",,,\n");
}

/// A text without a comma is one field.
pub proof fn lemma_one_field_alone(s: Seq<char>)
    requires
        is_field(s),
    ensures
        fields(s, ',') == seq![s],
    decreases s.len(),
{
    if s.len() > 0 {
        lemma_one_field_alone(s.drop_last());
        assert(s.drop_last().push(s.last()) =~= s);
        assert(fields(s, ',') =~= seq![s]);
    } else {
        assert(s =~= Seq::<char>::empty());
    }
}

/// A comma and a text without one add a field.
pub proof fn lemma_next_field(a: Seq<char>, s: Seq<char>)
    requires
        is_field(s),
    ensures
        fields(a + ","@ + s, ',') == fields(a, ',').push(s),
{
    reveal_strlit(",");
    law_separators_part(a, s, ',');
    lemma_one_field_alone(s);
    assert(a + ","@ + s =~= a.push(',') + s);
    assert(fields(a, ',') + seq![s] =~= fields(a, ',').push(s));
}

/// The texts that stand alone in a record hold no comma.
pub proof fn lemma_plain_fields()
    ensures
        is_field("MSG"@),
        is_field("3"@),
        is_field("1"@),
        is_field(Seq::<char>::empty()),
        is_field("\n"@),
        is_field("0\r\n"@),
{
    reveal_strlit("MSG");
    reveal_strlit("3");
    reveal_strlit("1");
    reveal_strlit("\n");
    reveal_strlit("0\r\n");
    reveal_with_fuel(occurrences, 4);
}

/// The text is a number in base 10 with a minus sign where it is negative, or empty where there
/// is no number.
pub open spec fn reads_as(s: Seq<char>, n: Option<i32>) -> bool {
    match n {
        Some(n) => if n < 0 {
            s.len() > 1 && s[0] == '-' && decimal_value(s.skip(1)) == -(n as int)
        } else {
            s.len() > 0 && s[0] != '-' && decimal_value(s) == n
        },
        None => s.len() == 0,
    }
}

pub proof fn lemma_optional_reads(n: Option<i32>)
    ensures
        reads_as(optional(n), n),
{
    match n {
        Some(v) => {
            if v < 0 {
                let m = (-(v as int)) as nat;
                law_decimals_are_read_back(m);
                assert((seq!['-'] + decimal(m)).skip(1) =~= decimal(m));
            } else {
                law_decimals_are_read_back(v as nat);
                assert('0' <= decimal(v as nat)[0]);
            }
        },
        None => {},
    }
}

/// What the fields of a record hold: the address is the fifth, the date and the time of day
/// follow twice, then the call sign, the altitude, the position and the number of receivers
/// where there are any; the other fields of a position are empty.
#[verifier::rlimit(60)]
pub proof fn law_record_is_read_back(
    hex: Seq<char>,
    date: Seq<char>,
    time: Seq<char>,
    callsign: Option<Seq<char>>,
    alt_ft: Option<i32>,
    geo: GeodeticPoint,
    num_receivers: usize,
)
    requires
        is_field(hex),
        is_field(date),
        is_field(time),
        callsign matches Some(c) ==> is_field(c),
    ensures
        ({
            let f = fields(
                sbs_text(hex, date, time, callsign, alt_ft, geo, num_receivers),
                ',',
            );
            &&& f.len() == 22
            &&& f[0] == "MSG"@ && f[1] == "3"@ && f[2] == "1"@ && f[3] == "1"@ && f[5] == "1"@
            &&& f[4] == hex
            &&& f[6] == date && f[7] == time && f[8] == date && f[9] == time
            &&& callsign matches Some(c) ==> f[10] == c
            &&& callsign is None ==> f[10].len() == 0
            &&& reads_as(f[11], alt_ft)
            &&& f[14] == fixed6(geo.lat)
            &&& f[15] == fixed6(geo.lon)
            &&& num_receivers > 0 ==> decimal_value(f[18]) == num_receivers
            &&& num_receivers == 0 ==> f[18].len() == 0
            &&& f[12].len() == 0 && f[13].len() == 0 && f[16].len() == 0 && f[17].len() == 0
            &&& f[19].len() == 0 && f[20].len() == 0
            &&& f[21] == "\n"@
        }),
{
    reveal_strlit("MSG");
    reveal_strlit("MSG,3,1,1,");
    reveal_strlit("3");
    reveal_strlit("1");
    reveal_strlit(",1,");
    reveal_strlit(",");
    reveal_strlit(",,");
    reveal_strlit(",,,");
    reveal_strlit(",,,\n");
    reveal_strlit("\n");
    lemma_plain_fields();
    lemma_optional_is_field(alt_ft);
    lemma_optional_reads(alt_ft);
    lemma_decimal_has_no_comma(num_receivers as nat);
    law_decimals_are_read_back(num_receivers as nat);
    lemma_fixed6_is_field(geo.lat);
    lemma_fixed6_is_field(geo.lon);
    let lat = fixed6(geo.lat);
    let lon = fixed6(geo.lon);
    let sign = match callsign {
        Some(c) => c,
        None => Seq::empty(),
    };
    let count = if num_receivers > 0 {
        decimal(num_receivers as nat)
    } else {
        Seq::empty()
    };
    let t0 = "MSG"@;
    lemma_one_field_alone(t0);
    let t1 = t0 + ","@ + "3"@;
    lemma_next_field(t0, "3"@);
    let t2 = t1 + ","@ + "1"@;
    lemma_next_field(t1, "1"@);
    let t3 = t2 + ","@ + "1"@;
    lemma_next_field(t2, "1"@);
    let a = "MSG,3,1,1,"@ + hex;
    assert("MSG,3,1,1,"@ =~= t3 + ","@);
    let t4 = t3 + ","@ + hex;
    lemma_next_field(t3, hex);
    assert(t4 =~= a);
    let t5 = t4 + ","@ + "1"@;
    lemma_next_field(t4, "1"@);
    let b = a + ",1,"@;
    assert(b =~= t5 + ","@);
    let t6 = t5 + ","@ + date;
    lemma_next_field(t5, date);
    let t7 = t6 + ","@ + time;
    lemma_next_field(t6, time);
    let t8 = t7 + ","@ + date;
    lemma_next_field(t7, date);
    let t9 = t8 + ","@ + time;
    lemma_next_field(t8, time);
    let c = b + moments(date, time);
    assert(c =~= t9);
    let t10 = t9 + ","@ + sign;
    lemma_next_field(t9, sign);
    let d = c + ","@ + sign;
    assert(d =~= t10);
    let t11 = t10 + ","@ + optional(alt_ft);
    lemma_next_field(t10, optional(alt_ft));
    let e = d + ","@ + optional(alt_ft);
    assert(e =~= t11);
    let t12 = t11 + ","@ + Seq::<char>::empty();
    lemma_next_field(t11, Seq::<char>::empty());
    let t13 = t12 + ","@ + Seq::<char>::empty();
    lemma_next_field(t12, Seq::<char>::empty());
    let f = e + ",,,"@;
    assert(f =~= t13 + ","@);
    let t14 = t13 + ","@ + lat;
    lemma_next_field(t13, lat);
    let t15 = t14 + ","@ + lon;
    lemma_next_field(t14, lon);
    let g = f + lat + ","@ + lon;
    assert(g =~= t15);
    let t16 = t15 + ","@ + Seq::<char>::empty();
    lemma_next_field(t15, Seq::<char>::empty());
    let t17 = t16 + ","@ + Seq::<char>::empty();
    lemma_next_field(t16, Seq::<char>::empty());
    let h = g + ",,,"@;
    assert(h =~= t17 + ","@);
    let t18 = t17 + ","@ + count;
    lemma_next_field(t17, count);
    let i = h + count;
    assert(i =~= t18);
    let t19 = t18 + ","@ + Seq::<char>::empty();
    lemma_next_field(t18, Seq::<char>::empty());
    let t20 = t19 + ","@ + Seq::<char>::empty();
    lemma_next_field(t19, Seq::<char>::empty());
    let t21 = t20 + ","@ + "\n"@;
    lemma_next_field(t20, "\n"@);
    assert(i + ",,,\n"@ =~= t21);
    assert(t21 == sbs_text(hex, date, time, callsign, alt_ft, geo, num_receivers));
}

} // verus!
