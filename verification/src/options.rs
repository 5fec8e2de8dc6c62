//! How the server is started, and how a connection starts.

use crate::text::{
    begins, char_lists, chars_begin, chars_of, is_white, law_white_space_parts_words, push_text,
    string_of, text_eq, words, words_of,
};
use vstd::prelude::*;

verus! {

/// Where the server listens and writes.
#[derive(Debug)]
pub struct Options {
    /// Where receivers connect.
    pub client_listen: String,
    /// Where positions are offered.
    pub sbs_listen: String,
    /// Where the files of the status are written.
    pub work_dir: String,
}

/// What options hold.
#[verifier::ext_equal]
pub struct OptionsView {
    pub client_listen: Seq<char>,
    pub sbs_listen: Seq<char>,
    pub work_dir: Seq<char>,
}

impl Options {
    /// What the options hold.
    pub open spec fn view(&self) -> OptionsView {
        OptionsView {
            client_listen: self.client_listen@,
            sbs_listen: self.sbs_listen@,
            work_dir: self.work_dir@,
        }
    }
}

/// What was set from outside, where it was, else what holds without that.
pub open spec fn set_or(set: Option<String>, default: Seq<char>) -> Seq<char> {
    match set {
        Some(s) => s@,
        None => default,
    }
}

/// An address to listen on; a port alone gets a host.
pub open spec fn with_host(s: Seq<char>, host: Seq<char>) -> Seq<char> {
    if s.contains(':') {
        s
    } else {
        host + s
    }
}

/// The options once the arguments from `i` on were read. An option stands before its value;
/// whatever else stands there is passed over.
pub open spec fn options_from(args: Seq<Seq<char>>, i: int, o: OptionsView) -> OptionsView
    decreases args.len() - i,
{
    if i < 0 || i >= args.len() {
        o
    } else if i + 1 < args.len() && args[i] == "--client-listen"@ {
        options_from(
            args,
            i + 2,
            OptionsView { client_listen: with_host(args[i + 1], "0.0.0.0:"@), ..o },
        )
    } else if i + 1 < args.len() && args[i] == "--basestation-listen"@ {
        options_from(
            args,
            i + 2,
            OptionsView { sbs_listen: with_host(args[i + 1], "127.0.0.1:"@), ..o },
        )
    } else if i + 1 < args.len() && args[i] == "--work-dir"@ {
        options_from(args, i + 2, OptionsView { work_dir: args[i + 1], ..o })
    } else {
        options_from(args, i + 1, o)
    }
}

/// The contents of texts.
pub open spec fn arg_texts(args: Seq<String>) -> Seq<Seq<char>> {
    args.map_values(|a: String| a@)
}

/// What was set from outside, where it was.
fn or_default(set: Option<String>, default: &str) -> (r: String)
    ensures
        r@ == set_or(set, default@),
{
    match set {
        Some(s) => s,
        None => default.to_owned(),
    }
}

/// An address to listen on; a port alone gets a host.
fn listen_on(s: &String, host: &str) -> (r: String)
    ensures
        r@ == with_host(s@, host@),
{
    let chars: Vec<char> = chars_of(s.as_str());
    let mut i: usize = 0;
    while i < chars.len()
        invariant
            i <= chars@.len(),
            chars@ == s@,
            forall|j: int| 0 <= j < i ==> chars@[j] != ':',
        decreases chars@.len() - i,
    {
        if chars[i] == ':' {
            assert(s@.contains(':'));
            return s.clone();
        }
        i += 1;
    }
    assert(!s@.contains(':'));
    let mut r: String = host.to_owned();
    push_text(&mut r, s.as_str());
    r
}

/// The options that the arguments of the program give; the environment comes before what
/// holds without any, and the arguments before the environment.
pub fn parse_args(
    args: &Vec<String>,
    env_client: Option<String>,
    env_sbs: Option<String>,
    env_dir: Option<String>,
) -> (r: Options)
    ensures
        r@ == options_from(
            arg_texts(args@),
            1,
            (OptionsView {
                client_listen: set_or(env_client, "0.0.0.0:41113"@),
                sbs_listen: set_or(env_sbs, "127.0.0.1:32007"@),
                work_dir: set_or(env_dir, "/var/lib/mlat-server"@),
            }),
        ),
        args@.len() <= 1 ==> r.client_listen@ == (match env_client {
            Some(s) => s@,
            None => "0.0.0.0:41113"@,
        }) && r.sbs_listen@ == (match env_sbs {
            Some(s) => s@,
            None => "127.0.0.1:32007"@,
        }) && r.work_dir@ == (match env_dir {
            Some(s) => s@,
            None => "/var/lib/mlat-server"@,
        }),
{
    let mut o: Options = Options {
        client_listen: or_default(env_client, "0.0.0.0:41113"),
        sbs_listen: or_default(env_sbs, "127.0.0.1:32007"),
        work_dir: or_default(env_dir, "/var/lib/mlat-server"),
    };
    let ghost all = arg_texts(args@);
    let ghost whole = options_from(all, 1, o@);
    let n: usize = args.len();
    let mut i: usize = 1;
    while i < n
        invariant
            1 <= i,
            i <= n || n == 0,
            n == args@.len(),
            all == arg_texts(args@),
            whole == options_from(all, i as int, o@),
        decreases n - i,
    {
        let name: &str = args[i].as_str();
        assert(all[i as int] == name@);
        if n - i >= 2 {
            assert(all[i + 1] == args@[i + 1]@);
            if text_eq(name, "--client-listen") {
                o.client_listen = listen_on(&args[i + 1], "0.0.0.0:");
                i += 2;
                continue;
            }
            if text_eq(name, "--basestation-listen") {
                o.sbs_listen = listen_on(&args[i + 1], "127.0.0.1:");
                i += 2;
                continue;
            }
            if text_eq(name, "--work-dir") {
                o.work_dir = args[i + 1].clone();
                i += 2;
                continue;
            }
        }
        i += 1;
    }
    o
}

/// The first line of a connection that a proxy has passed on.
pub open spec fn is_proxy_line(line: Seq<char>) -> bool {
    begins(line, "PROXY "@)
}

/// The address that a proxy names as the source, which is the third word.
pub open spec fn proxy_source(line: Seq<char>) -> Option<Seq<char>> {
    let w = words(line);
    if is_proxy_line(line) && w.len() >= 3 {
        Some(w[2])
    } else {
        None
    }
}

/// Whether a line comes from a proxy, and the source that it names.
pub fn read_proxy_line(line: &str) -> (r: (bool, Option<String>))
    ensures
        r.0 == is_proxy_line(line@),
        match r.1 {
            Some(s) => proxy_source(line@) == Some(s@),
            None => proxy_source(line@) is None,
        },
{
    if !chars_begin(chars_of(line).as_slice(), "PROXY ") {
        return (false, None);
    }
    let w: Vec<Vec<char>> = words_of(line);
    assert(w@.len() == char_lists(w@).len());
    if w.len() < 3 {
        return (true, None);
    }
    assert(w@[2]@ == char_lists(w@)[2]);
    (true, Some(string_of(w[2].as_slice())))
}

/// The length of the packet behind a header; a length of zero ends the stream.
pub fn packet_len(high: u8, low: u8) -> (r: Option<usize>)
    ensures
        r == (if high == 0 && low == 0 {
            None
        } else {
            Some((256 * high + low) as usize)
        }),
        r matches Some(n) ==> n > 0 && n / 256 == high && n % 256 == low,
{
    if high == 0 && low == 0 {
        None
    } else {
        Some(256 * high as usize + low as usize)
    }
}

/// An address to listen on always names a host.
pub proof fn law_address_has_host(s: Seq<char>)
    ensures
        with_host(s, "0.0.0.0:"@).contains(':'),
        with_host(s, "127.0.0.1:"@).contains(':'),
{
    reveal_strlit("0.0.0.0:");
    reveal_strlit("127.0.0.1:");
    if !s.contains(':') {
        assert(with_host(s, "0.0.0.0:"@)[7] == ':');
        assert(with_host(s, "127.0.0.1:"@)[9] == ':');
    }
}

/// An address with a host stays as it is; a port alone follows the host.
pub proof fn law_port_gets_a_host(s: Seq<char>, host: Seq<char>)
    ensures
        s.contains(':') ==> with_host(s, host) == s,
        !s.contains(':') ==> with_host(s, host).take(host.len() as int) == host && with_host(
            s,
            host,
        ).skip(host.len() as int) == s,
{
    assert((host + s).take(host.len() as int) =~= host);
    assert((host + s).skip(host.len() as int) =~= s);
}

/// What no argument names stays as it was set before.
pub proof fn law_unnamed_options_stay(args: Seq<Seq<char>>, i: int, o: OptionsView)
    requires
        0 <= i,
    ensures
        !args.contains("--client-listen"@) ==> options_from(args, i, o).client_listen
            == o.client_listen,
        !args.contains("--basestation-listen"@) ==> options_from(args, i, o).sbs_listen
            == o.sbs_listen,
        !args.contains("--work-dir"@) ==> options_from(args, i, o).work_dir == o.work_dir,
    decreases args.len() - i,
{
    if i < args.len() {
        assert(args.contains(args[i]));
        law_unnamed_options_stay(args, i + 1, o);
        if i + 1 < args.len() {
            law_unnamed_options_stay(
                args,
                i + 2,
                OptionsView { client_listen: with_host(args[i + 1], "0.0.0.0:"@), ..o },
            );
            law_unnamed_options_stay(
                args,
                i + 2,
                OptionsView { sbs_listen: with_host(args[i + 1], "127.0.0.1:"@), ..o },
            );
            law_unnamed_options_stay(args, i + 2, OptionsView { work_dir: args[i + 1], ..o });
        }
    }
}

/// From a place on, options and their values alternate.
pub open spec fn are_pairs(args: Seq<Seq<char>>, i: int) -> bool {
    &&& (args.len() - i) % 2 == 0
    &&& forall|j: int|
        i <= j < args.len() && (j - i) % 2 == 0 ==> #[trigger] args[j] == "--client-listen"@ || args[j]
            == "--basestation-listen"@ || args[j] == "--work-dir"@
}

/// An option that is given last counts, with its own value, and leaves the others.
pub proof fn law_last_option_counts(
    args: Seq<Seq<char>>,
    i: int,
    o: OptionsView,
    value: Seq<char>,
)
    requires
        0 <= i <= args.len(),
        are_pairs(args, i),
    ensures
        ({
            let before = options_from(args, i, o);
            &&& options_from(args.push("--client-listen"@).push(value), i, o) == (OptionsView {
                client_listen: with_host(value, "0.0.0.0:"@),
                ..before
            })
            &&& options_from(args.push("--basestation-listen"@).push(value), i, o) == (OptionsView {
                sbs_listen: with_host(value, "127.0.0.1:"@),
                ..before
            })
            &&& options_from(args.push("--work-dir"@).push(value), i, o) == (OptionsView {
                work_dir: value,
                ..before
            })
        }),
    decreases args.len() - i,
{
    lemma_option_names();
    if i < args.len() {
        assert(args[i] == "--client-listen"@ || args[i] == "--basestation-listen"@ || args[i]
            == "--work-dir"@);
        assert(i + 1 < args.len());
        assert forall|j: int|
            i + 2 <= j < args.len() && (j - (i + 2)) % 2 == 0 implies #[trigger] args[j]
            == "--client-listen"@ || args[j] == "--basestation-listen"@ || args[j]
            == "--work-dir"@ by {
            assert((j - i) % 2 == 0);
        }
        assert(are_pairs(args, i + 2));
        law_last_option_counts(
            args,
            i + 2,
            OptionsView { client_listen: with_host(args[i + 1], "0.0.0.0:"@), ..o },
            value,
        );
        law_last_option_counts(
            args,
            i + 2,
            OptionsView { sbs_listen: with_host(args[i + 1], "127.0.0.1:"@), ..o },
            value,
        );
        law_last_option_counts(
            args,
            i + 2,
            OptionsView { work_dir: args[i + 1], ..o },
            value,
        );
    } else {
        reveal_with_fuel(options_from, 2);
    }
}

proof fn lemma_option_names()
    ensures
        "--client-listen"@ != "--basestation-listen"@,
        "--client-listen"@ != "--work-dir"@,
        "--basestation-listen"@ != "--work-dir"@,
{
    reveal_strlit("--client-listen");
    reveal_strlit("--basestation-listen");
    reveal_strlit("--work-dir");
    assert("--client-listen"@.len() == 15);
    assert("--basestation-listen"@.len() == 20);
    assert("--work-dir"@.len() == 10);
}

/// A line of a proxy names the source as its third word, whatever stands behind it; a line that
/// does not begin as one of a proxy names none.
pub proof fn law_proxy_names_its_source(
    family: Seq<char>,
    source: Seq<char>,
    rest: Seq<char>,
    other: Seq<char>,
)
    requires
        family.len() > 0,
        source.len() > 0,
        forall|i: int| 0 <= i < family.len() ==> !is_white(#[trigger] family[i]),
        forall|i: int| 0 <= i < source.len() ==> !is_white(#[trigger] source[i]),
        other.len() < 6 || other.take(6) != "PROXY "@,
    ensures
        proxy_source("PROXY "@ + family + seq![' '] + source + seq![' '] + rest) == Some(source),
        proxy_source(other) is None,
        !is_proxy_line(other),
{
    reveal_strlit("PROXY ");
    let p = seq!['P', 'R', 'O', 'X', 'Y'];
    let tail = source.push(' ') + rest;
    let most = family.push(' ') + tail;
    let line = "PROXY "@ + family + seq![' '] + source + seq![' '] + rest;
    assert(line =~= p.push(' ') + most);
    law_white_space_parts_words(p, ' ', most);
    law_white_space_parts_words(family, ' ', tail);
    law_white_space_parts_words(source, ' ', rest);
    assert(words(line)[2] == source);
    assert(line.take(6) =~= "PROXY "@);
}

} // verus!
