//! The coordinator's start-up configuration: command-line flags, the
//! environment, and the comma-separated lists it reads.

use vstd::prelude::*;
use crate::path::{chars_equal, join, join_chars};
use crate::server::{strs, trimmed_entries};
use crate::text::{char_views, chars_of, decimal, digit_char, split_chars, split_on, string_of, trim_chars};

verus! {

/// The port used when none is given or the given one does not parse.
pub const DEFAULT_PORT: u16 = 8090;

/// The index of the first element of `s` equal to `x`, or -1.
pub open spec fn first_index(s: Seq<Seq<char>>, x: Seq<char>) -> int
    decreases s.len(),
{
    if s.len() == 0 {
        -1
    } else {
        let r = first_index(s.drop_last(), x);
        if r >= 0 {
            r
        } else if s.last() == x {
            s.len() - 1
        } else {
            -1
        }
    }
}

/// The argument right after the first `flag`, if `flag` occurs and is not last.
pub open spec fn flag_value(args: Seq<Seq<char>>, flag: Seq<char>) -> Option<Seq<char>> {
    let i = first_index(args, flag);
    if i >= 0 && i + 1 < args.len() {
        Some(args[i + 1])
    } else {
        None
    }
}

/// Whether `c` is an ASCII decimal digit.
pub open spec fn is_digit(c: char) -> bool {
    '0' <= c <= '9'
}

/// The value of the decimal digits `d`.
pub open spec fn digits_value(d: Seq<char>) -> nat
    decreases d.len(),
{
    if d.len() == 0 {
        0
    } else {
        digits_value(d.drop_last()) * 10 + ((d.last() as nat) - ('0' as nat)) as nat
    }
}

/// What `str::parse::<u16>` gives: an optional `+`, then one or more
/// decimal digits whose value fits in a `u16`.
pub open spec fn parse_u16_spec(s: Seq<char>) -> Option<u16> {
    let d = unsigned_digits(s);
    if d.len() > 0 && all_digits(d) && digits_value(d) <= u16::MAX {
        Some(digits_value(d) as u16)
    } else {
        None
    }
}

/// `s` without a leading `+`.
pub open spec fn unsigned_digits(s: Seq<char>) -> Seq<char> {
    if s.len() > 0 && s[0] == '+' {
        s.drop_first()
    } else {
        s
    }
}

/// Whether every character of `d` is a decimal digit.
pub open spec fn all_digits(d: Seq<char>) -> bool {
    forall|i: int| 0 <= i < d.len() ==> is_digit(#[trigger] d[i])
}

proof fn lemma_digits_value_grows(d: Seq<char>, k: int)
    requires
        0 <= k <= d.len(),
        forall|i: int| 0 <= i < d.len() ==> is_digit(#[trigger] d[i]),
    ensures
        digits_value(d.subrange(0, k)) <= digits_value(d),
    decreases d.len() - k,
{
    if k < d.len() {
        lemma_digits_value_grows(d, k + 1);
        assert(d.subrange(0, k + 1).drop_last() =~= d.subrange(0, k));
    } else {
        assert(d.subrange(0, k) =~= d);
    }
}

/// Parses a port number as `str::parse::<u16>` does.
pub fn parse_u16(s: &str) -> (r: Option<u16>)
    ensures
        r == parse_u16_spec(s@),
{
    let c = chars_of(s);
    let start: usize = if c.len() > 0 && c[0] == '+' { 1 } else { 0 };
    let ghost d = unsigned_digits(s@);
    assert(d =~= c@.subrange(start as int, c@.len() as int));
    if start >= c.len() {
        return None;
    }
    let mut acc: u32 = 0;
    let mut i: usize = start;
    while i < c.len()
        invariant
            start <= i <= c@.len(),
            c@ == s@,
            d == unsigned_digits(s@),
            d == c@.subrange(start as int, c@.len() as int),
            forall|k: int| start <= k < i ==> is_digit(#[trigger] c@[k]),
            acc == digits_value(c@.subrange(start as int, i as int)),
            acc <= u16::MAX,
        decreases c.len() - i,
    {
        let ch = c[i];
        if !('0' <= ch && ch <= '9') {
            assert(d[(i - start) as int] == c@[i as int]);
            assert(!is_digit(d[(i - start) as int]));
            return None;
        }
        let v = (ch as u32) - ('0' as u32);
        assert(c@.subrange(start as int, i + 1).drop_last() =~= c@.subrange(start as int, i as int));
        let next = acc * 10 + v;
        assert(digits_value(c@.subrange(start as int, i + 1)) == next);
        if next > 65535 {
            proof {
                if all_digits(d) {
                    lemma_digits_value_grows(d, (i + 1 - start) as int);
                    assert(d.subrange(0, (i + 1 - start) as int) =~= c@.subrange(start as int, i + 1));
                }
            }
            return None;
        }
        acc = next;
        i = i + 1;
    }
    assert(forall|k: int| 0 <= k < d.len() ==> is_digit(#[trigger] d[k])) by {
        assert forall|k: int| 0 <= k < d.len() implies is_digit(#[trigger] d[k]) by {
            assert(d[k] == c@[k + start]);
        }
    }
    assert(c@.subrange(start as int, c@.len() as int) == d);
    Some(acc as u16)
}

/// The entries of a comma-separated list: split at commas, trimmed,
/// without the empty ones.
pub open spec fn list_entries(s: Seq<char>) -> Seq<Seq<char>> {
    trimmed_entries(split_on(s, ','))
}

/// The entries of a comma-separated list, trimmed, without empty ones.
pub fn split_list(s: &str) -> (r: Vec<String>)
    ensures
        strs(r@) == list_entries(s@),
{
    let c = chars_of(s);
    let pieces = split_chars(&c, ',');
    let ghost all = char_views(pieces@);
    let mut r: Vec<String> = Vec::new();
    let mut k: usize = 0;
    assert(all.subrange(0, 0) =~= Seq::<Seq<char>>::empty());
    while k < pieces.len()
        invariant
            k <= pieces@.len(),
            all == char_views(pieces@),
            strs(r@) == trimmed_entries(all.subrange(0, k as int)),
        decreases pieces.len() - k,
    {
        let t = trim_chars(&pieces[k]);
        proof {
            assert(all.subrange(0, k + 1).drop_last() =~= all.subrange(0, k as int));
            assert(all.subrange(0, k + 1).last() == pieces@[k as int]@);
        }
        if t.len() > 0 {
            let ghost before = strs(r@);
            let ts = string_of(&t);
            r.push(ts);
            assert(strs(r@) =~= before.push(ts@));
        }
        k = k + 1;
    }
    assert(all.subrange(0, all.len() as int) =~= all);
    r
}

/// The start-up configuration.
#[derive(Debug)]
pub struct Config {
    pub workspace: String,
    pub blacklist: String,
    pub whitelist: String,
    pub port: u16,
    pub transport: String,
}

/// Whether two strings hold the same characters.
fn same(a: &str, b: &str) -> (r: bool)
    ensures
        r == (a@ == b@),
{
    let x = chars_of(a);
    let y = chars_of(b);
    chars_equal(&x, &y)
}

/// The argument right after the first `flag` in `args`.
pub fn find_flag_value(args: &Vec<String>, flag: &str) -> (r: Option<String>)
    ensures
        opt_str(r) == flag_value(strs(args@), flag@),
{
    let ghost a = strs(args@);
    let mut i: usize = 0;
    assert(a.subrange(0, 0) =~= Seq::<Seq<char>>::empty());
    while i < args.len()
        invariant
            i <= args@.len(),
            a == strs(args@),
            first_index(a.subrange(0, i as int), flag@) == -1,
        decreases args.len() - i,
    {
        assert(a.subrange(0, i + 1).drop_last() =~= a.subrange(0, i as int));
        if same(args[i].as_str(), flag) {
            proof {
                lemma_first_index_extends(a, i as int, flag@);
            }
            if i + 1 < args.len() {
                return Some(args[i + 1].clone());
            } else {
                return None;
            }
        }
        i = i + 1;
    }
    assert(a.subrange(0, a.len() as int) =~= a);
    None
}

proof fn lemma_first_index_extends(a: Seq<Seq<char>>, i: int, x: Seq<char>)
    requires
        0 <= i < a.len(),
        first_index(a.subrange(0, i), x) == -1,
        a[i] == x,
    ensures
        first_index(a, x) == i,
    decreases a.len(),
{
    if a.len() == i + 1 {
        assert(a.drop_last() =~= a.subrange(0, i));
    } else {
        assert(a.drop_last().subrange(0, i) =~= a.subrange(0, i));
        lemma_first_index_extends(a.drop_last(), i, x);
    }
}

/// The view of an optional string.
pub open spec fn opt_str(o: Option<String>) -> Option<Seq<char>> {
    match o {
        Some(s) => Some(s@),
        None => None,
    }
}

/// The configuration from the command line `args` and the environment
/// variables `ZEROCLAW_WORKSPACE`, `ZEROCLAW_BLACKLIST`, `ZEROCLAW_WHITELIST`
/// and `ZEROCLAW_PORT` (`None` when unset).
pub open spec fn config_spec(
    args: Seq<Seq<char>>,
    env_workspace: Option<Seq<char>>,
    env_blacklist: Option<Seq<char>>,
    env_whitelist: Option<Seq<char>>,
    env_port: Option<Seq<char>>,
) -> (Seq<char>, Seq<char>, Seq<char>, u16, Seq<char>) {
    let transport = match flag_value(args, "--transport"@) {
        Some(t) => t,
        None => "stdio"@,
    };
    let port: u16 = if first_index(args, "--port"@) >= 0 {
        match flag_value(args, "--port"@) {
            Some(p) => match parse_u16_spec(p) {
                Some(v) => v,
                None => DEFAULT_PORT,
            },
            None => DEFAULT_PORT,
        }
    } else {
        match env_port {
            Some(p) => match parse_u16_spec(p) {
                Some(v) => v,
                None => DEFAULT_PORT,
            },
            None => DEFAULT_PORT,
        }
    };
    let workspace = match env_workspace {
        Some(w) => w,
        None => "."@,
    };
    let blacklist = match env_blacklist {
        Some(b) => b,
        None => seq![],
    };
    let whitelist = match env_whitelist {
        Some(w) => w,
        None => seq![],
    };
    (workspace, blacklist, whitelist, port, transport)
}

fn or_default(o: Option<String>, d: &str) -> (r: String)
    ensures
        r@ == match o {
            Some(s) => s@,
            None => d@,
        },
{
    match o {
        Some(s) => s,
        None => d.to_owned(),
    }
}

fn or_empty(o: Option<String>) -> (r: String)
    ensures
        r@ == match o {
            Some(s) => s@,
            None => Seq::<char>::empty(),
        },
{
    match o {
        Some(s) => s,
        None => String::new(),
    }
}

fn port_or_default(p: Option<String>) -> (r: u16)
    ensures
        r == match opt_str(p) {
            Some(s) => match parse_u16_spec(s) {
                Some(v) => v,
                None => DEFAULT_PORT,
            },
            None => DEFAULT_PORT,
        },
{
    match p {
        Some(s) => match parse_u16(s.as_str()) {
            Some(v) => v,
            None => DEFAULT_PORT,
        },
        None => DEFAULT_PORT,
    }
}

/// Reads the configuration from the command line and the environment.
pub fn get_config(
    args: &Vec<String>,
    env_workspace: Option<String>,
    env_blacklist: Option<String>,
    env_whitelist: Option<String>,
    env_port: Option<String>,
) -> (c: Config)
    ensures
        (c.workspace@, c.blacklist@, c.whitelist@, c.port, c.transport@) == config_spec(
            strs(args@),
            opt_str(env_workspace),
            opt_str(env_blacklist),
            opt_str(env_whitelist),
            opt_str(env_port),
        ),
{
    let transport = or_default(find_flag_value(args, "--transport"), "stdio");
    let mut has_port = false;
    let mut i: usize = 0;
    let ghost a = strs(args@);
    assert(a.subrange(0, 0) =~= Seq::<Seq<char>>::empty());
    while i < args.len()
        invariant
            i <= args@.len(),
            a == strs(args@),
            has_port == (first_index(a.subrange(0, i as int), "--port"@) >= 0),
        decreases args.len() - i,
    {
        assert(a.subrange(0, i + 1).drop_last() =~= a.subrange(0, i as int));
        if same(args[i].as_str(), "--port") {
            has_port = true;
        }
        i = i + 1;
    }
    assert(a.subrange(0, a.len() as int) =~= a);
    let port = if has_port {
        port_or_default(find_flag_value(args, "--port"))
    } else {
        port_or_default(env_port)
    };
    Config {
        workspace: or_default(env_workspace, "."),
        blacklist: or_empty(env_blacklist),
        whitelist: or_empty(env_whitelist),
        port,
        transport,
    }
}

/// The history directory: `.zeroclaw/mcp-coordinator/history` under the home
/// directory, or `.zeroclaw_history` when `HOME` is unset.
pub fn history_dir_for(home: Option<String>) -> (r: String)
    ensures
        r@ == match home {
            Some(h) => join(h@, ".zeroclaw/mcp-coordinator/history"@),
            None => ".zeroclaw_history"@,
        },
{
    match home {
        Some(h) => {
            let hc = chars_of(h.as_str());
            let rest = chars_of(".zeroclaw/mcp-coordinator/history");
            let j = join_chars(&hc, &rest);
            string_of(&j)
        },
        None => ".zeroclaw_history".to_owned(),
    }
}

/// The ZeroClaw configuration file: `.zeroclaw/config.toml` under the home directory.
pub fn setup_config_path(home: &str) -> (r: String)
    ensures
        r@ == join(join(home@, ".zeroclaw"@), "config.toml"@),
{
    let hc = chars_of(home);
    let d = chars_of(".zeroclaw");
    let f = chars_of("config.toml");
    let dir = join_chars(&hc, &d);
    let j = join_chars(&dir, &f);
    string_of(&j)
}

proof fn lemma_first_index_none(s: Seq<Seq<char>>, x: Seq<char>)
    requires
        forall|j: int| 0 <= j < s.len() ==> s[j] != x,
    ensures
        first_index(s, x) == -1,
    decreases s.len(),
{
    if s.len() > 0 {
        lemma_first_index_none(s.drop_last(), x);
    }
}

/// The first occurrence of `x` in `s`, found at `i`.
proof fn lemma_first_index_at(s: Seq<Seq<char>>, x: Seq<char>, i: int)
    requires
        0 <= i < s.len(),
        s[i] == x,
        forall|j: int| 0 <= j < i ==> s[j] != x,
    ensures
        first_index(s, x) == i,
{
    lemma_first_index_none(s.subrange(0, i), x);
    lemma_first_index_extends(s, i, x);
}

/// `--port` followed by a port number sets the port, whatever the
/// environment says: with the first `--port` at `i` and a number after it,
/// the port is that number.
pub proof fn lemma_port_flag_wins(
    args: Seq<Seq<char>>,
    env_workspace: Option<Seq<char>>,
    env_blacklist: Option<Seq<char>>,
    env_whitelist: Option<Seq<char>>,
    env_port: Option<Seq<char>>,
    i: int,
    port: u16,
)
    requires
        0 <= i,
        i + 1 < args.len(),
        args[i] == "--port"@,
        forall|j: int| 0 <= j < i ==> args[j] != "--port"@,
        parse_u16_spec(args[i + 1]) == Some(port),
    ensures
        config_spec(args, env_workspace, env_blacklist, env_whitelist, env_port).3 == port,
{
    lemma_first_index_at(args, "--port"@, i);
}

/// `--port` with no number after it (it is last, or what follows does not
/// parse) gives the default port, whatever the environment says.
pub proof fn lemma_bad_port_flag_gives_default(
    args: Seq<Seq<char>>,
    env_workspace: Option<Seq<char>>,
    env_blacklist: Option<Seq<char>>,
    env_whitelist: Option<Seq<char>>,
    env_port: Option<Seq<char>>,
    i: int,
)
    requires
        0 <= i < args.len(),
        args[i] == "--port"@,
        forall|j: int| 0 <= j < i ==> args[j] != "--port"@,
        i + 1 == args.len() || parse_u16_spec(args[i + 1]) is None,
    ensures
        config_spec(args, env_workspace, env_blacklist, env_whitelist, env_port).3 == DEFAULT_PORT,
{
    lemma_first_index_at(args, "--port"@, i);
}

/// Without `--port` on the command line, `ZEROCLAW_PORT` sets the port when
/// it holds a number; otherwise the port is the default.
pub proof fn lemma_port_from_environment(
    args: Seq<Seq<char>>,
    env_workspace: Option<Seq<char>>,
    env_blacklist: Option<Seq<char>>,
    env_whitelist: Option<Seq<char>>,
    env_port: Option<Seq<char>>,
)
    requires
        forall|j: int| 0 <= j < args.len() ==> args[j] != "--port"@,
    ensures
        env_port is Some && parse_u16_spec(env_port->0) is Some ==> config_spec(
            args,
            env_workspace,
            env_blacklist,
            env_whitelist,
            env_port,
        ).3 == parse_u16_spec(env_port->0)->0,
        !(env_port is Some && parse_u16_spec(env_port->0) is Some) ==> config_spec(
            args,
            env_workspace,
            env_blacklist,
            env_whitelist,
            env_port,
        ).3 == DEFAULT_PORT,
{
    lemma_first_index_none(args, "--port"@);
}

/// The transport is the argument after the first `--transport`, and `stdio`
/// when there is none.
pub proof fn lemma_transport_choice(
    args: Seq<Seq<char>>,
    env_workspace: Option<Seq<char>>,
    env_blacklist: Option<Seq<char>>,
    env_whitelist: Option<Seq<char>>,
    env_port: Option<Seq<char>>,
    i: int,
)
    ensures
        0 <= i && i + 1 < args.len() && args[i] == "--transport"@ && (forall|j: int|
            0 <= j < i ==> args[j] != "--transport"@) ==> config_spec(
            args,
            env_workspace,
            env_blacklist,
            env_whitelist,
            env_port,
        ).4 == args[i + 1],
        (forall|j: int| 0 <= j < args.len() ==> args[j] != "--transport"@) ==> config_spec(
            args,
            env_workspace,
            env_blacklist,
            env_whitelist,
            env_port,
        ).4 == "stdio"@,
{
    if 0 <= i && i + 1 < args.len() && args[i] == "--transport"@ && (forall|j: int|
        0 <= j < i ==> args[j] != "--transport"@) {
        lemma_first_index_at(args, "--transport"@, i);
    }
    if forall|j: int| 0 <= j < args.len() ==> args[j] != "--transport"@ {
        lemma_first_index_none(args, "--transport"@);
    }
}

/// The workspace and the two lists come from the environment as given; an
/// unset workspace is `.` and unset lists are empty.
pub proof fn lemma_environment_values(
    args: Seq<Seq<char>>,
    env_workspace: Option<Seq<char>>,
    env_blacklist: Option<Seq<char>>,
    env_whitelist: Option<Seq<char>>,
    env_port: Option<Seq<char>>,
)
    ensures
        ({
            let c = config_spec(args, env_workspace, env_blacklist, env_whitelist, env_port);
            &&& c.0 == (match env_workspace { Some(w) => w, None => "."@ })
            &&& c.1 == (match env_blacklist { Some(b) => b, None => Seq::<char>::empty() })
            &&& c.2 == (match env_whitelist { Some(w) => w, None => Seq::<char>::empty() })
        }),
{
}

/// Port numbers read back: the decimal notation of a `u16`, with or without
/// a leading `+`, parses as that number, as `str::parse::<u16>` does.
pub proof fn lemma_port_numbers_parse(n: u16)
    ensures
        parse_u16_spec(decimal(n as nat)) == Some(n),
        parse_u16_spec(seq!['+'] + decimal(n as nat)) == Some(n),
{
    lemma_decimal_digits(n as nat);
    let d = decimal(n as nat);
    assert((seq!['+'] + d).drop_first() =~= d);
}

proof fn lemma_decimal_digits(n: nat)
    ensures
        all_digits(decimal(n)),
        decimal(n).len() > 0,
        digits_value(decimal(n)) == n,
    decreases n,
{
    if n >= 10 {
        lemma_decimal_digits(n / 10);
        let d = decimal(n / 10);
        let c = digit_char(n % 10);
        assert(decimal(n) == d.push(c));
        assert(d.push(c).drop_last() =~= d);
        assert(is_digit(c) && (c as nat) - ('0' as nat) == n % 10);
        assert(digits_value(d.push(c)) == digits_value(d) * 10 + ((c as nat) - ('0' as nat)) as nat);
        assert((n / 10) * 10 + n % 10 == n) by (nonlinear_arith);
        assert forall|i: int| 0 <= i < decimal(n).len() implies is_digit(#[trigger] decimal(n)[i]) by {
            if i < d.len() {
                assert(decimal(n)[i] == d[i]);
            }
        }
    } else {
        let c = digit_char(n);
        assert(seq![c].drop_last() =~= Seq::<char>::empty());
        assert(is_digit(c) && (c as nat) - ('0' as nat) == n);
        assert(decimal(n) == seq![c]);
        assert(digits_value(seq![c]) == digits_value(seq![c].drop_last()) * 10 + ((c as nat) - ('0' as nat)) as nat);
    }
}

} // verus!
