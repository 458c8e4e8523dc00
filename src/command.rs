//! The command line: the `run`, `proxy`, `daemon` and `ui` commands, their
//! options, and the parser that reads an argument list into them.

use vstd::prelude::*;
use crate::text::same;

verus! {

/// How the console sink writes events.
#[derive(Clone, Copy, Debug, PartialEq, Eq, Structural)]
pub enum LogFormat {
    /// Text for people to read.
    Text,
    /// One JSON object per line.
    Json,
}

impl Default for LogFormat {
    fn default() -> (r: LogFormat)
        ensures
            r == LogFormat::Text,
    {
        LogFormat::Text
    }
}

#[derive(Debug)]
pub enum Commands {
    /// Wrap a stdio server: spawn the command after `--` and proxy its stdio.
    Run {
        name: Option<String>,
        socket: Option<String>,
        no_telemetry: bool,
        log: bool,
        format: LogFormat,
        command: Vec<String>,
    },
    /// Reverse-proxy an HTTP server.
    Proxy { name: String, listen: u16, upstream: String, socket: Option<String>, no_telemetry: bool },
    /// Run the telemetry hub.
    Daemon { socket: String, port: Option<u16>, verbose: bool },
    /// Launch the graphical client.
    Ui { detach: bool, dev: bool },
}

#[derive(Debug)]
pub struct Cli {
    pub command: Commands,
}

/// Why an argument list does not make a command.
#[derive(Clone, Copy, Debug, PartialEq, Eq, Structural)]
pub enum CliError {
    /// No command word follows the program's name.
    NoCommand,
    /// The command word is not one of the commands.
    UnknownCommand,
    /// A word that is no option of the command.
    UnknownArgument,
    /// An option that takes a value stands last.
    MissingValue,
    /// An option given twice.
    Repeated,
    /// A required option or argument is missing.
    MissingArgument,
    /// A value that the option does not accept.
    InvalidValue,
    /// `--help` or `-h` (or the `help` command): the usage is to be shown.
    HelpRequested,
    /// `--version` or `-V`: the version is to be shown.
    VersionRequested,
}

pub enum CommandsView {
    Run {
        name: Option<Seq<char>>,
        socket: Option<Seq<char>>,
        no_telemetry: bool,
        log: bool,
        format: LogFormat,
        command: Seq<Seq<char>>,
    },
    Proxy {
        name: Seq<char>,
        listen: u16,
        upstream: Seq<char>,
        socket: Option<Seq<char>>,
        no_telemetry: bool,
    },
    Daemon { socket: Seq<char>, port: Option<u16>, verbose: bool },
    Ui { detach: bool, dev: bool },
}

pub open spec fn str_views(v: Seq<String>) -> Seq<Seq<char>> {
    v.map_values(|s: String| s@)
}

pub open spec fn opt_view(o: Option<String>) -> Option<Seq<char>> {
    match o {
        Some(s) => Some(s@),
        None => None,
    }
}

impl View for Commands {
    type V = CommandsView;

    open spec fn view(&self) -> CommandsView {
        match self {
            Commands::Run { name, socket, no_telemetry, log, format, command } => CommandsView::Run {
                name: opt_view(*name),
                socket: opt_view(*socket),
                no_telemetry: *no_telemetry,
                log: *log,
                format: *format,
                command: str_views(command@),
            },
            Commands::Proxy { name, listen, upstream, socket, no_telemetry } => CommandsView::Proxy {
                name: name@,
                listen: *listen,
                upstream: upstream@,
                socket: opt_view(*socket),
                no_telemetry: *no_telemetry,
            },
            Commands::Daemon { socket, port, verbose } => CommandsView::Daemon {
                socket: socket@,
                port: *port,
                verbose: *verbose,
            },
            Commands::Ui { detach, dev } => CommandsView::Ui { detach: *detach, dev: *dev },
        }
    }
}

/// One option of a command: its short letter if any, its long name, and
/// whether a value follows it.
pub struct Opt {
    pub short: Option<char>,
    pub long: &'static str,
    pub takes_value: bool,
}

pub struct OptView {
    pub short: Option<char>,
    pub long: Seq<char>,
    pub takes_value: bool,
}

impl View for Opt {
    type V = OptView;

    open spec fn view(&self) -> OptView {
        OptView { short: self.short, long: self.long@, takes_value: self.takes_value }
    }
}

pub open spec fn opt_views(v: Seq<Opt>) -> Seq<OptView> {
    v.map_values(|o: Opt| o@)
}

pub open spec fn spec_opt(short: Option<char>, long: Seq<char>, takes_value: bool) -> OptView {
    OptView { short, long, takes_value }
}

pub open spec fn run_options() -> Seq<OptView> {
    seq![
        spec_opt(Some('n'), "name"@, true),
        spec_opt(Some('s'), "socket"@, true),
        spec_opt(None, "no-telemetry"@, false),
        spec_opt(None, "log"@, false),
        spec_opt(None, "format"@, true),
    ]
}

pub open spec fn proxy_options() -> Seq<OptView> {
    seq![
        spec_opt(Some('n'), "name"@, true),
        spec_opt(Some('l'), "listen"@, true),
        spec_opt(Some('u'), "upstream"@, true),
        spec_opt(None, "socket"@, true),
        spec_opt(None, "no-telemetry"@, false),
    ]
}

pub open spec fn daemon_options() -> Seq<OptView> {
    seq![
        spec_opt(Some('s'), "socket"@, true),
        spec_opt(Some('p'), "port"@, true),
        spec_opt(None, "verbose"@, false),
    ]
}

pub open spec fn ui_options() -> Seq<OptView> {
    seq![spec_opt(Some('d'), "detach"@, false), spec_opt(None, "dev"@, false)]
}

/// How the word `t` names the option, if it does: `--long` or `-s` alone
/// (`Some(None)`), or with the value in the same word (`Some(Some(v))`) as
/// `--long=v`, `-sv` or `-s=v`.
pub open spec fn opt_form(t: Seq<char>, o: OptView) -> Option<Option<Seq<char>>> {
    let l = seq!['-', '-'] + o.long;
    if t == l {
        Some(None)
    } else if t.len() > l.len() && t.subrange(0, l.len() as int) == l && t[l.len() as int] == '=' {
        Some(Some(t.subrange(l.len() as int + 1, t.len() as int)))
    } else if o.short matches Some(c) && t.len() >= 2 && t[0] == '-' && t[1] == c {
        if t.len() == 2 {
            Some(None)
        } else if t[2] == '=' {
            Some(Some(t.subrange(3, t.len() as int)))
        } else {
            Some(Some(t.subrange(2, t.len() as int)))
        }
    } else {
        None
    }
}

/// Whether the word `t` names the option (see `opt_form`).
pub open spec fn names_opt(t: Seq<char>, o: OptView) -> bool {
    opt_form(t, o) is Some
}

/// Whether the word asks for the usage.
pub open spec fn is_help(t: Seq<char>) -> bool {
    t == seq!['-', '-', 'h', 'e', 'l', 'p'] || t == seq!['-', 'h']
}

/// The first option of the table that the word names.
pub open spec fn find_opt(table: Seq<OptView>, t: Seq<char>) -> Option<int>
    decreases table.len(),
{
    if table.len() == 0 {
        None
    } else if names_opt(t, table[0]) {
        Some(0)
    } else {
        match find_opt(table.drop_first(), t) {
            Some(k) => Some(k + 1),
            None => None,
        }
    }
}

/// Reads option words into one slot per option of the table: the value that
/// followed it, or the empty text for an option without value.
pub open spec fn scan(table: Seq<OptView>, words: Seq<Seq<char>>, slots: Seq<Option<Seq<char>>>) -> Result<
    Seq<Option<Seq<char>>>,
    CliError,
>
    decreases words.len(),
{
    if words.len() == 0 {
        Ok(slots)
    } else if is_help(words[0]) {
        Err(CliError::HelpRequested)
    } else {
        match find_opt(table, words[0]) {
            None => Err(CliError::UnknownArgument),
            Some(k) => if 0 <= k < slots.len() && slots[k] is Some {
                Err(CliError::Repeated)
            } else if table[k].takes_value {
                match opt_form(words[0], table[k]) {
                    Some(Some(v)) => scan(table, words.drop_first(), slots.update(k, Some(v))),
                    _ => if words.len() < 2 {
                        Err(CliError::MissingValue)
                    } else {
                        scan(
                            table,
                            words.subrange(2, words.len() as int),
                            slots.update(k, Some(words[1])),
                        )
                    },
                }
            } else if opt_form(words[0], table[k]) matches Some(Some(_)) {
                Err(CliError::InvalidValue)
            } else {
                scan(table, words.drop_first(), slots.update(k, Some(Seq::empty())))
            },
        }
    }
}

pub open spec fn no_slots(n: nat) -> Seq<Option<Seq<char>>> {
    Seq::new(n, |i: int| None)
}

pub open spec fn is_digit(c: char) -> bool {
    '0' <= c && c <= '9'
}

pub open spec fn digits_value(s: Seq<char>) -> int
    decreases s.len(),
{
    if s.len() == 0 {
        0
    } else {
        digits_value(s.drop_last()) * 10 + (s.last() as int - '0' as int)
    }
}

/// A port number: decimal digits, at least one, of a value that fits 16 bits.
pub open spec fn port_of(s: Seq<char>) -> Option<u16> {
    if s.len() > 0 && (forall|i: int| 0 <= i < s.len() ==> is_digit(#[trigger] s[i]))
        && digits_value(s) <= 65535 {
        Some(digits_value(s) as u16)
    } else {
        None
    }
}

/// The index of the first `--` among the words, or their number.
pub open spec fn dash_dash(words: Seq<Seq<char>>) -> int
    decreases words.len(),
{
    if words.len() == 0 {
        0
    } else if words[0] == seq!['-', '-'] {
        0
    } else {
        dash_dash(words.drop_first()) + 1
    }
}

pub open spec fn parse_run(words: Seq<Seq<char>>) -> Result<CommandsView, CliError> {
    let k = dash_dash(words);
    let command = if k < words.len() {
        words.subrange(k + 1, words.len() as int)
    } else {
        Seq::empty()
    };
    match scan(run_options(), words.subrange(0, k), no_slots(5)) {
        Err(e) => Err(e),
        Ok(s) => if command.len() == 0 {
            Err(CliError::MissingArgument)
        } else if s[4] matches Some(f) && f != "text"@ && f != "json"@ {
            Err(CliError::InvalidValue)
        } else {
            Ok(
                CommandsView::Run {
                    name: s[0],
                    socket: s[1],
                    no_telemetry: s[2] is Some,
                    log: s[3] is Some,
                    format: if s[4] == Some("json"@) {
                        LogFormat::Json
                    } else {
                        LogFormat::Text
                    },
                    command,
                },
            )
        },
    }
}

pub open spec fn parse_proxy(words: Seq<Seq<char>>) -> Result<CommandsView, CliError> {
    match scan(proxy_options(), words, no_slots(5)) {
        Err(e) => Err(e),
        Ok(s) => if s[0] is None || s[2] is None {
            Err(CliError::MissingArgument)
        } else if s[1] matches Some(l) && port_of(l) is None {
            Err(CliError::InvalidValue)
        } else {
            Ok(
                CommandsView::Proxy {
                    name: s[0].unwrap(),
                    listen: match s[1] {
                        Some(l) => port_of(l).unwrap(),
                        None => 3001,
                    },
                    upstream: s[2].unwrap(),
                    socket: s[3],
                    no_telemetry: s[4] is Some,
                },
            )
        },
    }
}

pub open spec fn parse_daemon(words: Seq<Seq<char>>) -> Result<CommandsView, CliError> {
    match scan(daemon_options(), words, no_slots(3)) {
        Err(e) => Err(e),
        Ok(s) => if s[1] matches Some(p) && port_of(p) is None {
            Err(CliError::InvalidValue)
        } else {
            Ok(
                CommandsView::Daemon {
                    socket: match s[0] {
                        Some(v) => v,
                        None => "/tmp/reticle.sock"@,
                    },
                    port: match s[1] {
                        Some(p) => port_of(p),
                        None => None,
                    },
                    verbose: s[2] is Some,
                },
            )
        },
    }
}

pub open spec fn parse_ui(words: Seq<Seq<char>>) -> Result<CommandsView, CliError> {
    match scan(ui_options(), words, no_slots(2)) {
        Err(e) => Err(e),
        Ok(s) => Ok(CommandsView::Ui { detach: s[0] is Some, dev: s[1] is Some }),
    }
}

/// The command that an argument list (the program's name first) gives.
pub open spec fn parse_args(args: Seq<Seq<char>>) -> Result<CommandsView, CliError> {
    if args.len() < 2 {
        Err(CliError::NoCommand)
    } else {
        let c = args[1];
        let words = args.subrange(2, args.len() as int);
        if is_help(c) || c == "help"@ {
            Err(CliError::HelpRequested)
        } else if c == seq!['-', '-', 'v', 'e', 'r', 's', 'i', 'o', 'n'] || c == seq!['-', 'V'] {
            Err(CliError::VersionRequested)
        } else if c == "run"@ || c == "wrap"@ {
            parse_run(words)
        } else if c == "proxy"@ {
            parse_proxy(words)
        } else if c == "daemon"@ {
            parse_daemon(words)
        } else if c == "ui"@ || c == "gui"@ {
            parse_ui(words)
        } else {
            Err(CliError::UnknownCommand)
        }
    }
}

pub open spec fn arg_views(args: Seq<&str>) -> Seq<Seq<char>> {
    args.map_values(|a: &str| a@)
}

fn opt(short: Option<char>, long: &'static str, takes_value: bool) -> (r: Opt)
    ensures
        r@ == spec_opt(short, long@, takes_value),
{
    Opt { short, long, takes_value }
}

fn run_table() -> (r: Vec<Opt>)
    ensures
        opt_views(r@) == run_options(),
{
    let mut r: Vec<Opt> = Vec::new();
    r.push(opt(Some('n'), "name", true));
    r.push(opt(Some('s'), "socket", true));
    r.push(opt(None, "no-telemetry", false));
    r.push(opt(None, "log", false));
    r.push(opt(None, "format", true));
    assert(opt_views(r@) =~= run_options());
    r
}

fn proxy_table() -> (r: Vec<Opt>)
    ensures
        opt_views(r@) == proxy_options(),
{
    let mut r: Vec<Opt> = Vec::new();
    r.push(opt(Some('n'), "name", true));
    r.push(opt(Some('l'), "listen", true));
    r.push(opt(Some('u'), "upstream", true));
    r.push(opt(None, "socket", true));
    r.push(opt(None, "no-telemetry", false));
    assert(opt_views(r@) =~= proxy_options());
    r
}

fn daemon_table() -> (r: Vec<Opt>)
    ensures
        opt_views(r@) == daemon_options(),
{
    let mut r: Vec<Opt> = Vec::new();
    r.push(opt(Some('s'), "socket", true));
    r.push(opt(Some('p'), "port", true));
    r.push(opt(None, "verbose", false));
    assert(opt_views(r@) =~= daemon_options());
    r
}

fn ui_table() -> (r: Vec<Opt>)
    ensures
        opt_views(r@) == ui_options(),
{
    let mut r: Vec<Opt> = Vec::new();
    r.push(opt(Some('d'), "detach", false));
    r.push(opt(None, "dev", false));
    assert(opt_views(r@) =~= ui_options());
    r
}

fn is_dash_dash(t: &str) -> (r: bool)
    ensures
        r == (t@ == seq!['-', '-']),
{
    let n = t.unicode_len();
    let r = n == 2 && t.get_char(0) == '-' && t.get_char(1) == '-';
    proof {
        if n == 2 {
            assert(r == (t@ =~= seq!['-', '-']));
        }
    }
    r
}

fn is_help_word(t: &str) -> (r: bool)
    ensures
        r == is_help(t@),
{
    let n = t.unicode_len();
    let long = n == 6 && t.get_char(0) == '-' && t.get_char(1) == '-' && t.get_char(2) == 'h'
        && t.get_char(3) == 'e' && t.get_char(4) == 'l' && t.get_char(5) == 'p';
    let short = n == 2 && t.get_char(0) == '-' && t.get_char(1) == 'h';
    proof {
        if n == 6 {
            assert(long == (t@ =~= seq!['-', '-', 'h', 'e', 'l', 'p']));
        } else {
            assert(t@.len() != seq!['-', '-', 'h', 'e', 'l', 'p'].len());
        }
        if n == 2 {
            assert(short == (t@ =~= seq!['-', 'h']));
        } else {
            assert(t@.len() != seq!['-', 'h'].len());
        }
    }
    long || short
}

fn is_version_word(t: &str) -> (r: bool)
    ensures
        r == (t@ == seq!['-', '-', 'v', 'e', 'r', 's', 'i', 'o', 'n'] || t@ == seq!['-', 'V']),
{
    let n = t.unicode_len();
    let long = n == 9 && t.get_char(0) == '-' && t.get_char(1) == '-' && t.get_char(2) == 'v'
        && t.get_char(3) == 'e' && t.get_char(4) == 'r' && t.get_char(5) == 's' && t.get_char(6)
        == 'i' && t.get_char(7) == 'o' && t.get_char(8) == 'n';
    let short = n == 2 && t.get_char(0) == '-' && t.get_char(1) == 'V';
    proof {
        if n == 9 {
            assert(long == (t@ =~= seq!['-', '-', 'v', 'e', 'r', 's', 'i', 'o', 'n']));
        } else {
            assert(t@.len() != seq!['-', '-', 'v', 'e', 'r', 's', 'i', 'o', 'n'].len());
        }
        if n == 2 {
            assert(short == (t@ =~= seq!['-', 'V']));
        } else {
            assert(t@.len() != seq!['-', 'V'].len());
        }
    }
    long || short
}

pub open spec fn form_view(o: Option<Option<String>>) -> Option<Option<Seq<char>>> {
    match o {
        Some(Some(v)) => Some(Some(v@)),
        Some(None) => Some(None),
        None => None,
    }
}

/// How the word names the option (see `opt_form`).
fn form(t: &str, o: &Opt) -> (r: Option<Option<String>>)
    ensures
        form_view(r) == opt_form(t@, o@),
{
    let n = t.unicode_len();
    let m = o.long.unicode_len();
    let ghost l = seq!['-', '-'] + o.long@;
    if n >= 2 && n - 2 >= m && t.get_char(0) == '-' && t.get_char(1) == '-' {
        let head = t.substring_char(2, m + 2);
        if same(head, o.long) {
            assert(t@.subrange(0, l.len() as int) =~= l);
            if n == m + 2 {
                assert(t@ =~= l);
                return Some(None);
            }
            if t.get_char(m + 2) == '=' {
                assert(t@ != l);
                return Some(Some(String::from_str(t.substring_char(m + 3, n))));
            }
            assert(t@ != l);
        } else {
            assert(t@.subrange(0, l.len() as int) != l) by {
                if t@.subrange(0, l.len() as int) == l {
                    assert(head@ =~= t@.subrange(0, l.len() as int).subrange(2, l.len() as int));
                    assert(l.subrange(2, l.len() as int) =~= o.long@);
                }
            }
            assert(t@ != l) by {
                if t@ == l {
                    assert(t@.subrange(0, l.len() as int) =~= l);
                }
            }
        }
    } else {
        assert(t@ != l) by {
            if t@ == l {
                assert(t@[0] == '-' && t@[1] == '-');
            }
        }
        assert(!(t@.len() > l.len() && t@.subrange(0, l.len() as int) == l)) by {
            if t@.len() > l.len() && t@.subrange(0, l.len() as int) == l {
                assert(t@.subrange(0, l.len() as int)[0] == t@[0]);
                assert(t@.subrange(0, l.len() as int)[1] == t@[1]);
            }
        }
    }
    match o.short {
        Some(c) => {
            if n >= 2 && t.get_char(0) == '-' && t.get_char(1) == c {
                if n == 2 {
                    Some(None)
                } else if t.get_char(2) == '=' {
                    Some(Some(String::from_str(t.substring_char(3, n))))
                } else {
                    Some(Some(String::from_str(t.substring_char(2, n))))
                }
            } else {
                None
            }
        },
        None => None,
    }
}

fn find(table: &Vec<Opt>, t: &str) -> (r: Option<(usize, Option<String>)>)
    ensures
        match r {
            Some((k, v)) => find_opt(opt_views(table@), t@) == Some(k as int) && k < table@.len()
                && form_view(Some(v)) == opt_form(t@, table@[k as int]@),
            None => find_opt(opt_views(table@), t@) is None,
        },
{
    let ghost tv = opt_views(table@);
    let mut i: usize = 0;
    assert(tv.subrange(0, tv.len() as int) =~= tv);
    while i < table.len()
        invariant
            0 <= i <= table@.len(),
            tv == opt_views(table@),
            find_opt(tv, t@) == match find_opt(tv.subrange(i as int, tv.len() as int), t@) {
                Some(k) => Some(k + i),
                None => None,
            },
        decreases table@.len() - i,
    {
        let ghost rest = tv.subrange(i as int, tv.len() as int);
        assert(rest[0] == table@[i as int]@);
        assert(rest.drop_first() =~= tv.subrange(i + 1, tv.len() as int));
        match form(t, &table[i]) {
            Some(v) => {
                return Some((i, v));
            },
            None => {},
        }
        i = i + 1;
    }
    assert(tv.subrange(i as int, tv.len() as int).len() == 0);
    None
}

pub open spec fn slot_views(v: Seq<Option<String>>) -> Seq<Option<Seq<char>>> {
    v.map_values(|o: Option<String>| opt_view(o))
}

/// Reads `words[lo..hi]` as options of the table (see `scan`).
fn scan_words(table: &Vec<Opt>, words: &[&str], lo: usize, hi: usize) -> (r: Result<
    Vec<Option<String>>,
    CliError,
>)
    requires
        lo <= hi <= words@.len(),
    ensures
        match scan(
            opt_views(table@),
            arg_views(words@).subrange(lo as int, hi as int),
            no_slots(table@.len()),
        ) {
            Ok(s) => r matches Ok(v) && slot_views(v@) == s,
            Err(e) => r == Err::<Vec<Option<String>>, CliError>(e),
        },
        r matches Ok(v) ==> v@.len() == table@.len(),
{
    let ghost tv = opt_views(table@);
    let ghost all = arg_views(words@).subrange(lo as int, hi as int);
    let mut slots: Vec<Option<String>> = Vec::new();
    let mut j: usize = 0;
    while j < table.len()
        invariant
            0 <= j <= table@.len(),
            slots@.len() == j,
            slot_views(slots@) == no_slots(j as nat),
        decreases table@.len() - j,
    {
        let ghost prior = slots@;
        slots.push(None);
        assert forall|m: int| 0 <= m < j + 1 implies #[trigger] slot_views(slots@)[m] == no_slots(
            (j + 1) as nat,
        )[m] by {
            if m < j {
                assert(slot_views(slots@)[m] == slot_views(slots@.drop_last())[m]);
                assert(slots@.drop_last() =~= prior);
            }
        }
        assert(slot_views(slots@) =~= no_slots((j + 1) as nat));
        j = j + 1;
    }
    let mut i: usize = lo;
    while i < hi
        invariant
            lo <= i <= hi <= words@.len(),
            tv == opt_views(table@),
            all == arg_views(words@).subrange(lo as int, hi as int),
            slots@.len() == table@.len(),
            scan(tv, all, no_slots(table@.len())) == scan(
                tv,
                arg_views(words@).subrange(i as int, hi as int),
                slot_views(slots@),
            ),
        decreases hi - i,
    {
        let ghost ws = arg_views(words@).subrange(i as int, hi as int);
        assert(ws[0] == words@[i as int]@);
        proof {
            lemma_find_in_range(tv, ws[0]);
        }
        let w: &str = words[i];
        assert(w@ == ws[0]);
        if is_help_word(w) {
            return Err(CliError::HelpRequested);
        }
        match find(table, w) {
            None => {
                return Err(CliError::UnknownArgument);
            },
            Some((k, inline)) => {
                assert(tv[k as int] == table@[k as int]@);
                assert(ws.len() == hi - i);
                assert(find_opt(tv, ws[0]) == Some(k as int));
                assert(slot_views(slots@)[k as int] == opt_view(slots@[k as int]));
                if slots[k].is_some() {
                    return Err(CliError::Repeated);
                }
                assert(opt_form(ws[0], tv[k as int]) == form_view(Some(inline)));
                if table[k].takes_value && inline.is_some() {
                    let v = match inline {
                        Some(v) => v,
                        None => String::new(),
                    };
                    assert(ws.drop_first() =~= arg_views(words@).subrange(i + 1, hi as int));
                    let ghost prior = slots@;
                    let ghost vv = v@;
                    slots.set(k, Some(v));
                    assert(slot_views(slots@) =~= slot_views(prior).update(k as int, Some(vv)));
                    i = i + 1;
                } else if table[k].takes_value {
                    if hi - i < 2 {
                        return Err(CliError::MissingValue);
                    }
                    assert(ws[1] == words@[i + 1]@);
                    assert(ws.subrange(2, ws.len() as int) =~= arg_views(words@).subrange(
                        i + 2,
                        hi as int,
                    ));
                    let ghost prior = slots@;
                    slots.set(k, Some(String::from_str(words[i + 1])));
                    assert(slot_views(slots@) =~= slot_views(prior).update(
                        k as int,
                        Some(ws[1]),
                    ));
                    i = i + 2;
                } else if inline.is_some() {
                    return Err(CliError::InvalidValue);
                } else {
                    assert(ws.drop_first() =~= arg_views(words@).subrange(i + 1, hi as int));
                    let ghost prior = slots@;
                    slots.set(k, Some(String::new()));
                    assert(slot_views(slots@) =~= slot_views(prior).update(
                        k as int,
                        Some(Seq::<char>::empty()),
                    ));
                    i = i + 1;
                }
            },
        }
    }
    assert(arg_views(words@).subrange(i as int, hi as int).len() == 0);
    Ok(slots)
}

proof fn lemma_find_in_range(table: Seq<OptView>, t: Seq<char>)
    ensures
        find_opt(table, t) matches Some(k) ==> 0 <= k < table.len(),
    decreases table.len(),
{
    if table.len() > 0 {
        lemma_find_in_range(table.drop_first(), t);
    }
}

/// The port number that `s` writes (see `port_of`).
pub fn parse_port(s: &str) -> (r: Option<u16>)
    ensures
        r == port_of(s@),
{
    let n = s.unicode_len();
    if n == 0 {
        return None;
    }
    let mut v: u32 = 0;
    let mut i: usize = 0;
    while i < n
        invariant
            n == s@.len(),
            0 <= i <= n,
            v == digits_value(s@.subrange(0, i as int)),
            v <= 65535,
            forall|k: int| 0 <= k < i ==> is_digit(#[trigger] s@[k]),
        decreases n - i,
    {
        let c = s.get_char(i);
        assert(s@.subrange(0, i + 1).drop_last() =~= s@.subrange(0, i as int));
        if !('0' <= c && c <= '9') {
            assert(!is_digit(s@[i as int]));
            return None;
        }
        let d = (c as u32) - ('0' as u32);
        let next = v * 10 + d;
        assert(s@.subrange(0, i + 1).last() == c);
        assert(next == digits_value(s@.subrange(0, i + 1)));
        if next > 65535 {
            proof {
                if forall|k: int| 0 <= k < s@.len() ==> is_digit(#[trigger] s@[k]) {
                    lemma_digits_grow(s@, i as int + 1);
                }
            }
            return None;
        }
        v = next;
        i = i + 1;
    }
    assert(s@.subrange(0, n as int) =~= s@);
    Some(v as u16)
}

proof fn lemma_digits_grow(s: Seq<char>, i: int)
    requires
        0 < i <= s.len(),
        forall|k: int| 0 <= k < s.len() ==> is_digit(#[trigger] s[k]),
    ensures
        digits_value(s) >= digits_value(s.subrange(0, i)),
    decreases s.len() - i,
{
    if i < s.len() {
        lemma_digits_grow(s, i + 1);
        assert(s.subrange(0, i + 1).drop_last() =~= s.subrange(0, i));
        assert(digits_value(s.subrange(0, i)) >= 0) by {
            lemma_digits_nonneg(s.subrange(0, i));
        }
    } else {
        assert(s.subrange(0, i) =~= s);
    }
}

proof fn lemma_digits_nonneg(s: Seq<char>)
    requires
        forall|k: int| 0 <= k < s.len() ==> is_digit(#[trigger] s[k]),
    ensures
        digits_value(s) >= 0,
    decreases s.len(),
{
    if s.len() > 0 {
        assert(forall|k: int| 0 <= k < s.drop_last().len() ==> s.drop_last()[k] == s[k]);
        lemma_digits_nonneg(s.drop_last());
    }
}

fn slot_value(slots: &Vec<Option<String>>, k: usize) -> (r: Option<String>)
    requires
        k < slots@.len(),
    ensures
        opt_view(r) == slot_views(slots@)[k as int],
{
    match &slots[k] {
        Some(v) => Some(v.clone()),
        None => None,
    }
}

fn copy_words(words: &[&str], lo: usize, hi: usize) -> (r: Vec<String>)
    requires
        lo <= hi <= words@.len(),
    ensures
        str_views(r@) == arg_views(words@).subrange(lo as int, hi as int),
{
    let mut r: Vec<String> = Vec::new();
    let mut i: usize = lo;
    while i < hi
        invariant
            lo <= i <= hi <= words@.len(),
            r@.len() == i - lo,
            forall|m: int| 0 <= m < r@.len() ==> #[trigger] r@[m]@ == words@[lo + m]@,
        decreases hi - i,
    {
        r.push(String::from_str(words[i]));
        i = i + 1;
    }
    assert(str_views(r@) =~= arg_views(words@).subrange(lo as int, hi as int));
    r
}

fn run_command(words: &[&str], lo: usize) -> (r: Result<Commands, CliError>)
    requires
        lo <= words@.len(),
    ensures
        match parse_run(arg_views(words@).subrange(lo as int, words@.len() as int)) {
            Ok(c) => r matches Ok(x) && x@ == c,
            Err(e) => r == Err::<Commands, CliError>(e),
        },
{
    let hi = words.len();
    let ghost all = arg_views(words@).subrange(lo as int, hi as int);
    let mut i: usize = lo;
    assert(all.subrange(0, 0) =~= Seq::<Seq<char>>::empty());
    while i < hi && !is_dash_dash(words[i])
        invariant
            lo <= i <= hi == words@.len(),
            all == arg_views(words@).subrange(lo as int, hi as int),
            dash_dash(all) == dash_dash(arg_views(words@).subrange(i as int, hi as int)) + (i - lo),
        decreases hi - i,
    {
        let ghost ws = arg_views(words@).subrange(i as int, hi as int);
        assert(ws[0] == words@[i as int]@);
        assert(ws.drop_first() =~= arg_views(words@).subrange(i + 1, hi as int));
        i = i + 1;
    }
    proof {
        let ws = arg_views(words@).subrange(i as int, hi as int);
        if i < hi {
            assert(ws[0] == words@[i as int]@);
        }
        assert(all.subrange(0, i - lo) =~= arg_views(words@).subrange(lo as int, i as int));
        if i < hi {
            assert(all.subrange(i - lo + 1, all.len() as int) =~= arg_views(words@).subrange(
                i + 1,
                hi as int,
            ));
        }
    }
    let table = run_table();
    let slots = match scan_words(&table, words, lo, i) {
        Err(e) => return Err(e),
        Ok(s) => s,
    };
    if i >= hi || i + 1 == hi {
        return Err(CliError::MissingArgument);
    }
    let command = copy_words(words, i + 1, hi);
    let format = slot_value(&slots, 4);
    let fmt = match &format {
        None => LogFormat::Text,
        Some(f) => if same(f.as_str(), "json") {
            LogFormat::Json
        } else if same(f.as_str(), "text") {
            LogFormat::Text
        } else {
            return Err(CliError::InvalidValue);
        },
    };
    proof {
        reveal_strlit("json");
        reveal_strlit("text");
    }
    let name = slot_value(&slots, 0);
    let socket = slot_value(&slots, 1);
    let no_telemetry = slots[2].is_some();
    let log = slots[3].is_some();
    assert(slot_views(slots@)[2] == opt_view(slots@[2]));
    assert(slot_views(slots@)[3] == opt_view(slots@[3]));
    Ok(Commands::Run { name, socket, no_telemetry, log, format: fmt, command })
}

fn proxy_command(words: &[&str], lo: usize) -> (r: Result<Commands, CliError>)
    requires
        lo <= words@.len(),
    ensures
        match parse_proxy(arg_views(words@).subrange(lo as int, words@.len() as int)) {
            Ok(c) => r matches Ok(x) && x@ == c,
            Err(e) => r == Err::<Commands, CliError>(e),
        },
{
    let table = proxy_table();
    let slots = match scan_words(&table, words, lo, words.len()) {
        Err(e) => return Err(e),
        Ok(s) => s,
    };
    let name = match slot_value(&slots, 0) {
        None => return Err(CliError::MissingArgument),
        Some(n) => n,
    };
    let upstream = match slot_value(&slots, 2) {
        None => return Err(CliError::MissingArgument),
        Some(u) => u,
    };
    let listen = match slot_value(&slots, 1) {
        None => 3001,
        Some(l) => match parse_port(l.as_str()) {
            None => return Err(CliError::InvalidValue),
            Some(p) => p,
        },
    };
    let socket = slot_value(&slots, 3);
    let no_telemetry = slots[4].is_some();
    assert(slot_views(slots@)[4] == opt_view(slots@[4]));
    Ok(Commands::Proxy { name, listen, upstream, socket, no_telemetry })
}

fn daemon_command(words: &[&str], lo: usize) -> (r: Result<Commands, CliError>)
    requires
        lo <= words@.len(),
    ensures
        match parse_daemon(arg_views(words@).subrange(lo as int, words@.len() as int)) {
            Ok(c) => r matches Ok(x) && x@ == c,
            Err(e) => r == Err::<Commands, CliError>(e),
        },
{
    let table = daemon_table();
    let slots = match scan_words(&table, words, lo, words.len()) {
        Err(e) => return Err(e),
        Ok(s) => s,
    };
    let port = match slot_value(&slots, 1) {
        None => None,
        Some(p) => match parse_port(p.as_str()) {
            None => return Err(CliError::InvalidValue),
            Some(n) => Some(n),
        },
    };
    let socket = match slot_value(&slots, 0) {
        Some(v) => v,
        None => String::from_str("/tmp/reticle.sock"),
    };
    let verbose = slots[2].is_some();
    assert(slot_views(slots@)[2] == opt_view(slots@[2]));
    Ok(Commands::Daemon { socket, port, verbose })
}

fn ui_command(words: &[&str], lo: usize) -> (r: Result<Commands, CliError>)
    requires
        lo <= words@.len(),
    ensures
        match parse_ui(arg_views(words@).subrange(lo as int, words@.len() as int)) {
            Ok(c) => r matches Ok(x) && x@ == c,
            Err(e) => r == Err::<Commands, CliError>(e),
        },
{
    let table = ui_table();
    let slots = match scan_words(&table, words, lo, words.len()) {
        Err(e) => return Err(e),
        Ok(s) => s,
    };
    let detach = slots[0].is_some();
    let dev = slots[1].is_some();
    assert(slot_views(slots@)[0] == opt_view(slots@[0]));
    assert(slot_views(slots@)[1] == opt_view(slots@[1]));
    Ok(Commands::Ui { detach, dev })
}

impl Cli {
    /// Reads an argument list, the program's name first, into a command
    /// (see `parse_args`).
    pub fn try_parse_from(args: &[&str]) -> (r: Result<Cli, CliError>)
        ensures
            match parse_args(arg_views(args@)) {
                Ok(c) => r matches Ok(x) && x.command@ == c,
                Err(e) => r matches Err(x) && x == e,
            },
    {
        if args.len() < 2 {
            return Err(CliError::NoCommand);
        }
        let c = args[1];
        assert(arg_views(args@)[1] == c@);
        if is_help_word(c) || same(c, "help") {
            return Err(CliError::HelpRequested);
        }
        if is_version_word(c) {
            return Err(CliError::VersionRequested);
        }
        let command = if same(c, "run") || same(c, "wrap") {
            run_command(args, 2)
        } else if same(c, "proxy") {
            proxy_command(args, 2)
        } else if same(c, "daemon") {
            daemon_command(args, 2)
        } else if same(c, "ui") || same(c, "gui") {
            ui_command(args, 2)
        } else {
            return Err(CliError::UnknownCommand);
        };
        match command {
            Ok(command) => Ok(Cli { command }),
            Err(e) => Err(e),
        }
    }
}

} // verus!
