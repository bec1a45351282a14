//! Run configuration: everything a process can be pointed at, in one place.
//!
//! A value comes from the first of four places that names it:
//!
//! 1. the command line -- `--server 10.0.0.5:5000`, `--tick-hz 60`
//! 2. the environment -- `GREENTD_SERVER=10.0.0.5:5000`
//! 3. a config file -- `server = 10.0.0.5:5000`
//! 4. the built-in defaults in [`defaults`]
//!
//! Deciding that precedence is [`gather`]'s whole job; [`resolve`] then reads the
//! values. A key that nothing reads is an error rather than a silent no-op, and
//! so is a value that cannot be read as the type its key requires: both name the
//! offender.
//!
//! The mode is resolved before anything else, because it decides two of the
//! defaults: a dedicated server binds the port it serves on, while a client
//! binds a second port so a server and a client can coexist on one machine.

use crate::data::balance::validation::reports;
use crate::data::balance::{BalanceData, BalanceError, Fault, TowerView};
use crate::map::{MapData, DEFAULT_MAP_ID, PATH_CLEARANCE_KEY};
use crate::message::{quotation, quoted, Message, PieceView};
use crate::order::{less, place, zero};
use crate::scalar::Scalar;
use crate::settings::{first_of, Settings};
use crate::sorting::{codes, lemma_precedence_is_one_way, precedes};
use crate::text::{
    characters, decimal, find, is_blank, lemma_find, lower, lowered, number, read_number, replace, same_text, spelled, split_once,
    strip_prefix, text_of, trim, trimmed, trimmed_end, trimmed_start, up_to,
};
use vstd::prelude::*;

pub mod laws;

verus! {

// ---------------------------------------------------------------------------
// Keys, environment names and defaults
// ---------------------------------------------------------------------------

/// Prefix of every environment variable that names a config key:
/// `GREENTD_TICK_HZ` is the key `tick-hz`.
pub const ENV_PREFIX: &'static str = "GREENTD_";

/// Config file read when nothing names one and this file exists beside the
/// working directory.
pub const DEFAULT_CONFIG_FILE: &'static str = "greentd.conf";

pub const KEY_MODE: &'static str = "mode";

pub const KEY_SERVER: &'static str = "server";

pub const KEY_BIND: &'static str = "bind";

pub const KEY_PORT: &'static str = "port";

pub const KEY_TICK_HZ: &'static str = "tick-hz";

pub const KEY_MAP: &'static str = "map";

pub const KEY_BALANCE_DIR: &'static str = "balance-dir";

pub const KEY_LOG: &'static str = "log";

pub const KEY_LOG_DIR: &'static str = "log-dir";

pub const KEY_COMMANDS_PER_SECOND: &'static str = "commands-per-second";

pub const KEY_COMMAND_BURST: &'static str = "command-burst";

/// Pins this client's player identity. A client setting, unread by a dedicated
/// server, which never generates or owns an identity.
pub const KEY_PLAYER_ID: &'static str = "player-id";

/// Selects a layer rather than being a [`Config`] field, so it is the one key
/// allowed to name another file.
pub const KEY_CONFIG: &'static str = "config";

/// Simulation rate, in ticks per second.
pub const DEFAULT_TICK_HZ: &'static str = "30";

/// The address a client joins by default.
pub const DEFAULT_SERVER_ADDR: &'static str = "127.0.0.1:5000";

/// The socket a dedicated server binds by default.
pub const DEFAULT_SERVER_BIND: &'static str = "127.0.0.1:5000";

/// The socket a client (or a host) binds by default.
pub const DEFAULT_CLIENT_BIND: &'static str = "127.0.0.1:5100";

/// Map identifier.
pub const DEFAULT_MAP: &'static str = "green-ring";

/// Directory this match's log file is written to. An empty value turns the file
/// off.
pub const DEFAULT_LOG_DIR: &'static str = "logs";

/// Command budget: sustained commands per second, per peer.
pub const DEFAULT_COMMANDS_PER_SECOND: &'static str = "20";

/// Command budget: how many commands one peer may spend in one frame.
pub const DEFAULT_COMMAND_BURST: u32 = 16;

/// Printed by `--help`.
pub const USAGE: &'static str = "greentd [mode] [options]

Modes:
  host              server and client in one process (default)
  server            dedicated server
  client            a client, joining a host

Options:
  --mode <mode>              the mode, instead of the positional form
  --server <addr>            the host a client joins         [default: 127.0.0.1:5000]
  --bind <addr>              the local socket to bind
  --port <n>                 --bind, shortened to this port
  --tick-hz <n>              simulation rate                 [default: 30]
  --map <id>                 the map to play                 [default: green-ring]
  --balance-dir <path>       directory holding the *.ron tables
  --log <filter>             tracing filter, e.g. info,greentd::sim=debug
  --log-dir <path>           where this match's log file goes  [default: logs]
                             (an empty value writes no file)
  --commands-per-second <n>  per-peer command budget         [default: 20]
  --command-burst <n>        per-peer per-frame burst        [default: 16]
  --player-id <n>            pin this client's identity, instead of generating
                             one (useful for exercising a reconnect)  [default: random]
  --config <path>            the config file to read         [default: greentd.conf]
  --help                     print this text

Every option is also an environment variable: upper-case it and prefix it with
GREENTD_, so --tick-hz is GREENTD_TICK_HZ. A config file holds one `key = value`
per line, with the key spelled as it appears above without the leading dashes
and `#` starting a comment. The command line beats the environment, which beats
the file, which beats the defaults.
";

// ---------------------------------------------------------------------------
// Modes
// ---------------------------------------------------------------------------

/// Which roles one process plays.
#[derive(Clone, Copy, PartialEq, Eq, Debug, Structural)]
pub enum Mode {
    /// A dedicated server: authoritative, and nothing else.
    Server,
    /// A client: no simulation, no authority.
    Client,
    /// Server and client in one process.
    Host,
}

impl Default for Mode {
    fn default() -> (mode: Mode)
        ensures
            mode == Mode::Host,
    {
        Mode::Host
    }
}

/// The name of a mode.
pub open spec fn mode_name(mode: Mode) -> Seq<char> {
    match mode {
        Mode::Server => "server"@,
        Mode::Client => "client"@,
        Mode::Host => "host"@,
    }
}

/// The mode that a text names, white space around it aside.
pub open spec fn named_mode(value: Seq<char>) -> Option<Mode> {
    if trimmed(value) == "server"@ {
        Some(Mode::Server)
    } else if trimmed(value) == "client"@ {
        Some(Mode::Client)
    } else if trimmed(value) == "host"@ {
        Some(Mode::Host)
    } else {
        None
    }
}

/// A process of this mode owns the match.
pub open spec fn serves(mode: Mode) -> bool {
    mode == Mode::Server || mode == Mode::Host
}

/// A process of this mode shows the match to a player.
pub open spec fn plays(mode: Mode) -> bool {
    mode == Mode::Client || mode == Mode::Host
}

impl Mode {
    /// Every mode, each once.
    pub const ALL: [Mode; 3] = [Mode::Server, Mode::Client, Mode::Host];

    /// Parse the positional form, `--mode`, or `GREENTD_MODE`.
    pub fn parse(value: &str) -> (r: Result<Mode, ConfigError>)
        ensures
            match r {
                Ok(mode) => named_mode(value@) == Some(mode),
                Err(err) => named_mode(value@) is None && err@ == (ConfigFault::BadValue {
                    key: KEY_MODE@,
                    value: value@,
                    expected: "server | client | host"@,
                }),
            },
    {
        let bare = trim(value);
        if same_text(bare.as_str(), "server") {
            Ok(Mode::Server)
        } else if same_text(bare.as_str(), "client") {
            Ok(Mode::Client)
        } else if same_text(bare.as_str(), "host") {
            Ok(Mode::Host)
        } else {
            Err(ConfigError::bad_value(KEY_MODE, value, "server | client | host"))
        }
    }

    /// The name of the mode.
    pub fn as_str(self) -> (name: &'static str)
        ensures
            name@ == mode_name(self),
    {
        match self {
            Mode::Server => "server",
            Mode::Client => "client",
            Mode::Host => "host",
        }
    }

    /// True when this process owns the authoritative simulation.
    pub fn runs_server(self) -> (yes: bool)
        ensures
            yes == serves(self),
    {
        matches!(self, Mode::Server | Mode::Host)
    }

    /// True when this process renders the match, which a dedicated server does
    /// not.
    pub fn runs_client(self) -> (yes: bool)
        ensures
            yes == plays(self),
    {
        matches!(self, Mode::Client | Mode::Host)
    }

    /// True when both roles share one world, so a client cannot be addressed as
    /// a remote peer.
    pub fn is_host(self) -> (yes: bool)
        ensures
            yes == (self == Mode::Host),
    {
        matches!(self, Mode::Host)
    }
}

// ---------------------------------------------------------------------------
// Errors
// ---------------------------------------------------------------------------

/// Everything that can go wrong while a run is configured.
///
/// This is a startup failure, not a refusal inside a match: a configuration
/// mistake that is fatal and is never sent anywhere.
#[derive(Clone, PartialEq, Eq, Debug)]
pub enum ConfigError {
    /// A value cannot be read as the type its key requires.
    BadValue { key: String, value: String, expected: &'static str },
    /// A key that nothing reads. Reported rather than ignored, so a typo is
    /// loud instead of surprising.
    UnknownKey { key: String },
    /// A flag that needs a value was given without one.
    MissingValue { key: String },
    /// An argument that is neither an option nor a mode or port.
    UnexpectedArgument { value: String },
    /// The config file could not be read.
    Io { path: String, message: String },
    /// A config-file line is not `key = value`.
    Line { path: String, line: usize, message: String },
    /// A key has neither a user value nor a default.
    Missing { key: String },
}

/// A configuration error, as a value.
pub ghost enum ConfigFault {
    BadValue { key: Seq<char>, value: Seq<char>, expected: Seq<char> },
    UnknownKey { key: Seq<char> },
    MissingValue { key: Seq<char> },
    UnexpectedArgument { value: Seq<char> },
    Io { path: Seq<char>, message: Seq<char> },
    Line { path: Seq<char>, line: int, message: Seq<char> },
    Missing { key: Seq<char> },
}

impl View for ConfigError {
    type V = ConfigFault;

    open spec fn view(&self) -> ConfigFault {
        match *self {
            ConfigError::BadValue { key, value, expected } => ConfigFault::BadValue {
                key: key@,
                value: value@,
                expected: expected@,
            },
            ConfigError::UnknownKey { key } => ConfigFault::UnknownKey { key: key@ },
            ConfigError::MissingValue { key } => ConfigFault::MissingValue { key: key@ },
            ConfigError::UnexpectedArgument { value } => ConfigFault::UnexpectedArgument { value: value@ },
            ConfigError::Io { path, message } => ConfigFault::Io { path: path@, message: message@ },
            ConfigError::Line { path, line, message } => ConfigFault::Line {
                path: path@,
                line: line as int,
                message: message@,
            },
            ConfigError::Missing { key } => ConfigFault::Missing { key: key@ },
        }
    }
}

/// What a person reads of a configuration error.
pub open spec fn fault_text(fault: ConfigFault) -> Seq<char> {
    match fault {
        ConfigFault::BadValue { key, value, expected } => "config: --"@ + key + " "@ + quotation(value) + ": expected "@
            + expected,
        ConfigFault::UnknownKey { key } => "config: unknown key "@ + quotation(key),
        ConfigFault::MissingValue { key } => "config: --"@ + key + " needs a value"@,
        ConfigFault::UnexpectedArgument { value } => "config: unexpected argument "@ + quotation(value),
        ConfigFault::Io { path, message } => path + ": "@ + message,
        ConfigFault::Line { path, line, message } => path + ":"@ + decimal(line as nat) + ": "@ + message,
        ConfigFault::Missing { key } => "config: "@ + quotation(key) + " has no value and no default"@,
    }
}

impl ConfigError {
    fn bad_value(key: &str, value: &str, expected: &'static str) -> (err: ConfigError)
        ensures
            err@ == (ConfigFault::BadValue { key: key@, value: value@, expected: expected@ }),
    {
        ConfigError::BadValue { key: key.to_owned(), value: value.to_owned(), expected }
    }

    /// The error as a person reads it.
    pub fn text(&self) -> (text: String)
        ensures
            text@ == fault_text(self@),
    {
        match self {
            ConfigError::BadValue { key, value, expected } => {
                let mut text = "config: --".to_owned();
                text.append(key.as_str());
                text.append(" ");
                text.append(quoted(value.as_str()).as_str());
                text.append(": expected ");
                text.append(expected);
                text
            },
            ConfigError::UnknownKey { key } => {
                let mut text = "config: unknown key ".to_owned();
                text.append(quoted(key.as_str()).as_str());
                text
            },
            ConfigError::MissingValue { key } => {
                let mut text = "config: --".to_owned();
                text.append(key.as_str());
                text.append(" needs a value");
                text
            },
            ConfigError::UnexpectedArgument { value } => {
                let mut text = "config: unexpected argument ".to_owned();
                text.append(quoted(value.as_str()).as_str());
                text
            },
            ConfigError::Io { path, message } => {
                let mut text = path.clone();
                text.append(": ");
                text.append(message.as_str());
                text
            },
            ConfigError::Line { path, line, message } => {
                let mut text = path.clone();
                text.append(":");
                text.append(number(*line as u64).as_str());
                text.append(": ");
                text.append(message.as_str());
                text
            },
            ConfigError::Missing { key } => {
                let mut text = "config: ".to_owned();
                text.append(quoted(key.as_str()).as_str());
                text.append(" has no value and no default");
                text
            },
        }
    }
}

// ---------------------------------------------------------------------------
// Sources
// ---------------------------------------------------------------------------

/// The built-in defaults of a mode.
pub open spec fn default_layer(mode: Mode, balance_dir: Seq<char>) -> Map<Seq<char>, Seq<char>> {
    Map::<Seq<char>, Seq<char>>::empty()
        .insert(KEY_MODE@, mode_name(mode))
        .insert(KEY_TICK_HZ@, DEFAULT_TICK_HZ@)
        .insert(KEY_SERVER@, DEFAULT_SERVER_ADDR@)
        .insert(KEY_BIND@, if mode == Mode::Server { DEFAULT_SERVER_BIND@ } else { DEFAULT_CLIENT_BIND@ })
        .insert(KEY_MAP@, DEFAULT_MAP@)
        .insert(KEY_BALANCE_DIR@, balance_dir)
        .insert(KEY_LOG@, Seq::<char>::empty())
        .insert(KEY_LOG_DIR@, DEFAULT_LOG_DIR@)
        .insert(KEY_COMMANDS_PER_SECOND@, DEFAULT_COMMANDS_PER_SECOND@)
        .insert(KEY_COMMAND_BURST@, decimal(DEFAULT_COMMAND_BURST as nat))
}

/// The built-in defaults, as the lowest-priority layer. `balance_dir` is the
/// directory the tables are in when nothing else says.
pub fn defaults(mode: Mode, balance_dir: &str) -> (settings: Settings)
    ensures
        settings.wf(),
        settings@ == default_layer(mode, balance_dir@),
{
    let mut settings = Settings::new();
    settings.insert(KEY_MODE.to_owned(), mode.as_str().to_owned());
    settings.insert(KEY_TICK_HZ.to_owned(), DEFAULT_TICK_HZ.to_owned());
    settings.insert(KEY_SERVER.to_owned(), DEFAULT_SERVER_ADDR.to_owned());
    settings.insert(
        KEY_BIND.to_owned(),
        match mode {
            Mode::Server => DEFAULT_SERVER_BIND.to_owned(),
            Mode::Client | Mode::Host => DEFAULT_CLIENT_BIND.to_owned(),
        },
    );
    settings.insert(KEY_MAP.to_owned(), DEFAULT_MAP.to_owned());
    settings.insert(KEY_BALANCE_DIR.to_owned(), balance_dir.to_owned());
    settings.insert(KEY_LOG.to_owned(), String::new());
    settings.insert(KEY_LOG_DIR.to_owned(), DEFAULT_LOG_DIR.to_owned());
    settings.insert(KEY_COMMANDS_PER_SECOND.to_owned(), DEFAULT_COMMANDS_PER_SECOND.to_owned());
    settings.insert(KEY_COMMAND_BURST.to_owned(), number(DEFAULT_COMMAND_BURST as u64));
    settings
}

/// What one command line asked for.
#[derive(Clone, Debug)]
pub struct Cli {
    /// Overrides, keyed as in a config file.
    pub settings: Settings,
    /// `--config`: the file to read, if any.
    pub config_file: Option<String>,
    /// `--help`.
    pub help: bool,
}

/// What one command line asked for, as a value.
#[verifier::ext_equal]
pub ghost struct CliView {
    pub settings: Map<Seq<char>, Seq<char>>,
    pub config_file: Option<Seq<char>>,
    pub help: bool,
}

impl View for Cli {
    type V = CliView;

    open spec fn view(&self) -> CliView {
        CliView {
            settings: self.settings@,
            config_file: match self.config_file {
                Some(path) => Some(path@),
                None => None,
            },
            help: self.help,
        }
    }
}

/// A command line that asks for nothing.
pub open spec fn asks_nothing() -> CliView {
    CliView { settings: Map::empty(), config_file: None, help: false }
}

/// An option, given its value.
pub open spec fn with_option(cli: CliView, key: Seq<char>, value: Seq<char>) -> CliView {
    if key == KEY_CONFIG@ {
        CliView { config_file: Some(value), ..cli }
    } else {
        CliView { settings: cli.settings.insert(key, value), ..cli }
    }
}

/// Reads arguments from the front: `--key value`, `--key=value`, `--help`, and
/// everything else as a positional.
pub open spec fn read_arguments(args: Seq<Seq<char>>, cli: CliView, positionals: Seq<Seq<char>>) -> Result<
    (CliView, Seq<Seq<char>>),
    ConfigFault,
>
    decreases args.len(),
{
    if args.len() == 0 {
        Ok((cli, positionals))
    } else if !"--"@.is_prefix_of(args[0]) {
        read_arguments(args.drop_first(), cli, positionals.push(args[0]))
    } else {
        let flag = args[0].subrange("--"@.len() as int, args[0].len() as int);
        let at = find(flag, '=');
        let key = flag.subrange(0, at);
        if key == "help"@ {
            read_arguments(args.drop_first(), CliView { help: true, ..cli }, positionals)
        } else if at < flag.len() {
            let value = flag.subrange(at + 1, flag.len() as int);
            read_arguments(args.drop_first(), with_option(cli, key, value), positionals)
        } else if args.len() < 2 {
            Err(ConfigFault::MissingValue { key })
        } else {
            read_arguments(args.skip(2), with_option(cli, key, args[1]), positionals)
        }
    }
}

/// A setting, unless the key is set already.
pub open spec fn with_default(
    settings: Map<Seq<char>, Seq<char>>,
    key: Seq<char>,
    value: Option<Seq<char>>,
) -> Map<Seq<char>, Seq<char>> {
    match value {
        Some(value) if !settings.contains_key(key) => settings.insert(key, value),
        _ => settings,
    }
}

/// An argument at a place, if there is one.
pub open spec fn nth(args: Seq<Seq<char>>, i: int) -> Option<Seq<char>> {
    if i < args.len() {
        Some(args[i])
    } else {
        None
    }
}

/// Settings with a positional mode, unless the mode is set, and a positional
/// port, unless the port or the whole socket is set.
pub open spec fn with_positionals(
    settings: Map<Seq<char>, Seq<char>>,
    positionals: Seq<Seq<char>>,
) -> Map<Seq<char>, Seq<char>> {
    let moded = with_default(settings, KEY_MODE@, nth(positionals, 0));
    if settings.contains_key(KEY_BIND@) {
        moded
    } else {
        with_default(moded, KEY_PORT@, nth(positionals, 1))
    }
}

/// What a command line asks for: its options, and a positional mode and port
/// where the options leave them open.
pub open spec fn read_command_line(args: Seq<Seq<char>>) -> Result<CliView, ConfigFault> {
    match read_arguments(args, asks_nothing(), seq![]) {
        Err(fault) => Err(fault),
        Ok((cli, positionals)) => if positionals.len() > 2 {
            Err(ConfigFault::UnexpectedArgument { value: positionals[2] })
        } else {
            Ok(
                CliView {
                    settings: with_positionals(cli.settings, positionals),
                    ..cli
                },
            )
        },
    }
}

/// The texts of a list.
pub open spec fn texts(list: Seq<String>) -> Seq<Seq<char>> {
    list.map_values(|s: String| s@)
}

/// Parse a command line: options in any order, then the positionals, which are
/// a mode and optionally a port (`client 5200`).
///
/// Options are `--key value` or `--key=value`. A positional mode never
/// overrides an explicit `--mode`, and a positional port never overrides
/// `--bind` or `--port`.
pub fn parse_args(args: &Vec<String>) -> (r: Result<Cli, ConfigError>)
    ensures
        match r {
            Ok(cli) => cli.settings.wf() && read_command_line(texts(args@)) == Ok::<CliView, ConfigFault>(cli@),
            Err(err) => read_command_line(texts(args@)) == Err::<CliView, ConfigFault>(err@),
        },
{
    let ghost all = texts(args@);
    let ghost whole = read_arguments(all, asks_nothing(), seq![]);
    let mut cli = Cli { settings: Settings::new(), config_file: None, help: false };
    let mut positionals: Vec<String> = Vec::new();
    let mut i: usize = 0;
    assert(cli@ =~= asks_nothing());
    assert(texts(positionals@) =~= seq![]);
    assert(all.subrange(0, all.len() as int) =~= all);
    while i < args.len()
        invariant
            all == texts(args@),
            whole == read_arguments(all, asks_nothing(), seq![]),
            i <= args@.len(),
            cli.settings.wf(),
            whole == read_arguments(all.subrange(i as int, all.len() as int), cli@, texts(positionals@)),
        decreases args@.len() - i,
    {
        let ghost rest = all.subrange(i as int, all.len() as int);
        let ghost before = cli@;
        let ghost others = texts(positionals@);
        let arg: &String = &args[i];
        assert(rest[0] == arg@);
        assert(rest.drop_first() =~= all.subrange(i + 1, all.len() as int));
        match strip_prefix(arg.as_str(), "--") {
            None => {
                positionals.push(arg.clone());
                assert(texts(positionals@) =~= others.push(arg@));
                i = i + 1;
            },
            Some(flag) => {
                let (key, inline) = match split_once(flag.as_str(), '=') {
                    Some((key, value)) => (key, Some(value)),
                    None => {
                        let whole_flag = flag.clone();
                        proof {
                            lemma_find(flag@, '=');
                            assert(flag@.subrange(0, flag@.len() as int) =~= flag@);
                        }
                        (whole_flag, None)
                    },
                };
                assert(key@ == flag@.subrange(0, find(flag@, '=')));
                if same_text(key.as_str(), "help") {
                    cli.help = true;
                    assert(cli@ =~= CliView { help: true, ..before });
                    i = i + 1;
                } else {
                    let value: String = match inline {
                        Some(value) => {
                            i = i + 1;
                            value
                        },
                        None => {
                            if i + 1 >= args.len() {
                                return Err(ConfigError::MissingValue { key });
                            }
                            let value = args[i + 1].clone();
                            assert(rest[1] == value@);
                            assert(rest.skip(2) =~= all.subrange(i + 2, all.len() as int));
                            i = i + 2;
                            value
                        },
                    };
                    let ghost key_text = key@;
                    let ghost value_text = value@;
                    if same_text(key.as_str(), KEY_CONFIG) {
                        cli.config_file = Some(value);
                    } else {
                        cli.settings.insert(key, value);
                    }
                    assert(cli@ =~= with_option(before, key_text, value_text));
                }
            },
        }
    }
    assert(all.subrange(i as int, all.len() as int) =~= seq![]);
    assert(whole == Ok::<(CliView, Seq<Seq<char>>), ConfigFault>((cli@, texts(positionals@))));
    if positionals.len() > 2 {
        return Err(ConfigError::UnexpectedArgument { value: positionals[2].clone() });
    }
    let ghost before = cli@;
    let bound = cli.settings.get(KEY_BIND).is_some();
    if positionals.len() > 0 {
        cli.settings.insert_new(KEY_MODE.to_owned(), positionals[0].clone());
    }
    if positionals.len() > 1 && !bound {
        cli.settings.insert_new(KEY_PORT.to_owned(), positionals[1].clone());
    }
    proof {
        let done = with_positionals(before.settings, texts(positionals@));
        assert(cli@.settings =~= done);
        assert(cli@ =~= CliView { settings: done, ..before });
    }
    Ok(cli)
}

/// The key that a variable of the environment names, without its prefix.
pub open spec fn variable_key(name: Seq<char>) -> Seq<char> {
    name.map_values(|c: char| lowered(c)).map_values(|c: char| if c == '_' { '-' } else { c })
}

/// The settings that the first `n` variables make: those with the prefix, each
/// over what an earlier one set.
pub open spec fn environment(vars: Seq<(String, String)>, n: int) -> Map<Seq<char>, Seq<char>>
    decreases n,
{
    if n <= 0 {
        Map::empty()
    } else {
        let name = vars[n - 1].0@;
        if ENV_PREFIX@.is_prefix_of(name) {
            environment(vars, n - 1).insert(
                variable_key(name.subrange(ENV_PREFIX@.len() as int, name.len() as int)),
                vars[n - 1].1@,
            )
        } else {
            environment(vars, n - 1)
        }
    }
}

/// Turn `GREENTD_TICK_HZ=60` into the key `tick-hz`. Variables outside the
/// prefix are ignored, because the environment is shared; variables inside it
/// name keys.
pub fn settings_from_env(vars: &Vec<(String, String)>) -> (settings: Settings)
    ensures
        settings.wf(),
        settings@ == environment(vars@, vars@.len() as int),
{
    let mut settings = Settings::new();
    let mut i: usize = 0;
    while i < vars.len()
        invariant
            i <= vars@.len(),
            settings.wf(),
            settings@ == environment(vars@, i as int),
        decreases vars@.len() - i,
    {
        if let Some(key) = strip_prefix(vars[i].0.as_str(), ENV_PREFIX) {
            let small = lower(key.as_str());
            settings.insert(replace(small.as_str(), '_', '-'), vars[i].1.clone());
        }
        i = i + 1;
    }
    settings
}

/// What a line of a config file says, without its comment and the white space
/// around it.
pub open spec fn line_content(line: Seq<char>) -> Seq<char> {
    trimmed(line.subrange(0, find(line, '#')))
}

/// A value without one matching pair of surrounding double quotes.
pub open spec fn unquoted(value: Seq<char>) -> Seq<char> {
    if value.len() >= 2 && value[0] == '"' && value.last() == '"' {
        value.subrange(1, value.len() - 1)
    } else {
        value
    }
}

/// Reads a config file from line `line` on, over the settings read so far.
pub open spec fn read_lines(
    path: Seq<char>,
    text: Seq<char>,
    line: int,
    settings: Map<Seq<char>, Seq<char>>,
) -> Result<Map<Seq<char>, Seq<char>>, ConfigFault>
    decreases text.len(),
{
    proof {
        lemma_find(text, '\n');
    }
    let end = find(text, '\n');
    let content = line_content(text.subrange(0, end));
    let at = find(content, '=');
    if text.len() == 0 {
        Ok(settings)
    } else if content.len() > 0 && at >= content.len() {
        Err(
            ConfigFault::Line { path, line, message: "expected `key = value`, found "@ + quotation(content) },
        )
    } else {
        let read = if content.len() == 0 {
            settings
        } else {
            settings.insert(
                trimmed(content.subrange(0, at)).map_values(|c: char| lowered(c)),
                unquoted(trimmed(content.subrange(at + 1, content.len() as int))),
            )
        };
        if end < text.len() {
            read_lines(path, text.subrange(end + 1, text.len() as int), line + 1, read)
        } else {
            Ok(read)
        }
    }
}

/// Drop one matching pair of surrounding double quotes, if there is one.
fn unquote(value: &str) -> (r: String)
    ensures
        r@ == unquoted(value@),
{
    let chars = characters(value);
    let n: usize = chars.len();
    if n >= 2 && chars[0] == '"' && chars[n - 1] == '"' {
        text_of(&chars, 1, n - 1)
    } else {
        assert(chars@.subrange(0, n as int) =~= chars@);
        text_of(&chars, 0, n)
    }
}

/// Reads the text of a config file: one `key = value` per line, `#` starts a
/// comment, blank lines are ignored, and a value may be wrapped in double
/// quotes. `path` is what a refusal names.
pub fn file_settings(path: &str, text: &str) -> (r: Result<Settings, ConfigError>)
    ensures
        match r {
            Ok(settings) => settings.wf() && read_lines(path@, text@, 1, Map::empty()) == Ok::<
                Map<Seq<char>, Seq<char>>,
                ConfigFault,
            >(settings@),
            Err(err) => read_lines(path@, text@, 1, Map::empty()) == Err::<Map<Seq<char>, Seq<char>>, ConfigFault>(err@),
        },
{
    let ghost whole = read_lines(path@, text@, 1, Map::empty());
    let size: usize = characters(text).len();
    let mut settings = Settings::new();
    let mut rest: String = text.to_owned();
    let mut line: usize = 0;
    let mut more = true;
    while more
        invariant
            settings.wf(),
            size == text@.len(),
            line + rest@.len() <= size,
            more ==> whole == read_lines(path@, rest@, line + 1, settings@),
            !more ==> whole == Ok::<Map<Seq<char>, Seq<char>>, ConfigFault>(settings@),
            whole == read_lines(path@, text@, 1, Map::empty()),
        decreases rest@.len() + (if more { 1int } else { 0 }),
    {
        let chars = characters(rest.as_str());
        if chars.len() == 0 {
            more = false;
        } else {
            let ghost before = rest@;
            proof {
                lemma_find(before, '\n');
            }
            let content = trim(up_to(up_to(rest.as_str(), '\n').as_str(), '#').as_str());
            assert(content@ == line_content(before.subrange(0, find(before, '\n'))));
            if characters(content.as_str()).len() > 0 {
                match split_once(content.as_str(), '=') {
                    None => {
                        let mut message = "expected `key = value`, found ".to_owned();
                        message.append(quoted(content.as_str()).as_str());
                        return Err(ConfigError::Line { path: path.to_owned(), line: line + 1, message });
                    },
                    Some((key, value)) => {
                        let name = lower(trim(key.as_str()).as_str());
                        settings.insert(name, unquote(trim(value.as_str()).as_str()));
                    },
                }
            }
            match split_once(rest.as_str(), '\n') {
                Some((_, tail)) => {
                    rest = tail;
                    line = line + 1;
                },
                None => {
                    more = false;
                },
            }
        }
    }
    Ok(settings)
}

// ---------------------------------------------------------------------------
// Resolution
// ---------------------------------------------------------------------------

/// The values of the layers.
pub open spec fn layer_views(layers: Seq<Settings>) -> Seq<Map<Seq<char>, Seq<char>>> {
    layers.map_values(|l: Settings| l@)
}

/// What the first of the layers that names a key says.
pub open spec fn first_value(layers: Seq<Map<Seq<char>, Seq<char>>>, key: Seq<char>) -> Option<Seq<char>>
    decreases layers.len(),
{
    if layers.len() == 0 {
        None
    } else if layers[0].contains_key(key) {
        Some(layers[0][key])
    } else {
        first_value(layers.drop_first(), key)
    }
}

/// The first `n` layers in one, each filling what the layers before it leave
/// out.
pub open spec fn merged(layers: Seq<Map<Seq<char>, Seq<char>>>, n: int) -> Map<Seq<char>, Seq<char>>
    decreases n,
{
    if n <= 0 {
        Map::empty()
    } else {
        layers[n - 1].union_prefer_right(merged(layers, n - 1))
    }
}

/// The mode that the layers ask for, a host where they ask for none.
pub open spec fn asked_mode(layers: Seq<Map<Seq<char>, Seq<char>>>) -> Option<Mode> {
    match first_value(layers, KEY_MODE@) {
        Some(value) => named_mode(value),
        None => Some(Mode::Host),
    }
}

/// The settings of a run that are still to be read: the layers over the
/// defaults, without the mode, which has been resolved, and without the config
/// file, which has been read.
pub open spec fn gathered(
    layers: Seq<Map<Seq<char>, Seq<char>>>,
    mode: Mode,
    balance_dir: Seq<char>,
) -> Map<Seq<char>, Seq<char>> {
    default_layer(mode, balance_dir).union_prefer_right(merged(layers, layers.len() as int)).remove(KEY_MODE@).remove(
        KEY_CONFIG@,
    )
}

/// How a run begins.
#[derive(Clone, Debug)]
pub enum Startup {
    /// `--help`: the caller prints [`USAGE`] and is done.
    Help,
    /// Run with these overrides, over those of the environment and of this file,
    /// if any.
    Run { settings: Settings, file: Option<String> },
}

/// How a run begins, as a value.
pub ghost enum StartupView {
    Help,
    Run(Map<Seq<char>, Seq<char>>, Option<Seq<char>>),
}

impl View for Startup {
    type V = StartupView;

    open spec fn view(&self) -> StartupView {
        match *self {
            Startup::Help => StartupView::Help,
            Startup::Run { settings, file } => StartupView::Run(
                settings@,
                match file {
                    Some(path) => Some(path@),
                    None => None,
                },
            ),
        }
    }
}

/// How a command line begins a run. `--help` is answered before any file is
/// read, so it works even when the file it would otherwise have read is broken.
/// The file is the one the command line names, or the one the environment
/// names, or the default one where it is there.
pub open spec fn beginning(cli: CliView, env: Map<Seq<char>, Seq<char>>, default_is_there: bool) -> StartupView {
    if cli.help {
        StartupView::Help
    } else {
        StartupView::Run(
            cli.settings,
            if cli.config_file is Some {
                cli.config_file
            } else if env.contains_key(KEY_CONFIG@) {
                Some(env[KEY_CONFIG@])
            } else if default_is_there {
                Some(DEFAULT_CONFIG_FILE@)
            } else {
                None
            },
        )
    }
}

/// Begin a run from its command line and its environment. Reading the file, the
/// tables and the board is up to the caller.
pub fn startup_from(args: &Vec<String>, env: &Settings, default_is_there: bool) -> (r: Result<Startup, ConfigError>)
    ensures
        match r {
            Ok(startup) => {
                &&& read_command_line(texts(args@)) matches Ok(cli) && startup@ == beginning(cli, env@, default_is_there)
                &&& startup matches Startup::Run { settings, .. } ==> settings.wf()
            },
            Err(err) => read_command_line(texts(args@)) == Err::<CliView, ConfigFault>(err@),
        },
{
    let cli = match parse_args(args) {
        Ok(cli) => cli,
        Err(err) => {
            return Err(err);
        },
    };
    if cli.help {
        return Ok(Startup::Help);
    }
    let file = match cli.config_file {
        Some(path) => Some(path),
        None => match env.get(KEY_CONFIG) {
            Some(path) => Some(path.clone()),
            None => {
                if default_is_there {
                    Some(DEFAULT_CONFIG_FILE.to_owned())
                } else {
                    None
                }
            },
        },
    };
    Ok(Startup::Run { settings: cli.settings, file })
}

/// A run's mode and the settings that are still to be read.
#[derive(Clone, Debug)]
pub struct Gathered {
    pub mode: Mode,
    pub settings: Settings,
}

/// Merges layers of overrides, highest priority first, with [`defaults`] filling
/// whatever they leave out.
///
/// The mode is read before the defaults are built, because it decides which
/// socket a client binds. Everything else is a straight first-layer-wins merge.
pub fn gather(layers: &Vec<Settings>, balance_dir: &str) -> (r: Result<Gathered, ConfigError>)
    requires
        forall|i: int| 0 <= i < layers@.len() ==> (#[trigger] layers@[i]).wf(),
    ensures
        match r {
            Ok(g) => asked_mode(layer_views(layers@)) == Some(g.mode) && g.settings.wf() && g.settings@ == gathered(
                layer_views(layers@),
                g.mode,
                balance_dir@,
            ),
            Err(err) => asked_mode(layer_views(layers@)) is None && err@ == (ConfigFault::BadValue {
                key: KEY_MODE@,
                value: first_value(layer_views(layers@), KEY_MODE@)->0,
                expected: "server | client | host"@,
            }),
        },
{
    let ghost views = layer_views(layers@);
    let mut mode: Mode = Mode::Host;
    let mut asked = false;
    let mut i: usize = 0;
    assert(views.subrange(0, views.len() as int) =~= views);
    while i < layers.len() && !asked
        invariant
            views == layer_views(layers@),
            i <= layers@.len(),
            !asked ==> mode == Mode::Host && first_value(views, KEY_MODE@) == first_value(
                views.subrange(i as int, views.len() as int),
                KEY_MODE@,
            ),
            asked ==> first_value(views, KEY_MODE@) is Some && asked_mode(views) == Some(mode),
        decreases layers@.len() - i,
    {
        proof {
            let rest = views.subrange(i as int, views.len() as int);
            assert(rest[0] == layers@[i as int]@);
            assert(rest.drop_first() =~= views.subrange(i + 1, views.len() as int));
        }
        if let Some(value) = layers[i].get(KEY_MODE) {
            match Mode::parse(value.as_str()) {
                Ok(named) => {
                    mode = named;
                    asked = true;
                },
                Err(err) => {
                    return Err(err);
                },
            }
        }
        i = i + 1;
    }
    let mut settings = Settings::new();
    let mut n: usize = 0;
    while n < layers.len()
        invariant
            views == layer_views(layers@),
            forall|i: int| 0 <= i < layers@.len() ==> (#[trigger] layers@[i]).wf(),
            n <= layers@.len(),
            settings.wf(),
            settings@ == merged(views, n as int),
        decreases layers@.len() - n,
    {
        assert(views[n as int] == layers@[n as int]@);
        settings = settings.over(&layers[n]);
        n = n + 1;
    }
    settings = settings.over(&defaults(mode, balance_dir));
    settings.remove(KEY_MODE);
    settings.remove(KEY_CONFIG);
    Ok(Gathered { mode, settings })
}

/// A number of double precision, by its bit pattern, and as it prints.
#[derive(Clone, PartialEq, Eq, Debug)]
pub struct Rate {
    pub bits: u64,
    pub text: String,
}

/// A number of single precision, and as it prints.
#[derive(Clone, PartialEq, Eq, Debug)]
pub struct Reading {
    pub value: Scalar,
    pub text: String,
}

/// A network address: a host, as it prints, and a port.
#[derive(Clone, PartialEq, Eq, Debug)]
pub struct Address {
    pub host: String,
    pub port: u16,
}

/// An address, as a value.
pub ghost struct AddressView {
    pub host: Seq<char>,
    pub port: u16,
}

impl View for Address {
    type V = AddressView;

    open spec fn view(&self) -> AddressView {
        AddressView { host: self.host@, port: self.port }
    }
}

impl Address {
    fn copy(&self) -> (r: Address)
        ensures
            r@ == self@,
    {
        Address { host: self.host.clone(), port: self.port }
    }
}

/// What the caller read of the values that are numbers with a fraction, or
/// addresses; nothing where one could not be read.
#[derive(Clone, PartialEq, Eq, Debug)]
pub struct Readings {
    pub tick_hz: Option<Rate>,
    pub server: Option<Address>,
    pub bind: Option<Address>,
    pub commands_per_second: Option<Reading>,
}

/// The configuration of one run.
#[derive(Clone, PartialEq, Eq, Debug)]
pub struct Config {
    /// Which roles this process plays.
    pub mode: Mode,
    /// Simulation rate, in ticks per second, by its double-precision pattern.
    pub tick_hz: u64,
    /// The host a client joins. Unread by a dedicated server.
    pub server_addr: Address,
    /// The local socket this process binds.
    pub bind_addr: Address,
    /// Map identifier.
    pub map: String,
    /// Directory holding the balance tables.
    pub balance_dir: String,
    /// A tracing filter. Empty keeps the default filter.
    pub log_filter: String,
    /// Directory this match's log file goes in, or nothing for no file.
    pub log_dir: Option<String>,
    /// Command budget: sustained commands per second, per peer.
    pub commands_per_second: Scalar,
    /// Command budget: the burst one peer may spend in one frame.
    pub command_burst: u32,
    /// This client's pinned player identity, or nothing to generate one. Never
    /// zero, which stands for no player.
    pub player_id: Option<u64>,
}

/// The configuration of one run, as a value.
pub ghost struct ConfigView {
    pub mode: Mode,
    pub tick_hz: u64,
    pub server_addr: AddressView,
    pub bind_addr: AddressView,
    pub map: Seq<char>,
    pub balance_dir: Seq<char>,
    pub log_filter: Seq<char>,
    pub log_dir: Option<Seq<char>>,
    pub commands_per_second: Scalar,
    pub command_burst: u32,
    pub player_id: Option<u64>,
}

impl View for Config {
    type V = ConfigView;

    open spec fn view(&self) -> ConfigView {
        ConfigView {
            mode: self.mode,
            tick_hz: self.tick_hz,
            server_addr: self.server_addr@,
            bind_addr: self.bind_addr@,
            map: self.map@,
            balance_dir: self.balance_dir@,
            log_filter: self.log_filter@,
            log_dir: match self.log_dir {
                Some(dir) => Some(dir@),
                None => None,
            },
            commands_per_second: self.commands_per_second,
            command_burst: self.command_burst,
            player_id: self.player_id,
        }
    }
}

/// The socket the server half of a run binds: where a host's own client dials, and
/// a dedicated server's own.
pub open spec fn serving_addr(run: ConfigView) -> AddressView {
    if run.mode == Mode::Host {
        run.server_addr
    } else {
        run.bind_addr
    }
}

impl Config {
    /// The socket the server half of this process binds.
    ///
    /// A dedicated server binds [`Config::bind_addr`]. A *host*, which is both
    /// roles in one process, instead serves on [`Config::server_addr`] -- the
    /// very address its own client dials.
    pub fn server_bind_addr(&self) -> (addr: Address)
        ensures
            addr@ == serving_addr(self@),
    {
        match self.mode {
            Mode::Host => self.server_addr.copy(),
            Mode::Server | Mode::Client => self.bind_addr.copy(),
        }
    }
}

/// The pattern of a double-precision number that is finite and positive.
pub open spec fn positive_rate(bits: u64) -> bool {
    0 < bits < 0x7FF0_0000_0000_0000
}

/// A whole number of at most `most`, white space around it aside.
pub open spec fn whole_setting(value: Seq<char>, most: nat) -> Option<nat> {
    match spelled(trimmed(value)) {
        Some(n) if n <= most => Some(n),
        _ => None,
    }
}

/// A refusal of a value.
pub open spec fn bad(key: Seq<char>, value: Seq<char>, expected: Seq<char>) -> Result<ConfigView, ConfigFault> {
    Err(ConfigFault::BadValue { key, value, expected })
}

/// A refusal of a key that has no value.
pub open spec fn missing(key: Seq<char>) -> Result<ConfigView, ConfigFault> {
    Err(ConfigFault::Missing { key })
}

/// The settings that nothing reads.
pub open spec fn unread(m: Map<Seq<char>, Seq<char>>) -> Map<Seq<char>, Seq<char>> {
    m.remove(KEY_TICK_HZ@).remove(KEY_SERVER@).remove(KEY_BIND@).remove(KEY_PORT@).remove(KEY_MAP@).remove(
        KEY_BALANCE_DIR@,
    ).remove(KEY_LOG@).remove(KEY_LOG_DIR@).remove(KEY_COMMANDS_PER_SECOND@).remove(KEY_COMMAND_BURST@).remove(
        KEY_PLAYER_ID@,
    )
}

/// The run that settings describe, given what was read of them; or the first
/// thing wrong with them. Values are read in order, then checked, and a key that
/// nothing reads is reported last.
pub open spec fn resolved(mode: Mode, m: Map<Seq<char>, Seq<char>>, r: Readings) -> Result<ConfigView, ConfigFault> {
    let port = whole_setting(m[KEY_PORT@], u16::MAX as nat);
    let burst = whole_setting(m[KEY_COMMAND_BURST@], u32::MAX as nat);
    let id = whole_setting(m[KEY_PLAYER_ID@], u64::MAX as nat);
    if !m.contains_key(KEY_TICK_HZ@) {
        missing(KEY_TICK_HZ@)
    } else if r.tick_hz is None {
        bad(KEY_TICK_HZ@, m[KEY_TICK_HZ@], "a number"@)
    } else if !m.contains_key(KEY_SERVER@) {
        missing(KEY_SERVER@)
    } else if r.server is None {
        bad(KEY_SERVER@, m[KEY_SERVER@], "an address like 127.0.0.1:5000"@)
    } else if !m.contains_key(KEY_BIND@) {
        missing(KEY_BIND@)
    } else if r.bind is None {
        bad(KEY_BIND@, m[KEY_BIND@], "an address like 127.0.0.1:5000"@)
    } else if m.contains_key(KEY_PORT@) && port is None {
        bad(KEY_PORT@, m[KEY_PORT@], "a port number"@)
    } else if !m.contains_key(KEY_MAP@) {
        missing(KEY_MAP@)
    } else if !m.contains_key(KEY_BALANCE_DIR@) {
        missing(KEY_BALANCE_DIR@)
    } else if !m.contains_key(KEY_LOG@) {
        missing(KEY_LOG@)
    } else if !m.contains_key(KEY_LOG_DIR@) {
        missing(KEY_LOG_DIR@)
    } else if !m.contains_key(KEY_COMMANDS_PER_SECOND@) {
        missing(KEY_COMMANDS_PER_SECOND@)
    } else if r.commands_per_second is None {
        bad(KEY_COMMANDS_PER_SECOND@, m[KEY_COMMANDS_PER_SECOND@], "a number"@)
    } else if !m.contains_key(KEY_COMMAND_BURST@) {
        missing(KEY_COMMAND_BURST@)
    } else if burst is None {
        bad(KEY_COMMAND_BURST@, m[KEY_COMMAND_BURST@], "a non-negative integer"@)
    } else if m.contains_key(KEY_PLAYER_ID@) && (id is None || id == Some(0nat)) {
        bad(KEY_PLAYER_ID@, m[KEY_PLAYER_ID@], "a non-zero integer"@)
    } else if !positive_rate(r.tick_hz->0.bits) {
        bad(KEY_TICK_HZ@, r.tick_hz->0.text@, "a positive number of ticks per second"@)
    } else if !r.commands_per_second->0.value.finite() || less(r.commands_per_second->0.value, zero()) {
        bad(
            KEY_COMMANDS_PER_SECOND@,
            r.commands_per_second->0.text@,
            "a non-negative number of commands per second"@,
        )
    } else if burst == Some(0nat) {
        bad(KEY_COMMAND_BURST@, decimal(0), "a positive number of commands"@)
    } else if unread(m) != Map::<Seq<char>, Seq<char>>::empty() {
        Err(ConfigFault::UnknownKey { key: choose|key: Seq<char>| first_of(unread(m), key) })
    } else {
        Ok(
            ConfigView {
                mode,
                tick_hz: r.tick_hz->0.bits,
                server_addr: r.server->0@,
                bind_addr: AddressView {
                    host: r.bind->0.host@,
                    port: if m.contains_key(KEY_PORT@) { port->0 as u16 } else { r.bind->0.port },
                },
                map: m[KEY_MAP@],
                balance_dir: m[KEY_BALANCE_DIR@],
                log_filter: m[KEY_LOG@],
                log_dir: if trimmed(m[KEY_LOG_DIR@]).len() == 0 { None } else { Some(m[KEY_LOG_DIR@]) },
                commands_per_second: r.commands_per_second->0.value,
                command_burst: burst->0 as u32,
                player_id: if m.contains_key(KEY_PLAYER_ID@) { Some(id->0 as u64) } else { None },
            },
        )
    }
}

proof fn lemma_first_is_one(m: Map<Seq<char>, Seq<char>>, a: Seq<char>, b: Seq<char>)
    requires
        first_of(m, a),
        first_of(m, b),
    ensures
        a == b,
{
    if a != b {
        assert(precedes(codes(a), codes(b)));
        assert(precedes(codes(b), codes(a)));
        lemma_precedence_is_one_way(codes(a), codes(b));
    }
}

/// Take a key out of the settings, or report that nothing supplied it.
fn take(settings: &mut Settings, key: &str) -> (r: Result<String, ConfigError>)
    requires
        old(settings).wf(),
    ensures
        final(settings).wf(),
        final(settings)@ == old(settings)@.remove(key@),
        match r {
            Ok(value) => old(settings)@.contains_key(key@) && value@ == old(settings)@[key@],
            Err(err) => !old(settings)@.contains_key(key@) && err@ == (ConfigFault::Missing { key: key@ }),
        },
{
    match settings.remove(key) {
        Some(value) => Ok(value),
        None => Err(ConfigError::Missing { key: key.to_owned() }),
    }
}

fn read_whole(value: &str, most: u64) -> (r: Option<u64>)
    ensures
        match r {
            Some(n) => whole_setting(value@, most as nat) == Some(n as nat),
            None => whole_setting(value@, most as nat) is None,
        },
{
    read_number(trim(value).as_str(), most)
}

/// Resolve the effective configuration from gathered settings.
///
/// `readings` holds what the caller read of the values with the keys
/// [`KEY_TICK_HZ`], [`KEY_SERVER`], [`KEY_BIND`] and [`KEY_COMMANDS_PER_SECOND`],
/// white space around them aside. A key still standing at the end is one that
/// nothing reads.
pub fn resolve(gathered: Gathered, readings: Readings) -> (r: Result<Config, ConfigError>)
    requires
        gathered.settings.wf(),
    ensures
        match r {
            Ok(config) => resolved(gathered.mode, gathered.settings@, readings) == Ok::<ConfigView, ConfigFault>(config@),
            Err(err) => resolved(gathered.mode, gathered.settings@, readings) == Err::<ConfigView, ConfigFault>(err@),
        },
{
    proof {
        lemma_keys_differ();
    }
    let mode = gathered.mode;
    let mut rest = gathered.settings;
    let ghost m = rest@;
    let value = match take(&mut rest, KEY_TICK_HZ) {
        Ok(value) => value,
        Err(err) => {
            return Err(err);
        },
    };
    let tick_hz = match readings.tick_hz {
        Some(rate) => rate,
        None => {
            return Err(ConfigError::bad_value(KEY_TICK_HZ, value.as_str(), "a number"));
        },
    };
    let value = match take(&mut rest, KEY_SERVER) {
        Ok(value) => value,
        Err(err) => {
            return Err(err);
        },
    };
    let server_addr = match readings.server {
        Some(addr) => addr,
        None => {
            return Err(ConfigError::bad_value(KEY_SERVER, value.as_str(), "an address like 127.0.0.1:5000"));
        },
    };
    let value = match take(&mut rest, KEY_BIND) {
        Ok(value) => value,
        Err(err) => {
            return Err(err);
        },
    };
    let bind = match readings.bind {
        Some(addr) => addr,
        None => {
            return Err(ConfigError::bad_value(KEY_BIND, value.as_str(), "an address like 127.0.0.1:5000"));
        },
    };
    let port: u16 = match rest.remove(KEY_PORT) {
        Some(value) => match read_whole(value.as_str(), u16::MAX as u64) {
            Some(n) => n as u16,
            None => {
                return Err(ConfigError::bad_value(KEY_PORT, value.as_str(), "a port number"));
            },
        },
        None => bind.port,
    };
    let map = match take(&mut rest, KEY_MAP) {
        Ok(value) => value,
        Err(err) => {
            return Err(err);
        },
    };
    let balance_dir = match take(&mut rest, KEY_BALANCE_DIR) {
        Ok(value) => value,
        Err(err) => {
            return Err(err);
        },
    };
    let log_filter = match take(&mut rest, KEY_LOG) {
        Ok(value) => value,
        Err(err) => {
            return Err(err);
        },
    };
    let log_dir = match take(&mut rest, KEY_LOG_DIR) {
        Ok(value) => value,
        Err(err) => {
            return Err(err);
        },
    };
    let value = match take(&mut rest, KEY_COMMANDS_PER_SECOND) {
        Ok(value) => value,
        Err(err) => {
            return Err(err);
        },
    };
    let pace = match readings.commands_per_second {
        Some(reading) => reading,
        None => {
            return Err(ConfigError::bad_value(KEY_COMMANDS_PER_SECOND, value.as_str(), "a number"));
        },
    };
    let value = match take(&mut rest, KEY_COMMAND_BURST) {
        Ok(value) => value,
        Err(err) => {
            return Err(err);
        },
    };
    let command_burst: u32 = match read_whole(value.as_str(), u32::MAX as u64) {
        Some(n) => n as u32,
        None => {
            return Err(ConfigError::bad_value(KEY_COMMAND_BURST, value.as_str(), "a non-negative integer"));
        },
    };
    let player_id: Option<u64> = match rest.remove(KEY_PLAYER_ID) {
        Some(value) => match read_whole(value.as_str(), u64::MAX) {
            Some(n) if n != 0 => Some(n),
            _ => {
                return Err(ConfigError::bad_value(KEY_PLAYER_ID, value.as_str(), "a non-zero integer"));
            },
        },
        None => None,
    };
    assert(rest@ == unread(m));
    if !(0 < tick_hz.bits && tick_hz.bits < 0x7FF0_0000_0000_0000) {
        return Err(
            ConfigError::bad_value(KEY_TICK_HZ, tick_hz.text.as_str(), "a positive number of ticks per second"),
        );
    }
    if !pace.value.is_finite() || pace.value.lt(zero()) {
        return Err(
            ConfigError::bad_value(
                KEY_COMMANDS_PER_SECOND,
                pace.text.as_str(),
                "a non-negative number of commands per second",
            ),
        );
    }
    if command_burst == 0 {
        return Err(ConfigError::bad_value(KEY_COMMAND_BURST, number(0).as_str(), "a positive number of commands"));
    }
    if let Some(key) = rest.first_key() {
        proof {
            assert(first_of(unread(m), key@));
            let chosen = choose|k: Seq<char>| first_of(unread(m), k);
            lemma_first_is_one(unread(m), key@, chosen);
        }
        return Err(ConfigError::UnknownKey { key });
    }
    let off = is_blank(log_dir.as_str());
    Ok(
        Config {
            mode,
            tick_hz: tick_hz.bits,
            server_addr,
            bind_addr: Address { host: bind.host, port },
            map,
            balance_dir,
            log_filter,
            log_dir: if off { None } else { Some(log_dir) },
            commands_per_second: pace.value,
            command_burst,
            player_id,
        },
    )
}

/// The keys differ in their lengths or in their first characters, so no two are
/// the same.
pub(crate) proof fn lemma_keys_differ()
    ensures
        KEY_MODE@.len() == 4 && KEY_MODE@[0] == 'm',
        KEY_SERVER@.len() == 6 && KEY_SERVER@[0] == 's',
        KEY_BIND@.len() == 4 && KEY_BIND@[0] == 'b',
        KEY_PORT@.len() == 4 && KEY_PORT@[0] == 'p',
        KEY_TICK_HZ@.len() == 7 && KEY_TICK_HZ@[0] == 't',
        KEY_MAP@.len() == 3 && KEY_MAP@[0] == 'm',
        KEY_BALANCE_DIR@.len() == 11 && KEY_BALANCE_DIR@[0] == 'b',
        KEY_LOG@.len() == 3 && KEY_LOG@[0] == 'l',
        KEY_LOG_DIR@.len() == 7 && KEY_LOG_DIR@[0] == 'l',
        KEY_COMMANDS_PER_SECOND@.len() == 19 && KEY_COMMANDS_PER_SECOND@[0] == 'c',
        KEY_COMMAND_BURST@.len() == 13 && KEY_COMMAND_BURST@[0] == 'c',
        KEY_PLAYER_ID@.len() == 9 && KEY_PLAYER_ID@[0] == 'p',
        KEY_CONFIG@.len() == 6 && KEY_CONFIG@[0] == 'c',
{
    reveal_strlit("mode");
    reveal_strlit("server");
    reveal_strlit("bind");
    reveal_strlit("port");
    reveal_strlit("tick-hz");
    reveal_strlit("map");
    reveal_strlit("balance-dir");
    reveal_strlit("log");
    reveal_strlit("log-dir");
    reveal_strlit("commands-per-second");
    reveal_strlit("command-burst");
    reveal_strlit("player-id");
    reveal_strlit("config");
}

// ---------------------------------------------------------------------------
// The board and the towers
// ---------------------------------------------------------------------------

/// The shortest reach among the first `n` towers, at least one.
pub open spec fn shortest_reach(towers: Seq<TowerView>, n: int) -> Scalar
    decreases n,
{
    if n <= 1 {
        towers[0].range
    } else {
        let before = shortest_reach(towers, n - 1);
        if place(before) <= place(towers[n - 1].range) {
            before
        } else {
            towers[n - 1].range
        }
    }
}

/// The board that a map setting stands for: the one it names, or the shipped one
/// where it is the default.
pub open spec fn board_named(map: Seq<char>) -> Seq<char> {
    if map == DEFAULT_MAP@ {
        DEFAULT_MAP_ID@
    } else {
        map
    }
}

/// The board a run plays: the one it names, or the shipped one where it left the
/// default alone.
pub fn board_id(config: &Config) -> (id: String)
    ensures
        id@ == board_named(config.map@),
{
    if same_text(config.map.as_str(), DEFAULT_MAP) {
        DEFAULT_MAP_ID.to_owned()
    } else {
        config.map.clone()
    }
}

/// What is wrong between a board and the towers: the clearance keeps towers
/// farther from a lane than the shortest of them reaches.
pub open spec fn pairing_fault(clearance: Scalar, towers: Seq<TowerView>) -> Option<Fault> {
    let shortest = shortest_reach(towers, towers.len() as int);
    if towers.len() > 0 && less(shortest, clearance) {
        Some(
            Fault {
                field: PATH_CLEARANCE_KEY@,
                message: seq![
                    PieceView::Words("the board keeps towers "@),
                    PieceView::Number(clearance),
                    PieceView::Words(" units from a lane but the shortest tower reaches "@),
                    PieceView::Number(shortest),
                ],
            },
        )
    } else {
        None
    }
}

/// Refuses a board whose clearance is wider than the shortest tower's reach, at
/// which point that tower could never hit a creep.
pub fn check_map_against_balance(map: &MapData, balance: &BalanceData) -> (r: Result<(), BalanceError>)
    ensures
        reports(r, pairing_fault(map.path_clearance, balance@.towers)),
{
    if balance.towers.len() == 0 {
        return Ok(());
    }
    let ghost towers = balance@.towers;
    assert(towers[0] == balance.towers@[0]@);
    let mut shortest = balance.towers[0].range;
    let mut n: usize = 1;
    while n < balance.towers.len()
        invariant
            1 <= n <= balance.towers@.len(),
            towers == balance@.towers,
            shortest == shortest_reach(towers, n as int),
        decreases balance.towers@.len() - n,
    {
        assert(towers[n as int] == balance.towers@[n as int]@);
        if !shortest.no_later(balance.towers[n].range) {
            shortest = balance.towers[n].range;
        }
        n = n + 1;
    }
    if map.path_clearance.gt(shortest) {
        let message = Message::new("the board keeps towers ").number(map.path_clearance).words(
            " units from a lane but the shortest tower reaches ",
        ).number(shortest);
        assert(message@ =~= pairing_fault(map.path_clearance, towers)->0.message);
        Err(BalanceError::invalid(PATH_CLEARANCE_KEY.to_owned(), message))
    } else {
        Ok(())
    }
}

// ---------------------------------------------------------------------------
// Laws
// ---------------------------------------------------------------------------

proof fn lemma_first_value_of_more(
    layers: Seq<Map<Seq<char>, Seq<char>>>,
    last: Map<Seq<char>, Seq<char>>,
    key: Seq<char>,
)
    ensures
        first_value(layers.push(last), key) == (if first_value(layers, key) is Some {
            first_value(layers, key)
        } else if last.contains_key(key) {
            Some(last[key])
        } else {
            None
        }),
    decreases layers.len(),
{
    let more = layers.push(last);
    if layers.len() > 0 {
        assert(more.drop_first() =~= layers.drop_first().push(last));
        lemma_first_value_of_more(layers.drop_first(), last, key);
    } else {
        assert(more.drop_first() =~= seq![]);
        assert(first_value(more.drop_first(), key) is None);
    }
}

proof fn lemma_merged(layers: Seq<Map<Seq<char>, Seq<char>>>, n: int, key: Seq<char>)
    requires
        0 <= n <= layers.len(),
    ensures
        merged(layers, n).contains_key(key) <==> first_value(layers.take(n), key) is Some,
        merged(layers, n).contains_key(key) ==> first_value(layers.take(n), key) == Some(merged(layers, n)[key]),
    decreases n,
{
    if n > 0 {
        lemma_merged(layers, n - 1, key);
        assert(layers.take(n) =~= layers.take(n - 1).push(layers[n - 1]));
        lemma_first_value_of_more(layers.take(n - 1), layers[n - 1], key);
    } else {
        assert(layers.take(0) =~= seq![]);
    }
}

/// The first layer that names a key decides it, and the defaults decide what no
/// layer names: the command line beats the environment, which beats the file,
/// which beats the defaults.
pub proof fn law_the_first_layer_wins(
    layers: Seq<Map<Seq<char>, Seq<char>>>,
    mode: Mode,
    balance_dir: Seq<char>,
    key: Seq<char>,
)
    requires
        key != KEY_MODE@,
        key != KEY_CONFIG@,
    ensures
        match first_value(layers, key) {
            Some(value) => gathered(layers, mode, balance_dir).contains_key(key) && gathered(layers, mode, balance_dir)[key]
                == value,
            None => gathered(layers, mode, balance_dir).contains_key(key) == default_layer(mode, balance_dir).contains_key(
                key,
            ) && (default_layer(mode, balance_dir).contains_key(key) ==> gathered(layers, mode, balance_dir)[key]
                == default_layer(mode, balance_dir)[key]),
        },
{
    lemma_merged(layers, layers.len() as int, key);
    assert(layers.take(layers.len() as int) =~= layers);
}

/// Every key that must have a value has one: what is gathered is never missing a
/// key, whatever the layers hold.
pub proof fn law_the_defaults_cover_every_key(
    layers: Seq<Map<Seq<char>, Seq<char>>>,
    mode: Mode,
    balance_dir: Seq<char>,
    readings: Readings,
)
    ensures
        !(resolved(mode, gathered(layers, mode, balance_dir), readings) matches Err(fault) && fault is Missing),
{
    lemma_keys_differ();
}

/// A dedicated server binds the port it serves on, and every other mode a port of
/// its own, where nothing says otherwise.
pub proof fn law_the_mode_decides_the_socket(mode: Mode, balance_dir: Seq<char>)
    ensures
        gathered(seq![], mode, balance_dir)[KEY_BIND@] == (if mode == Mode::Server {
            DEFAULT_SERVER_BIND@
        } else {
            DEFAULT_CLIENT_BIND@
        }),
{
    lemma_keys_differ();
    assert(merged(seq![], 0) =~= Map::empty());
}

/// A name that a mode prints is a name that it parses.
pub proof fn law_a_mode_parses_what_it_prints(mode: Mode)
    ensures
        named_mode(mode_name(mode)) == Some(mode),
{
    reveal_strlit("server");
    reveal_strlit("client");
    reveal_strlit("host");
    let name = mode_name(mode);
    assert(name[0] == 's' || name[0] == 'c' || name[0] == 'h');
    assert(name.last() == 'r' || name.last() == 't');
    assert(trimmed_start(name) == name);
    assert(trimmed_end(name) == name);
    assert("server"@[0] == 's' && "client"@[0] == 'c' && "host"@[0] == 'h');
}

/// An option and its value in one argument.
pub open spec fn inline_option(key: Seq<char>, value: Seq<char>) -> Seq<char> {
    "--"@ + key + "="@ + value
}

pub(crate) proof fn lemma_inline_option(key: Seq<char>, value: Seq<char>)
    requires
        !key.contains('='),
    ensures
        ({
            let arg = inline_option(key, value);
            let flag = arg.subrange("--"@.len() as int, arg.len() as int);
            &&& "--"@.is_prefix_of(arg)
            &&& find(flag, '=') == key.len()
            &&& key.len() < flag.len()
            &&& flag.subrange(0, key.len() as int) == key
            &&& flag.subrange((key.len() + 1) as int, flag.len() as int) == value
        }),
{
    reveal_strlit("--");
    reveal_strlit("=");
    let arg = inline_option(key, value);
    let flag = arg.subrange(2, arg.len() as int);
    assert(flag =~= key + "="@ + value);
    assert(flag.subrange(0, key.len() as int) =~= key);
    assert(flag.subrange((key.len() + 1) as int, flag.len() as int) =~= value);
    lemma_find(flag, '=');
    let at = find(flag, '=');
    assert(flag[key.len() as int] == '=');
    if at < key.len() {
        assert(key[at] == flag[at]);
    }
}

/// An option may be written in one argument or in two, wherever it stands.
/// `--help` takes no value, so what stands behind it is an argument of its own.
pub proof fn law_an_option_may_be_written_either_way(
    key: Seq<char>,
    value: Seq<char>,
    rest: Seq<Seq<char>>,
    cli: CliView,
    positionals: Seq<Seq<char>>,
)
    requires
        !key.contains('='),
        key != "help"@,
    ensures
        read_arguments(seq![inline_option(key, value)] + rest, cli, positionals) == read_arguments(
            seq!["--"@ + key, value] + rest,
            cli,
            positionals,
        ),
{
    lemma_inline_option(key, value);
    let one = seq![inline_option(key, value)] + rest;
    let two = seq!["--"@ + key, value] + rest;
    assert(one.drop_first() =~= rest);
    assert(two.skip(2) =~= rest);
    let arg = "--"@ + key;
    let flag = arg.subrange("--"@.len() as int, arg.len() as int);
    assert(flag =~= key);
    assert("--"@.is_prefix_of(arg)) by {
        assert(arg.subrange(0, "--"@.len() as int) =~= "--"@);
    }
    lemma_find(flag, '=');
    assert(find(flag, '=') == flag.len()) by {
        if find(flag, '=') < flag.len() {
            assert(key[find(flag, '=')] == '=');
        }
    }
    assert(flag.subrange(0, flag.len() as int) =~= key);
}

/// Options may stand in any order: two that name different keys may change
/// places, and an option may stand before a positional or behind it.
pub proof fn law_options_may_stand_in_any_order(
    k1: Seq<char>,
    v1: Seq<char>,
    k2: Seq<char>,
    v2: Seq<char>,
    word: Seq<char>,
    rest: Seq<Seq<char>>,
    cli: CliView,
    positionals: Seq<Seq<char>>,
)
    requires
        !k1.contains('='),
        !k2.contains('='),
        k1 != k2,
        !"--"@.is_prefix_of(word),
    ensures
        read_arguments(seq![inline_option(k1, v1), inline_option(k2, v2)] + rest, cli, positionals) == read_arguments(
            seq![inline_option(k2, v2), inline_option(k1, v1)] + rest,
            cli,
            positionals,
        ),
        read_arguments(seq![inline_option(k1, v1), word] + rest, cli, positionals) == read_arguments(
            seq![word, inline_option(k1, v1)] + rest,
            cli,
            positionals,
        ),
{
    reveal_with_fuel(read_arguments, 3);
    lemma_inline_option(k1, v1);
    lemma_inline_option(k2, v2);
    let a = inline_option(k1, v1);
    let b = inline_option(k2, v2);
    let one = seq![a, b] + rest;
    let two = seq![b, a] + rest;
    assert(one.drop_first().drop_first() =~= rest);
    assert(two.drop_first().drop_first() =~= rest);
    let after = |c: CliView, key: Seq<char>, value: Seq<char>|
        if key == "help"@ {
            CliView { help: true, ..c }
        } else {
            with_option(c, key, value)
        };
    assert(after(after(cli, k1, v1), k2, v2) =~= after(after(cli, k2, v2), k1, v1));
    let three = seq![a, word] + rest;
    let four = seq![word, a] + rest;
    assert(three.drop_first().drop_first() =~= rest);
    assert(four.drop_first().drop_first() =~= rest);
}

/// The letter in upper case, if it is an ASCII letter.
pub open spec fn uppered(c: char) -> char {
    if 'a' <= c <= 'z' {
        (c as u32 - 32) as char
    } else {
        c
    }
}

/// The variable of the environment that names a key: in upper case, with
/// underscores, behind the prefix.
pub open spec fn variable_name(key: Seq<char>) -> Seq<char> {
    ENV_PREFIX@ + key.map_values(|c: char| if c == '-' { '_' } else { uppered(c) })
}

/// Every option is also a variable: its value is the setting of the key, for
/// every key without capitals and underscores, which all keys that are read are.
pub proof fn law_every_option_is_a_variable(key: Seq<char>, vars: Seq<(String, String)>, n: int)
    requires
        forall|i: int| 0 <= i < key.len() ==> #[trigger] key[i] != '_' && !('A' <= key[i] <= 'Z'),
        0 <= n < vars.len(),
        vars[n].0@ == variable_name(key),
    ensures
        environment(vars, n + 1) == environment(vars, n).insert(key, vars[n].1@),
{
    let name = variable_name(key);
    let raised = key.map_values(|c: char| if c == '-' { '_' } else { uppered(c) });
    assert(name.subrange(ENV_PREFIX@.len() as int, name.len() as int) =~= raised);
    assert(name.subrange(0, ENV_PREFIX@.len() as int) =~= ENV_PREFIX@);
    let back = variable_key(raised);
    assert forall|i: int| 0 <= i < key.len() implies back[i] == key[i] by {
        let c = key[i];
        assert(raised[i] == (if c == '-' { '_' } else { uppered(c) }));
        assert(back[i] == (if lowered(raised[i]) == '_' { '-' } else { lowered(raised[i]) }));
    }
    assert(back =~= key);
}

} // verus!
