//! Run configuration: precedence, keys and refusals.
//!
//! Every test here drives `config` directly with the layers it would have built
//! from the command line, the environment and a file, so no test reads the
//! process's real arguments or environment.

use greentd::config::{self, Address, Config, ConfigError, Mode, Rate, Reading, Readings, Startup};
use greentd::scalar::Scalar;
use greentd::settings::Settings;

fn args(list: &[&str]) -> Vec<String> {
    list.iter().map(|arg| arg.to_string()).collect()
}

/// One layer of overrides, as a source would have written it.
fn layer(pairs: &[(&str, &str)]) -> Settings {
    let mut settings = Settings::new();
    for (key, value) in pairs {
        settings.insert(key.to_string(), value.to_string());
    }
    settings
}

/// An address, as a caller reads it.
fn address(text: &str) -> Option<Address> {
    let (host, port) = text.trim().rsplit_once(':')?;
    let parts: Vec<&str> = host.split('.').collect();
    if parts.len() != 4 || parts.iter().any(|part| part.parse::<u8>().is_err()) {
        return None;
    }
    Some(Address { host: host.to_string(), port: port.parse().ok()? })
}

/// How an address prints.
fn shown(address: &Address) -> String {
    format!("{}:{}", address.host, address.port)
}

/// Gather the layers, read the values that need reading, and resolve the rest.
fn resolve(layers: &[Settings]) -> Result<Config, ConfigError> {
    let layers: Vec<Settings> = layers.to_vec();
    let gathered = config::gather(&layers, "assets/balance")?;
    let value = |key: &str| gathered.settings.get(key).map(|v| v.trim().to_string());
    let readings = Readings {
        tick_hz: value(config::KEY_TICK_HZ)
            .and_then(|v| v.parse::<f64>().ok())
            .map(|v| Rate { bits: v.to_bits(), text: v.to_string() }),
        server: value(config::KEY_SERVER).and_then(|v| address(&v)),
        bind: value(config::KEY_BIND).and_then(|v| address(&v)),
        commands_per_second: value(config::KEY_COMMANDS_PER_SECOND)
            .and_then(|v| v.parse::<f32>().ok())
            .map(|v| Reading { value: Scalar { bits: v.to_bits() }, text: v.to_string() }),
    };
    config::resolve(gathered, readings)
}

fn tick_hz(config: &Config) -> f64 {
    f64::from_bits(config.tick_hz)
}

// ---------------------------------------------------------------------------
// Precedence
// ---------------------------------------------------------------------------

#[test]
fn the_command_line_beats_the_environment_beats_the_file_beats_the_default() {
    let cli = layer(&[("tick-hz", "60")]);
    let env = layer(&[("tick-hz", "50"), ("server", "10.0.0.5:5000")]);
    let file = layer(&[
        ("tick-hz", "40"),
        ("server", "10.0.0.6:5000"),
        ("map", "twin-lane"),
    ]);

    let config = resolve(&[cli, env, file]).expect("the three layers resolve");
    assert_eq!(tick_hz(&config), 60.0, "the command line answers first");
    assert_eq!(
        shown(&config.server_addr),
        "10.0.0.5:5000",
        "then the environment"
    );
    assert_eq!(config.map, "twin-lane", "then the file");

    let env_and_file = resolve(&[
        layer(&[]),
        layer(&[("tick-hz", "50")]),
        layer(&[("tick-hz", "40")]),
    ])
    .expect("resolves");
    assert_eq!(tick_hz(&env_and_file), 50.0, "then the environment");

    let file_only =
        resolve(&[layer(&[]), layer(&[]), layer(&[("tick-hz", "40")])]).expect("resolves");
    assert_eq!(tick_hz(&file_only), 40.0, "then the file");

    let nothing = resolve(&[]).expect("the defaults alone resolve");
    assert_eq!(
        tick_hz(&nothing).to_string(),
        config::DEFAULT_TICK_HZ,
        "then the defaults"
    );
    assert_eq!(nothing.mode, Mode::Host);
}

#[test]
fn the_mode_decides_which_socket_is_bound_by_default() {
    let server = resolve(&[layer(&[("mode", "server")])]).expect("server resolves");
    assert_eq!(shown(&server.bind_addr), config::DEFAULT_SERVER_BIND);
    assert_eq!(shown(&server.server_addr), config::DEFAULT_SERVER_ADDR);
    assert!(server.mode.runs_server() && !server.mode.runs_client());

    let client = resolve(&[layer(&[("mode", "client")])]).expect("client resolves");
    assert_eq!(shown(&client.bind_addr), config::DEFAULT_CLIENT_BIND);
    assert!(client.mode.runs_client() && !client.mode.runs_server());

    let host = resolve(&[]).expect("the default mode resolves");
    assert_eq!(host.mode, Mode::Host);
    assert!(host.mode.is_host() && host.mode.runs_server() && host.mode.runs_client());
}

// ---------------------------------------------------------------------------
// Refusals
// ---------------------------------------------------------------------------

#[test]
fn a_bad_value_names_the_key_and_the_value() {
    let err = resolve(&[layer(&[("tick-hz", "fast")])]).expect_err("`fast` is not a number");
    assert_eq!(
        err,
        ConfigError::BadValue {
            key: "tick-hz".to_string(),
            value: "fast".to_string(),
            expected: "a number",
        }
    );

    let message = err.text();
    assert!(message.contains("tick-hz"), "{message}");
    assert!(message.contains("fast"), "{message}");
}

#[test]
fn an_address_that_does_not_parse_names_the_key_and_the_value() {
    let err = resolve(&[layer(&[("server", "not-an-address")])])
        .expect_err("`not-an-address` is not an address");
    let message = err.text();
    assert!(message.contains("server"), "{message}");
    assert!(message.contains("not-an-address"), "{message}");
}

#[test]
fn a_key_that_nothing_reads_is_refused() {
    let err = resolve(&[layer(&[("tick", "60")])]).expect_err("`tick` is not a key");
    assert_eq!(
        err,
        ConfigError::UnknownKey {
            key: "tick".to_string(),
        }
    );
}

#[test]
fn a_nonsense_mode_is_refused() {
    let err = resolve(&[layer(&[("mode", "spectator")])]).expect_err("no such mode");
    assert!(matches!(err, ConfigError::BadValue { .. }), "{err:?}");
}

// ---------------------------------------------------------------------------
// The command line
// ---------------------------------------------------------------------------

#[test]
fn the_command_line_reaches_the_config() {
    let cli = config::parse_args(&args(&["client", "--server", "10.0.0.5:5000"]))
        .expect("the arguments parse");
    assert!(!cli.help);

    let config = resolve(&[cli.settings]).expect("resolves");
    assert_eq!(config.mode, Mode::Client);
    assert_eq!(shown(&config.server_addr), "10.0.0.5:5000");
    assert_eq!(shown(&config.bind_addr), config::DEFAULT_CLIENT_BIND);
}

#[test]
fn a_positional_port_shortens_the_bind_address() {
    let cli = config::parse_args(&args(&["client", "5200"])).expect("the arguments parse");
    let config = resolve(&[cli.settings]).expect("resolves");
    assert_eq!(config.mode, Mode::Client);
    assert_eq!(shown(&config.bind_addr), "127.0.0.1:5200");
}

#[test]
fn an_explicit_mode_beats_the_positional_one() {
    let cli =
        config::parse_args(&args(&["client", "--mode", "server"])).expect("the arguments parse");
    let config = resolve(&[cli.settings]).expect("resolves");
    assert_eq!(config.mode, Mode::Server);
}

#[test]
fn an_equals_sign_is_the_same_as_a_space() {
    let cli = config::parse_args(&args(&["--tick-hz=60"])).expect("the arguments parse");
    let config = resolve(&[cli.settings]).expect("resolves");
    assert_eq!(tick_hz(&config), 60.0);
}

#[test]
fn help_is_recorded_rather_than_resolved() {
    let cli = config::parse_args(&args(&["--help"])).expect("the arguments parse");
    assert!(cli.help);
    assert!(cli.settings.is_empty());
}

#[test]
fn a_flag_without_a_value_is_refused() {
    let err =
        config::parse_args(&args(&["client", "--server"])).expect_err("--server needs a value");
    assert_eq!(
        err,
        ConfigError::MissingValue {
            key: "server".to_string(),
        }
    );
}

#[test]
fn a_third_positional_is_refused() {
    let err = config::parse_args(&args(&["client", "5200", "extra"]))
        .expect_err("a mode and a port are the only positionals");
    assert_eq!(
        err,
        ConfigError::UnexpectedArgument {
            value: "extra".to_string(),
        }
    );
}

// ---------------------------------------------------------------------------
// The environment
// ---------------------------------------------------------------------------

#[test]
fn the_environment_names_keys_after_the_prefix() {
    let env = config::settings_from_env(&vec![
        ("GREENTD_TICK_HZ".to_string(), "60".to_string()),
        ("GREENTD_BALANCE_DIR".to_string(), "/tmp/balance".to_string()),
        ("PATH".to_string(), "/bin".to_string()),
        ("HOME".to_string(), "/root".to_string()),
    ]);

    assert_eq!(env.get("tick-hz").map(String::as_str), Some("60"));
    assert_eq!(env.get("balance-dir").map(String::as_str), Some("/tmp/balance"));
    assert_eq!(env.len(), 2, "only the prefixed variables are ours");

    let config = resolve(&[env]).expect("the environment layer resolves");
    assert_eq!(tick_hz(&config), 60.0);
    assert_eq!(config.balance_dir, "/tmp/balance");
}

// ---------------------------------------------------------------------------
// The config file
// ---------------------------------------------------------------------------

#[test]
fn a_config_file_is_key_value_with_comments_and_quotes() {
    let settings = config::file_settings(
        "greentd.conf",
        "# a comment\n\ntick-hz = 45\nmap = twin-lane   # trailing comment\nbalance-dir = \"/tmp/balance\"\n",
    )
    .expect("the file parses");
    assert_eq!(settings.get("tick-hz").map(String::as_str), Some("45"));
    assert_eq!(settings.get("map").map(String::as_str), Some("twin-lane"));
    assert_eq!(
        settings.get("balance-dir").map(String::as_str),
        Some("/tmp/balance"),
        "a value may be quoted"
    );

    let config = resolve(&[settings]).expect("the file layer resolves");
    assert_eq!(tick_hz(&config), 45.0);
    assert_eq!(config.map, "twin-lane");
}

#[test]
fn a_malformed_line_names_the_file_and_the_line() {
    let err = config::file_settings("greentd.conf", "tick-hz = 45\nnonsense\n")
        .expect_err("line 2 is not `key = value`");
    match err {
        ConfigError::Line {
            line,
            path: reported,
            ..
        } => {
            assert_eq!(line, 2);
            assert_eq!(reported, "greentd.conf");
        }
        other => panic!("expected a line error, got {other:?}"),
    }
}

#[test]
fn the_environment_can_name_the_config_file() {
    let mut env = Settings::new();
    env.insert(config::KEY_CONFIG.to_string(), "elsewhere/greentd.conf".to_string());

    let startup = config::startup_from(&args(&[]), &env, false).expect("the run resolves");
    let (cli, file) = match startup {
        Startup::Run { settings, file } => (settings, file),
        Startup::Help => panic!("no help was asked for"),
    };
    assert_eq!(file.as_deref(), Some("elsewhere/greentd.conf"));
    let file = config::file_settings("elsewhere/greentd.conf", "tick-hz = 15\n").expect("the file parses");

    let config = resolve(&[cli, env, file]).expect("the run resolves");
    assert_eq!(tick_hz(&config), 15.0);
    assert_eq!(config.mode, Mode::Host, "no mode anywhere means host");
}

#[test]
fn help_short_circuits_before_any_config_file_is_read() {
    let startup = config::startup_from(
        &args(&["--help", "--config", "/nonexistent/greentd.conf"]),
        &Settings::new(),
        true,
    )
    .expect("--help is not an error");
    assert!(matches!(startup, Startup::Help));
}

#[test]
fn the_command_line_names_the_file_before_the_environment_and_the_default() {
    let mut env = Settings::new();
    let file = |startup: Startup| match startup {
        Startup::Run { file, .. } => file,
        Startup::Help => panic!("no help was asked for"),
    };
    let run = |list: &[&str], env: &Settings, there: bool| {
        file(config::startup_from(&args(list), env, there).expect("a run"))
    };
    assert_eq!(run(&[], &env, false), None);
    assert_eq!(run(&[], &env, true).as_deref(), Some(config::DEFAULT_CONFIG_FILE));
    env.insert(config::KEY_CONFIG.to_string(), "env.conf".to_string());
    assert_eq!(run(&[], &env, true).as_deref(), Some("env.conf"));
    assert_eq!(run(&["--config", "cli.conf"], &env, true).as_deref(), Some("cli.conf"));
    assert!(config::startup_from(&args(&["--map"]), &env, true).is_err());
}

#[test]
fn a_positional_port_never_overrides_an_explicit_socket() {
    let cli = config::parse_args(&args(&["client", "5200", "--bind", "127.0.0.1:7000"])).expect("parses");
    assert_eq!(shown(&resolve(&[cli.settings]).expect("resolves").bind_addr), "127.0.0.1:7000");
    let cli = config::parse_args(&args(&["client", "5200", "--port", "7001"])).expect("parses");
    assert_eq!(shown(&resolve(&[cli.settings]).expect("resolves").bind_addr), "127.0.0.1:7001");
}

#[test]
fn a_host_serves_where_its_own_client_dials() {
    let host = resolve(&[layer(&[("server", "10.1.2.3:9000")])]).expect("resolves");
    assert_eq!(shown(&host.server_bind_addr()), "10.1.2.3:9000");
    let server = resolve(&[layer(&[("mode", "server"), ("bind", "0.0.0.0:9001")])]).expect("resolves");
    assert_eq!(shown(&server.server_bind_addr()), "0.0.0.0:9001");
}

#[test]
fn every_mode_parses_what_it_prints() {
    for mode in Mode::ALL {
        assert_eq!(Mode::parse(mode.as_str()), Ok(mode));
    }
    assert_eq!(Mode::default(), Mode::Host);
}

#[test]
fn a_run_plays_the_board_it_names_or_the_shipped_one() {
    let nothing = resolve(&[]).expect("the defaults resolve");
    assert_eq!(config::board_id(&nothing), "green_td_v36");
    let named = resolve(&[layer(&[("map", "pond")])]).expect("a named board");
    assert_eq!(config::board_id(&named), "pond");
}

#[test]
fn options_may_stand_in_any_order() {
    let one = config::parse_args(&args(&["client", "--map=pond", "--server", "10.0.0.5:5000"])).expect("parses");
    let two = config::parse_args(&args(&["--server=10.0.0.5:5000", "--map", "pond", "client"])).expect("parses");
    assert_eq!(one.settings.len(), two.settings.len());
    for key in ["map", "server", "mode"] {
        assert!(one.settings.get(key).is_some());
        assert_eq!(one.settings.get(key), two.settings.get(key));
    }
}

#[test]
fn the_defaults_alone_resolve_to_a_host() {
    let nothing = resolve(&[]).expect("the defaults resolve");
    assert_eq!(nothing.map, config::DEFAULT_MAP);
    assert_eq!(nothing.balance_dir, "assets/balance");
    assert_eq!(nothing.log_filter, "");
    assert_eq!(nothing.log_dir.as_deref(), Some("logs"));
    assert_eq!(f32::from_bits(nothing.commands_per_second.bits), 20.0);
    assert_eq!(nothing.command_burst, 16);
    assert_eq!(nothing.player_id, None);
    let defaults = config::defaults(Mode::Server, "tables");
    assert_eq!(defaults.get(config::KEY_BALANCE_DIR).map(String::as_str), Some("tables"));
}

#[test]
fn bad_numbers_are_refused_by_name() {
    for (key, value) in [
        ("tick-hz", "0"),
        ("tick-hz", "-5"),
        ("tick-hz", "inf"),
        ("commands-per-second", "-1"),
        ("commands-per-second", "NaN"),
        ("command-burst", "0"),
        ("command-burst", "many"),
        ("player-id", "0"),
        ("port", "70000"),
    ] {
        let err = resolve(&[layer(&[(key, value)])]).expect_err("not a value for that key");
        match &err {
            ConfigError::BadValue { key: named, value: shown, .. } => {
                assert_eq!(named, key);
                assert_eq!(shown, value);
            }
            other => panic!("{key} {value}: {other:?}"),
        }
    }
    let pinned = resolve(&[layer(&[("player-id", "42")])]).expect("resolves");
    assert_eq!(pinned.player_id, Some(42));
}

#[test]
fn every_refusal_prints_what_it_is_about() {
    let texts = [
        (ConfigError::UnknownKey { key: "a\"b".to_string() }, "config: unknown key \"a\\\"b\""),
        (ConfigError::MissingValue { key: "map".to_string() }, "config: --map needs a value"),
        (
            ConfigError::UnexpectedArgument { value: "x".to_string() },
            "config: unexpected argument \"x\"",
        ),
        (
            ConfigError::Io { path: "f".to_string(), message: "gone".to_string() },
            "f: gone",
        ),
        (
            ConfigError::Line { path: "f".to_string(), line: 3, message: "what".to_string() },
            "f:3: what",
        ),
        (
            ConfigError::Missing { key: "map".to_string() },
            "config: \"map\" has no value and no default",
        ),
        (
            ConfigError::BadValue { key: "mode".to_string(), value: "x".to_string(), expected: "y" },
            "config: --mode \"x\": expected y",
        ),
    ];
    for (err, want) in texts {
        assert_eq!(err.text(), want);
    }
}
