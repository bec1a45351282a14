//! What holds of every run's configuration.

use crate::config::{
    asked_mode, asks_nothing, beginning, board_named, environment, first_value, law_a_mode_parses_what_it_prints, inline_option, lemma_inline_option, lemma_keys_differ, line_content, mode_name, pairing_fault,
    plays, read_arguments, read_command_line, read_lines, resolved, serves, serving_addr, shortest_reach, unquoted, unread,
    with_positionals, CliView, ConfigFault, ConfigView, Mode, Readings, DEFAULT_MAP, ENV_PREFIX, KEY_BALANCE_DIR, KEY_BIND, KEY_COMMANDS_PER_SECOND, KEY_COMMAND_BURST,
    KEY_CONFIG, KEY_LOG, KEY_LOG_DIR, KEY_MAP, KEY_MODE, KEY_PLAYER_ID, KEY_PORT, KEY_SERVER, KEY_TICK_HZ,
};
use crate::data::balance::TowerView;
use crate::map::DEFAULT_MAP_ID;
use crate::order::{at_most, less, place, zero};
use crate::scalar::Scalar;
use crate::text::{find, lemma_find, lowered, spelled, trimmed};
use vstd::prelude::*;

verus! {

/// A run does what its settings say: every value it runs with is the one its key
/// was given, or read as. The rates make sense -- the ticks are positive, the
/// command budget is not negative and its burst is at least one -- and nobody is
/// pinned to the identity that stands for nobody.
pub proof fn law_a_run_is_what_its_settings_say(mode: Mode, m: Map<Seq<char>, Seq<char>>, r: Readings)
    requires
        resolved(mode, m, r) is Ok,
    ensures
        ({
            let run = resolved(mode, m, r)->Ok_0;
            &&& run.mode == mode
            &&& m.contains_key(KEY_MAP@) && run.map == m[KEY_MAP@]
            &&& m.contains_key(KEY_BALANCE_DIR@) && run.balance_dir == m[KEY_BALANCE_DIR@]
            &&& m.contains_key(KEY_LOG@) && run.log_filter == m[KEY_LOG@]
            &&& m.contains_key(KEY_LOG_DIR@)
            &&& trimmed(m[KEY_LOG_DIR@]).len() > 0 ==> run.log_dir == Some(m[KEY_LOG_DIR@])
            &&& trimmed(m[KEY_LOG_DIR@]).len() == 0 ==> run.log_dir is None
            &&& r.tick_hz is Some && run.tick_hz == r.tick_hz->0.bits
            &&& 0 < run.tick_hz < 0x7FF0_0000_0000_0000
            &&& r.server is Some && run.server_addr == r.server->0@
            &&& r.bind is Some && run.bind_addr.host == r.bind->0.host@
            &&& !m.contains_key(KEY_PORT@) ==> run.bind_addr.port == r.bind->0.port
            &&& m.contains_key(KEY_PORT@) ==> spelled(trimmed(m[KEY_PORT@])) == Some(run.bind_addr.port as nat)
            &&& r.commands_per_second is Some && run.commands_per_second == r.commands_per_second->0.value
            &&& run.commands_per_second.finite() && at_most(zero(), run.commands_per_second)
            &&& m.contains_key(KEY_COMMAND_BURST@) && spelled(trimmed(m[KEY_COMMAND_BURST@])) == Some(
                run.command_burst as nat,
            )
            &&& run.command_burst >= 1
            &&& !m.contains_key(KEY_PLAYER_ID@) ==> run.player_id is None
            &&& m.contains_key(KEY_PLAYER_ID@) ==> run.player_id is Some && run.player_id->0 != 0 && spelled(
                trimmed(m[KEY_PLAYER_ID@]),
            ) == Some(run.player_id->0 as nat)
        }),
{
}

/// The keys that a run reads.
pub open spec fn read_keys() -> Set<Seq<char>> {
    set![
        KEY_TICK_HZ@,
        KEY_SERVER@,
        KEY_BIND@,
        KEY_PORT@,
        KEY_MAP@,
        KEY_BALANCE_DIR@,
        KEY_LOG@,
        KEY_LOG_DIR@,
        KEY_COMMANDS_PER_SECOND@,
        KEY_COMMAND_BURST@,
        KEY_PLAYER_ID@
    ]
}

/// No key is ignored: a run that is given one that nothing reads does not start.
pub proof fn law_no_key_is_ignored(mode: Mode, m: Map<Seq<char>, Seq<char>>, r: Readings, key: Seq<char>)
    requires
        m.contains_key(key),
        !read_keys().contains(key),
    ensures
        resolved(mode, m, r) is Err,
{
    assert(unread(m).contains_key(key));
    assert(unread(m) != Map::<Seq<char>, Seq<char>>::empty());
}

/// A number that makes no sense for its key does not start a run: a port or a
/// burst that is no whole number in its range, a burst of nothing, an identity of
/// zero, a tick rate that is not positive, or a negative command rate.
pub proof fn law_a_senseless_number_is_refused(mode: Mode, m: Map<Seq<char>, Seq<char>>, r: Readings)
    ensures
        ({
            let run = resolved(mode, m, r);
            let port = spelled(trimmed(m[KEY_PORT@]));
            let burst = spelled(trimmed(m[KEY_COMMAND_BURST@]));
            let id = spelled(trimmed(m[KEY_PLAYER_ID@]));
            &&& m.contains_key(KEY_PORT@) && (port is None || port->0 > u16::MAX) ==> run is Err
            &&& burst is None || burst->0 > u32::MAX || burst->0 == 0 ==> run is Err
            &&& m.contains_key(KEY_PLAYER_ID@) && (id is None || id->0 > u64::MAX || id->0 == 0) ==> run is Err
            &&& r.tick_hz is Some && (r.tick_hz->0.bits == 0 || r.tick_hz->0.bits >= 0x7FF0_0000_0000_0000) ==> run is Err
            &&& r.commands_per_second is Some && less(r.commands_per_second->0.value, zero()) ==> run is Err
            &&& r.commands_per_second is Some && !r.commands_per_second->0.value.finite() ==> run is Err
        }),
{
}

// ---------------------------------------------------------------------------
// The command line
// ---------------------------------------------------------------------------

/// A command line of plain words is a mode and a port, in this order, and a third
/// word is one too many. An empty one asks for nothing.
pub proof fn law_plain_words_are_a_mode_and_a_port(mode: Seq<char>, port: Seq<char>, more: Seq<char>)
    requires
        !"--"@.is_prefix_of(mode),
        !"--"@.is_prefix_of(port),
        !"--"@.is_prefix_of(more),
    ensures
        read_command_line(seq![]) == Ok::<CliView, ConfigFault>(asks_nothing()),
        read_command_line(seq![mode]) matches Ok(cli) && cli.settings == Map::<Seq<char>, Seq<char>>::empty().insert(
            KEY_MODE@,
            mode,
        ) && cli.config_file is None && !cli.help,
        read_command_line(seq![mode, port]) matches Ok(cli) && cli.settings
            == Map::<Seq<char>, Seq<char>>::empty().insert(KEY_MODE@, mode).insert(KEY_PORT@, port),
        read_command_line(seq![mode, port, more]) == Err::<CliView, ConfigFault>(
            ConfigFault::UnexpectedArgument { value: more },
        ),
{
    lemma_keys_differ();
    reveal_with_fuel(read_arguments, 4);
    let none = seq![];
    assert(seq![mode].drop_first() =~= Seq::<Seq<char>>::empty());
    assert(seq![mode, port].drop_first().drop_first() =~= Seq::<Seq<char>>::empty());
    assert(seq![mode, port, more].drop_first().drop_first().drop_first() =~= Seq::<Seq<char>>::empty());
    assert(read_arguments(none, asks_nothing(), seq![]) == Ok::<(CliView, Seq<Seq<char>>), ConfigFault>(
        (asks_nothing(), seq![]),
    ));
    let empty = Map::<Seq<char>, Seq<char>>::empty();
    assert(with_positionals(empty, seq![]) =~= empty);
    let one = seq![].push(mode);
    let two = one.push(port);
    assert(with_positionals(empty, one) =~= empty.insert(KEY_MODE@, mode));
    assert(with_positionals(empty, two) =~= empty.insert(KEY_MODE@, mode).insert(KEY_PORT@, port));
}

/// An option given by name beats the same thing given by place, and a whole socket
/// beats a port.
pub proof fn law_a_named_option_beats_a_place(
    settings: Map<Seq<char>, Seq<char>>,
    positionals: Seq<Seq<char>>,
    key: Seq<char>,
)
    requires
        settings.contains_key(key),
    ensures
        with_positionals(settings, positionals).contains_key(key),
        with_positionals(settings, positionals)[key] == settings[key],
        key == KEY_BIND@ && !settings.contains_key(KEY_PORT@) ==> !with_positionals(settings, positionals).contains_key(
            KEY_PORT@,
        ),
{
    lemma_keys_differ();
}

/// An option sets its own key to its value, and no other; the last of two wins.
/// `--config` names the file instead, and `--help` only asks for help.
pub proof fn law_an_option_sets_its_key(key: Seq<char>, value: Seq<char>, rest: Seq<Seq<char>>, cli: CliView)
    requires
        !key.contains('='),
        key != "help"@,
    ensures
        ({
            let then = CliView {
                settings: if key == KEY_CONFIG@ { cli.settings } else { cli.settings.insert(key, value) },
                config_file: if key == KEY_CONFIG@ { Some(value) } else { cli.config_file },
                help: cli.help,
            };
            forall|p: Seq<Seq<char>>|
                #[trigger] read_arguments(seq![inline_option(key, value)] + rest, cli, p) == read_arguments(rest, then, p)
        }),
        forall|p: Seq<Seq<char>>|
            #[trigger] read_arguments(seq!["--help"@] + rest, cli, p) == read_arguments(
                rest,
                CliView { help: true, ..cli },
                p,
            ),
{
    lemma_inline_option(key, value);
    let args = seq![inline_option(key, value)] + rest;
    assert(args.drop_first() =~= rest);
    reveal_strlit("--help");
    reveal_strlit("--");
    reveal_strlit("help");
    let asks = seq!["--help"@] + rest;
    assert(asks.drop_first() =~= rest);
    let flag = "--help"@.subrange(2, "--help"@.len() as int);
    assert(flag =~= "help"@);
    assert("--"@.is_prefix_of("--help"@)) by {
        assert("--help"@.subrange(0, 2) =~= "--"@);
    }
    lemma_find(flag, '=');
    assert forall|i: int| 0 <= i < flag.len() implies flag[i] != '=' by {
        assert(flag[i] == "help"@[i]);
    }
    assert(find(flag, '=') == flag.len());
    assert(flag.subrange(0, flag.len() as int) =~= "help"@);
}

/// `--help` is answered whatever else is asked for. Otherwise the file is the one
/// the command line names, then the one the environment names, then the default
/// one if it is there.
pub proof fn law_the_nearest_file_is_read(cli: CliView, env: Map<Seq<char>, Seq<char>>, default_is_there: bool)
    ensures
        ({
            let start = beginning(cli, env, default_is_there);
            &&& cli.help ==> start is Help
            &&& !cli.help ==> start is Run && start->Run_0 == cli.settings
            &&& !cli.help && cli.config_file is Some ==> start->Run_1 == cli.config_file
            &&& !cli.help && cli.config_file is None && env.contains_key(KEY_CONFIG@) ==> start->Run_1 == Some(
                env[KEY_CONFIG@],
            )
            &&& !cli.help && cli.config_file is None && !env.contains_key(KEY_CONFIG@) ==> (start->Run_1 is Some)
                == default_is_there
        }),
{
}

// ---------------------------------------------------------------------------
// The environment and the file
// ---------------------------------------------------------------------------

/// A variable outside the prefix sets nothing, and no variable unsets anything.
pub proof fn law_only_prefixed_variables_count(vars: Seq<(String, String)>, n: int, key: Seq<char>)
    requires
        0 <= n < vars.len(),
    ensures
        !ENV_PREFIX@.is_prefix_of(vars[n].0@) ==> environment(vars, n + 1) == environment(vars, n),
        environment(vars, n).contains_key(key) ==> environment(vars, n + 1).contains_key(key),
        environment(vars, 0) == Map::<Seq<char>, Seq<char>>::empty(),
{
}

/// A line that is blank, or only a comment, says nothing.
pub proof fn law_a_comment_says_nothing(
    path: Seq<char>,
    line: Seq<char>,
    rest: Seq<char>,
    at: int,
    settings: Map<Seq<char>, Seq<char>>,
)
    requires
        !line.contains('\n'),
        trimmed(line.subrange(0, find(line, '#'))).len() == 0,
    ensures
        read_lines(path, line + seq!['\n'] + rest, at, settings) == read_lines(path, rest, at + 1, settings),
{
    let text = line + seq!['\n'] + rest;
    lemma_find(text, '\n');
    let end = find(text, '\n');
    assert(text[line.len() as int] == '\n');
    if end < line.len() {
        assert(line[end] == '\n');
    }
    assert(end == line.len());
    assert(text.subrange(0, end) =~= line);
    assert(text.subrange(end + 1, text.len() as int) =~= rest);
}

/// What stands behind a `#` does not count.
pub proof fn law_a_comment_ends_a_line(line: Seq<char>, comment: Seq<char>)
    requires
        !line.contains('#'),
    ensures
        line_content(line + seq!['#'] + comment) == trimmed(line),
        line_content(line) == trimmed(line),
{
    let text = line + seq!['#'] + comment;
    lemma_find(text, '#');
    assert(text[line.len() as int] == '#');
    if find(text, '#') < line.len() {
        assert(line[find(text, '#')] == '#');
    }
    assert(text.subrange(0, line.len() as int) =~= line);
    lemma_find(line, '#');
    if find(line, '#') < line.len() {
        assert(line[find(line, '#')] == '#');
    }
    assert(line.subrange(0, line.len() as int) =~= line);
}

/// A value may stand in double quotes, which are not part of it; and a value
/// without them is what it is.
pub proof fn law_quotes_are_not_part_of_a_value(value: Seq<char>)
    ensures
        unquoted(seq!['"'] + value + seq!['"']) == value,
        value.len() > 0 && value[0] != '"' ==> unquoted(value) == value,
{
    let text = seq!['"'] + value + seq!['"'];
    assert(text.subrange(1, text.len() - 1) =~= value);
}

/// A text that neither begins nor ends with white space is trimmed already.
pub open spec fn bare(s: Seq<char>) -> bool {
    trimmed(s) == s
}

/// A line `key=value` sets that key, in lower case, to that value, over what was
/// read before; it leaves every other key alone.
pub proof fn law_a_line_sets_its_key(
    path: Seq<char>,
    key: Seq<char>,
    value: Seq<char>,
    rest: Seq<char>,
    at: int,
    settings: Map<Seq<char>, Seq<char>>,
)
    requires
        !key.contains('='),
        bare(key),
        bare(value),
        bare(key + seq!['='] + value),
        ({
            let line = key + seq!['='] + value;
            !line.contains('#') && !line.contains('\n')
        }),
        value.len() > 0 && value[0] != '"',
    ensures
        read_lines(path, key + seq!['='] + value + seq!['\n'] + rest, at, settings) == read_lines(
            path,
            rest,
            at + 1,
            settings.insert(key.map_values(|c: char| lowered(c)), value),
        ),
{
    let line = key + seq!['='] + value;
    let text = line + seq!['\n'] + rest;
    assert(text =~= key + seq!['='] + value + seq!['\n'] + rest);
    lemma_find(text, '\n');
    let end = find(text, '\n');
    assert(text[line.len() as int] == '\n');
    if end < line.len() {
        assert(line[end] == '\n');
    }
    assert(text.subrange(0, end) =~= line);
    assert(text.subrange(end + 1, text.len() as int) =~= rest);
    law_a_comment_ends_a_line(line, Seq::empty());
    let content = line_content(line);
    assert(content == line);
    lemma_find(content, '=');
    let mark = find(content, '=');
    assert(content[key.len() as int] == '=');
    if mark < key.len() {
        assert(key[mark] == '=');
    }
    assert(content.subrange(0, mark) =~= key);
    assert(content.subrange(mark + 1, content.len() as int) =~= value);
    law_quotes_are_not_part_of_a_value(value);
}

// ---------------------------------------------------------------------------
// The board and the towers
// ---------------------------------------------------------------------------

proof fn lemma_shortest(towers: Seq<TowerView>, n: int)
    requires
        1 <= n <= towers.len(),
    ensures
        forall|i: int| 0 <= i < n ==> place(shortest_reach(towers, n)) <= place((#[trigger] towers[i]).range),
        exists|i: int| 0 <= i < n && shortest_reach(towers, n) == (#[trigger] towers[i]).range,
    decreases n,
{
    if n > 1 {
        lemma_shortest(towers, n - 1);
        let i = choose|i: int| 0 <= i < n - 1 && shortest_reach(towers, n - 1) == (#[trigger] towers[i]).range;
        assert(towers[i].range == shortest_reach(towers, n - 1));
        assert(towers[n - 1].range == towers[n - 1].range);
    } else {
        assert(shortest_reach(towers, n) == towers[0].range);
    }
}

/// A board and towers go together exactly when every tower reaches a lane from as
/// near as the board lets it stand.
pub proof fn law_every_tower_can_reach_a_lane(clearance: Scalar, towers: Seq<TowerView>)
    requires
        forall|i: int| 0 <= i < towers.len() ==> less(zero(), (#[trigger] towers[i]).range),
    ensures
        pairing_fault(clearance, towers) is None <==> (forall|i: int|
            0 <= i < towers.len() ==> !less((#[trigger] towers[i]).range, clearance)),
{
    if towers.len() > 0 {
        lemma_shortest(towers, towers.len() as int);
        let shortest = shortest_reach(towers, towers.len() as int);
        let k = choose|i: int| 0 <= i < towers.len() && shortest == (#[trigger] towers[i]).range;
        assert(less(zero(), towers[k].range));
        assert forall|i: int| 0 <= i < towers.len() && !less(shortest, clearance) implies !less(
            (#[trigger] towers[i]).range,
            clearance,
        ) by {
            assert(place(shortest) <= place(towers[i].range));
            assert(less(zero(), towers[i].range));
        }
    }
}

// ---------------------------------------------------------------------------
// Roles
// ---------------------------------------------------------------------------

/// Every mode serves or plays, a host does both, and no other does. A host serves
/// where its own client dials, so that it needs no second address; a dedicated
/// server serves on the socket it binds.
pub proof fn law_a_host_is_both(run: ConfigView)
    ensures
        serves(run.mode) || plays(run.mode),
        serves(run.mode) && plays(run.mode) <==> run.mode == Mode::Host,
        run.mode == Mode::Server ==> serves(run.mode) && serving_addr(run) == run.bind_addr,
        run.mode == Mode::Client ==> plays(run.mode),
        run.mode == Mode::Host ==> serving_addr(run) == run.server_addr,
{
}

/// The default map is the shipped board, and every other name is its own.
pub proof fn law_the_default_map_is_the_shipped_board(map: Seq<char>)
    ensures
        board_named(DEFAULT_MAP@) == DEFAULT_MAP_ID@,
        map != DEFAULT_MAP@ ==> board_named(map) == map,
{
}

/// A run hosts unless it is told otherwise, and then it is what the first layer that
/// says so says; a mode that does not exist is none.
pub proof fn law_a_run_hosts_unless_told(layers: Seq<Map<Seq<char>, Seq<char>>>, mode: Mode)
    ensures
        (forall|i: int| 0 <= i < layers.len() ==> !(#[trigger] layers[i]).contains_key(KEY_MODE@)) ==> asked_mode(layers)
            == Some(Mode::Host),
        layers.len() > 0 && layers[0].contains_key(KEY_MODE@) && layers[0][KEY_MODE@] == mode_name(mode) ==> asked_mode(
            layers,
        ) == Some(mode),
        layers.len() > 0 && !layers[0].contains_key(KEY_MODE@) ==> asked_mode(layers) == asked_mode(layers.drop_first()),
{
    law_a_mode_parses_what_it_prints(mode);
    if forall|i: int| 0 <= i < layers.len() ==> !(#[trigger] layers[i]).contains_key(KEY_MODE@) {
        lemma_nobody_says(layers, KEY_MODE@);
    }
}

proof fn lemma_nobody_says(layers: Seq<Map<Seq<char>, Seq<char>>>, key: Seq<char>)
    requires
        forall|i: int| 0 <= i < layers.len() ==> !(#[trigger] layers[i]).contains_key(key),
    ensures
        first_value(layers, key) is None,
    decreases layers.len(),
{
    if layers.len() > 0 {
        assert(!layers[0].contains_key(key));
        let rest = layers.drop_first();
        assert forall|i: int| 0 <= i < rest.len() implies !(#[trigger] rest[i]).contains_key(key) by {
            assert(rest[i] == layers[i + 1]);
        }
        lemma_nobody_says(rest, key);
    }
}

} // verus!
