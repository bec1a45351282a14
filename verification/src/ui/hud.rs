//! The text overlay, the notices, and the input that turns a click into an
//! intent.

use crate::data::balance::{TowerDef, TowerView};
use crate::data::components::{phase_of, phase_words, MatchView, Phase, PlayerView};
use crate::data::reject::{reason, Reject};
use crate::map::laws::law_cells_survive_the_world;
use crate::map::{cell_centre, on_board, tile_at, MapData, MapView};
use crate::message::{plain, Message, PieceView};
use crate::net::messages::{ClientCmd, ServerNotice};
use crate::order::{at_most, less, zero};
use crate::scalar::{difference, Scalar};
use crate::text::{characters, decimal, number};
use crate::vector::{IVec2, Vec2};
use vstd::prelude::*;

verus! {

/// How a match ended, as the server told it.
#[derive(Clone, Copy, PartialEq, Eq, Debug, Structural)]
pub struct Defeat {
    pub wave: u32,
    pub lives: u32,
    pub leaks: u32,
}

/// Which tower the player would place next, and what the server last said.
#[derive(Clone, PartialEq, Eq, Debug)]
pub struct ClientUi {
    /// Which tower the player would place next.
    pub kind: u8,
    pub notice: String,
    /// Seconds the notice stays.
    pub notice_timer: Scalar,
    pub over: Option<Defeat>,
}

/// What a client shows, as a value.
pub ghost struct UiView {
    pub kind: u8,
    pub notice: Seq<char>,
    pub notice_timer: Scalar,
    pub over: Option<Defeat>,
}

impl View for ClientUi {
    type V = UiView;

    open spec fn view(&self) -> UiView {
        UiView { kind: self.kind, notice: self.notice@, notice_timer: self.notice_timer, over: self.over }
    }
}

impl Default for ClientUi {
    fn default() -> (ui: ClientUi)
        ensures
            ui@ == (UiView { kind: 0, notice: Seq::empty(), notice_timer: zero(), over: None }),
    {
        let notice = String::new();
        assert(notice@ =~= Seq::<char>::empty());
        ClientUi { kind: 0, notice, notice_timer: zero(), over: None }
    }
}

// ---------------------------------------------------------------------------
// Intents out
// ---------------------------------------------------------------------------

/// The keys and buttons that went down in a frame.
#[derive(Clone, Copy, PartialEq, Eq, Debug, Structural)]
pub struct Pressed {
    pub one: bool,
    pub two: bool,
    pub three: bool,
    /// Call the next wave.
    pub space: bool,
    /// Build.
    pub left: bool,
    /// Upgrade.
    pub u: bool,
    /// Sell.
    pub right: bool,
}

/// The tower that is picked after these keys. Where several went down, the
/// highest one counts.
pub open spec fn picked(kind: u8, pressed: Pressed) -> u8 {
    if pressed.three {
        2
    } else if pressed.two {
        1
    } else if pressed.one {
        0
    } else {
        kind
    }
}

/// One command, or none.
pub open spec fn perhaps(wanted: bool, cmd: ClientCmd) -> Seq<ClientCmd> {
    if wanted {
        seq![cmd]
    } else {
        Seq::empty()
    }
}

/// The cell a pointer is over.
pub open spec fn pointed_at(m: MapView, at: Vec2) -> IVec2 {
    IVec2 { x: tile_at(at.x, m.tiles_x, m.tile_size) as i32, y: tile_at(at.y, m.tiles_y, m.tile_size) as i32 }
}

/// What these keys and buttons ask for, with the pointer over a cell.
pub open spec fn asked_of_cell(pressed: Pressed, kind: u8, cell: IVec2) -> Seq<ClientCmd> {
    perhaps(pressed.left, ClientCmd::Build { x: cell.x, y: cell.y, kind }) + perhaps(
        pressed.u,
        ClientCmd::Upgrade { x: cell.x, y: cell.y },
    ) + perhaps(pressed.right, ClientCmd::Sell { x: cell.x, y: cell.y })
}

/// What these keys and buttons ask for. A pointer off the board asks nothing of
/// it.
pub open spec fn asked(m: MapView, kind: u8, pressed: Pressed, pointer: Option<Vec2>) -> Seq<ClientCmd> {
    let call = perhaps(pressed.space, ClientCmd::CallWave);
    match pointer {
        None => call,
        Some(at) => if on_board(m.tiles_x, m.tiles_y, pointed_at(m, at)) {
            call + asked_of_cell(pressed, kind, pointed_at(m, at))
        } else {
            call
        },
    }
}

/// What a frame asks for, with this tower picked before it: the pick counts at once.
pub open spec fn asked_in_frame(m: MapView, kind: u8, pressed: Pressed, pointer: Option<Vec2>) -> Seq<ClientCmd> {
    asked(m, picked(kind, pressed), pressed, pointer)
}

impl ClientUi {
    /// Turn a frame's keys and clicks into intents.
    pub fn intents(&mut self, map: &MapData, pressed: Pressed, pointer: Option<Vec2>) -> (cmds: Vec<ClientCmd>)
        ensures
            final(self)@ == (UiView { kind: picked(old(self)@.kind, pressed), ..old(self)@ }),
            cmds@ == asked_in_frame(map@, old(self)@.kind, pressed, pointer),
    {
        if pressed.one {
            self.kind = 0;
        }
        if pressed.two {
            self.kind = 1;
        }
        if pressed.three {
            self.kind = 2;
        }
        let mut cmds: Vec<ClientCmd> = Vec::new();
        if pressed.space {
            cmds.push(ClientCmd::CallWave);
        }
        let ghost call = perhaps(pressed.space, ClientCmd::CallWave);
        assert(cmds@ =~= call);
        if let Some(at) = pointer {
            let cell = map.world_to_cell(at);
            assert(cell == pointed_at(map@, at));
            if map.in_bounds(cell) {
                if pressed.left {
                    cmds.push(ClientCmd::Build { x: cell.x, y: cell.y, kind: self.kind });
                }
                if pressed.u {
                    cmds.push(ClientCmd::Upgrade { x: cell.x, y: cell.y });
                }
                if pressed.right {
                    cmds.push(ClientCmd::Sell { x: cell.x, y: cell.y });
                }
                assert(cmds@ =~= call + asked_of_cell(pressed, self.kind, cell));
            }
        }
        cmds
    }
}

// ---------------------------------------------------------------------------
// Notices in
// ---------------------------------------------------------------------------

/// Seconds a refusal stays.
#[verifier::allow_in_spec]
pub fn refusal_secs() -> Scalar
    returns
        (Scalar { bits: 0x4000_0000 }),
{
    Scalar { bits: 0x4000_0000 }
}

/// Seconds a wave's number stays.
#[verifier::allow_in_spec]
pub fn wave_secs() -> Scalar
    returns
        (Scalar { bits: 0x3FC0_0000 }),
{
    Scalar { bits: 0x3FC0_0000 }
}

/// What is shown after a notice.
pub open spec fn told(ui: UiView, notice: ServerNotice) -> UiView {
    match notice {
        ServerNotice::Done => UiView { notice: Seq::empty(), notice_timer: zero(), ..ui },
        ServerNotice::Refused(reject) => UiView { notice: reason(reject), notice_timer: refusal_secs(), ..ui },
        ServerNotice::WaveStarted(wave) => UiView {
            notice: "wave "@ + decimal(wave as nat),
            notice_timer: wave_secs(),
            ..ui
        },
        ServerNotice::GameOver { wave, lives, leaks } => UiView { over: Some(Defeat { wave, lives, leaks }), ..ui },
    }
}

/// What is shown after `dt` more seconds: a notice whose time is up goes.
pub open spec fn faded(ui: UiView, dt: Scalar) -> UiView {
    if less(zero(), ui.notice_timer) {
        let left = difference(ui.notice_timer, dt);
        UiView {
            notice_timer: left,
            notice: if at_most(left, zero()) {
                Seq::empty()
            } else {
                ui.notice
            },
            ..ui
        }
    } else {
        ui
    }
}

impl ClientUi {
    /// Take a notice.
    pub fn hear(&mut self, notice: ServerNotice)
        ensures
            final(self)@ == told(old(self)@, notice),
    {
        match notice {
            ServerNotice::Done => {
                self.notice = String::new();
                assert(self.notice@ =~= Seq::<char>::empty());
                self.notice_timer = zero();
            },
            ServerNotice::Refused(reject) => {
                self.notice = reject.text().to_owned();
                self.notice_timer = refusal_secs();
            },
            ServerNotice::WaveStarted(wave) => {
                let mut text = "wave ".to_owned();
                text.append(number(wave as u64).as_str());
                self.notice = text;
                self.notice_timer = wave_secs();
            },
            ServerNotice::GameOver { wave, lives, leaks } => {
                self.over = Some(Defeat { wave, lives, leaks });
            },
        }
    }

    /// Let a notice fade.
    pub fn decay(&mut self, dt: Scalar)
        ensures
            final(self)@ == faded(old(self)@, dt),
    {
        if self.notice_timer.gt(zero()) {
            self.notice_timer = self.notice_timer.minus(dt);
            if self.notice_timer.le(zero()) {
                self.notice = String::new();
                assert(self.notice@ =~= Seq::<char>::empty());
            }
        }
    }
}

// ---------------------------------------------------------------------------
// The overlay
// ---------------------------------------------------------------------------

/// A number in decimal, with spaces behind it up to `width` characters.
pub open spec fn filled(n: nat, width: nat) -> Seq<char> {
    let plain_text = decimal(n);
    if plain_text.len() >= width {
        plain_text
    } else {
        plain_text + Seq::new((width - plain_text.len()) as nat, |i: int| ' ')
    }
}

/// The line about the match.
pub open spec fn match_line(view: Option<MatchView>) -> Seq<char> {
    match view {
        Some(mv) => "wave "@ + filled(mv.wave as nat, 3) + "  creeps "@ + decimal(mv.live_creeps as nat) + "/"@ + decimal(
            mv.overrun_cap as nat,
        ) + "   players "@ + decimal(mv.players as nat) + "   ["@ + phase_words(phase_of(mv.phase)) + "]\n"@,
        None => "connecting...\n"@,
    }
}

/// The line about the player.
pub open spec fn player_line(me: Option<PlayerView>) -> Seq<char> {
    match me {
        Some(pv) => "gold "@ + decimal(pv.gold as nat) + "   kills "@ + decimal(pv.kills as nat) + "\n"@,
        None => Seq::empty(),
    }
}

/// The line about the picked tower, up to its range.
pub open spec fn tower_line(kind: u8, tower: TowerView) -> Seq<char> {
    "\n["@ + decimal((kind + 1) as nat) + "] "@ + tower.name + "  cost "@ + decimal(tower.cost as nat) + "   range "@
}

/// How many creeps were alive at the end, where a copy of the match is there to
/// count them: it is kept up to date past the end, for this line.
pub open spec fn final_count(view: Option<MatchView>) -> Seq<char> {
    match view {
        Some(mv) => " ("@ + decimal(mv.live_creeps as nat) + " creeps)"@,
        None => Seq::empty(),
    }
}

/// What is below the picked tower: the keys, the notice, and the end.
pub open spec fn lower_lines(ui: UiView, view: Option<MatchView>) -> Seq<char> {
    let keys = "1/2/3 pick  LMB build  U upgrade  RMB sell\n"@ + "Space: call next wave early\n"@;
    let noticed = if ui.notice.len() == 0 {
        keys
    } else {
        keys + "\n"@ + ui.notice
    };
    match ui.over {
        Some(end) => noticed + "\n\nGAME OVER - overrun at wave "@ + decimal(end.wave as nat) + final_count(view),
        None => noticed,
    }
}

/// The overlay.
pub open spec fn overlay(
    ui: UiView,
    view: Option<MatchView>,
    me: Option<PlayerView>,
    tower: Option<TowerView>,
) -> Seq<PieceView> {
    let top = match_line(view) + player_line(me);
    match tower {
        Some(t) => plain(top + tower_line(ui.kind, t)).push(PieceView::Whole(t.range)).push(
            PieceView::Words("\n"@ + lower_lines(ui, view)),
        ),
        None => plain(top).push(PieceView::Words(lower_lines(ui, view))),
    }
}

/// A number in decimal, with spaces behind it.
fn fill(n: u64, width: usize) -> (r: String)
    ensures
        r@ == filled(n as nat, width as nat),
{
    let mut r = number(n);
    let ghost start = r@;
    let len: usize = characters(r.as_str()).len();
    let mut i: usize = len;
    assert(start + Seq::new(0, |k: int| ' ') =~= start);
    while i < width
        invariant
            start == decimal(n as nat),
            len == start.len(),
            len <= i,
            i <= width || i == len,
            r@ == start + Seq::new((i - len) as nat, |k: int| ' '),
        decreases width - i,
    {
        r.push(' ');
        assert(r@ =~= start + Seq::new((i + 1 - len) as nat, |k: int| ' '));
        i = i + 1;
    }
    r
}

/// The lines above the picked tower.
fn upper_text(view: Option<&MatchView>, me: Option<&PlayerView>) -> (r: String)
    ensures
        r@ == match_line(match view {
            Some(mv) => Some(*mv),
            None => None,
        }) + player_line(match me {
            Some(pv) => Some(*pv),
            None => None,
        }),
{
    let mut r = match view {
        Some(mv) => {
            let mut r = "wave ".to_owned();
            r.append(fill(mv.wave as u64, 3).as_str());
            r.append("  creeps ");
            r.append(number(mv.live_creeps as u64).as_str());
            r.append("/");
            r.append(number(mv.overrun_cap as u64).as_str());
            r.append("   players ");
            r.append(number(mv.players as u64).as_str());
            r.append("   [");
            r.append(Phase::from_u8(mv.phase).text());
            r.append("]\n");
            r
        },
        None => "connecting...\n".to_owned(),
    };
    let ghost line = r@;
    match me {
        Some(pv) => {
            let mut l = "gold ".to_owned();
            l.append(number(pv.gold as u64).as_str());
            l.append("   kills ");
            l.append(number(pv.kills as u64).as_str());
            l.append("\n");
            r.append(l.as_str());
        },
        None => {
            assert(line + Seq::empty() =~= line);
        },
    }
    r
}

impl ClientUi {
    /// The lines below the picked tower.
    fn lower_text(&self, view: Option<&MatchView>) -> (r: String)
        ensures
            r@ == lower_lines(
                self@,
                match view {
                    Some(mv) => Some(*mv),
                    None => None,
                },
            ),
    {
        let mut r = "1/2/3 pick  LMB build  U upgrade  RMB sell\n".to_owned();
        r.append("Space: call next wave early\n");
        if characters(self.notice.as_str()).len() > 0 {
            r.append("\n");
            r.append(self.notice.as_str());
        }
        if let Some(end) = self.over {
            r.append("\n\nGAME OVER - overrun at wave ");
            r.append(number(end.wave as u64).as_str());
            let ghost line = r@;
            match view {
                Some(mv) => {
                    let mut count = " (".to_owned();
                    count.append(number(mv.live_creeps as u64).as_str());
                    count.append(" creeps)");
                    r.append(count.as_str());
                },
                None => {
                    assert(line + Seq::empty() =~= line);
                },
            }
        }
        r
    }

    /// The overlay: the match, the player, the tower they would place next, the
    /// keys, and what the server last said.
    pub fn hud(&self, view: Option<&MatchView>, me: Option<&PlayerView>, tower: Option<&TowerDef>) -> (m: Message)
        ensures
            m@ == overlay(
                self@,
                match view {
                    Some(mv) => Some(*mv),
                    None => None,
                },
                match me {
                    Some(pv) => Some(*pv),
                    None => None,
                },
                match tower {
                    Some(t) => Some(t@),
                    None => None,
                },
            ),
    {
        let mut top = upper_text(view, me);
        let lower = self.lower_text(view);
        match tower {
            Some(t) => {
                let mut line = "\n[".to_owned();
                line.append(number(self.kind as u64 + 1).as_str());
                line.append("] ");
                line.append(t.name.as_str());
                line.append("  cost ");
                line.append(number(t.cost as u64).as_str());
                line.append("   range ");
                top.append(line.as_str());
                let mut rest = "\n".to_owned();
                rest.append(lower.as_str());
                Message::new(top.as_str()).whole(t.range).words(rest.as_str())
            },
            None => Message::new(top.as_str()).words(lower.as_str()),
        }
    }
}

// ---------------------------------------------------------------------------
// Laws
// ---------------------------------------------------------------------------

/// The keys pick the towers in their order, the highest of several; no key keeps
/// the pick.
pub proof fn law_the_keys_pick_their_towers(kind: u8, pressed: Pressed)
    ensures
        ({
            let now = picked(kind, pressed);
            &&& pressed.one && !pressed.two && !pressed.three ==> now == 0
            &&& pressed.two && !pressed.three ==> now == 1
            &&& pressed.three ==> now == 2
            &&& !pressed.one && !pressed.two && !pressed.three ==> now == kind
        }),
{
}

/// A frame asks for exactly what was pressed: a wave with the space bar, and with
/// the pointer over a cell of the board a build of the picked kind, an upgrade and
/// a sale of that very cell; with the pointer anywhere else, nothing of the board.
pub proof fn law_a_click_asks_for_its_cell(m: MapView, kind: u8, pressed: Pressed, pointer: Option<Vec2>)
    ensures
        ({
            let cmds = asked(m, kind, pressed, pointer);
            let cell = pointed_at(m, pointer->0);
            let over = pointer is Some && 0 <= cell.x < m.tiles_x && 0 <= cell.y < m.tiles_y;
            let (x, y) = (cell.x, cell.y);
            &&& cmds.contains(ClientCmd::CallWave) == pressed.space
            &&& over ==> {
                &&& cmds.contains(ClientCmd::Build { x, y, kind }) == pressed.left
                &&& cmds.contains(ClientCmd::Upgrade { x, y }) == pressed.u
                &&& cmds.contains(ClientCmd::Sell { x, y }) == pressed.right
                &&& cmds.len() == count(pressed.space) + count(pressed.left) + count(pressed.u) + count(pressed.right)
            }
            &&& !over ==> cmds.len() == count(pressed.space)
        }),
{
    let call = perhaps(pressed.space, ClientCmd::CallWave);
    if pressed.space {
        assert(call[0] == ClientCmd::CallWave);
    }
    if let Some(at) = pointer {
        let cell = pointed_at(m, at);
        let (x, y) = (cell.x, cell.y);
        let builds = perhaps(pressed.left, ClientCmd::Build { x, y, kind });
        let upgrades = perhaps(pressed.u, ClientCmd::Upgrade { x, y });
        let sales = perhaps(pressed.right, ClientCmd::Sell { x, y });
        if on_board(m.tiles_x, m.tiles_y, cell) {
            let cmds = asked(m, kind, pressed, pointer);
            assert(cmds =~= call + (builds + upgrades + sales));
            assert forall|i: int| 0 <= i < cmds.len() implies {
                ||| #[trigger] cmds[i] == ClientCmd::CallWave && pressed.space
                ||| cmds[i] == (ClientCmd::Build { x, y, kind }) && pressed.left
                ||| cmds[i] == (ClientCmd::Upgrade { x, y }) && pressed.u
                ||| cmds[i] == (ClientCmd::Sell { x, y }) && pressed.right
            } by {}
            let a = call.len() as int;
            let b = a + builds.len();
            let c = b + upgrades.len();
            if pressed.space {
                assert(cmds[0] == ClientCmd::CallWave);
            }
            if pressed.left {
                assert(cmds[a] == ClientCmd::Build { x, y, kind });
            }
            if pressed.u {
                assert(cmds[b] == ClientCmd::Upgrade { x, y });
            }
            if pressed.right {
                assert(cmds[c] == ClientCmd::Sell { x, y });
            }
        }
    }
}

/// One, where something was pressed.
pub open spec fn count(pressed: bool) -> int {
    if pressed {
        1
    } else {
        0
    }
}

/// Pointing at the middle of a cell points at that cell.
pub proof fn law_the_pointer_finds_its_cell(m: MapView, cell: IVec2)
    requires
        0 <= cell.x < m.tiles_x <= 0x10_0000,
        0 <= cell.y < m.tiles_y <= 0x10_0000,
        m.tile_size.finite(),
        !m.tile_size.negative(),
        m.tile_size.value() >= 8,
        cell_centre(m, cell).x.finite(),
        cell_centre(m, cell).y.finite(),
    ensures
        pointed_at(m, cell_centre(m, cell)) == cell,
{
    law_cells_survive_the_world(cell.x, m.tiles_x, m.tile_size);
    law_cells_survive_the_world(cell.y, m.tiles_y, m.tile_size);
}

/// What the server says is what is shown: a refusal by its reason and a wave by its
/// number, each for a while; an intent that went through clears the line; and the
/// end is kept as it was told, and leaves the line alone. Nothing else changes.
pub proof fn law_a_notice_is_shown_as_it_came(ui: UiView, reject: Reject, wave: u32, lives: u32, leaks: u32)
    ensures
        ({
            let done = told(ui, ServerNotice::Done);
            let refused = told(ui, ServerNotice::Refused(reject));
            let started = told(ui, ServerNotice::WaveStarted(wave));
            let ended = told(ui, ServerNotice::GameOver { wave, lives, leaks });
            &&& done.notice.len() == 0
            &&& refused.notice == reason(reject)
            &&& less(zero(), refused.notice_timer)
            &&& started.notice.len() > decimal(wave as nat).len()
            &&& started.notice.subrange(
                started.notice.len() - decimal(wave as nat).len(),
                started.notice.len() as int,
            ) == decimal(wave as nat)
            &&& less(zero(), started.notice_timer)
            &&& ended.over matches Some(end) && end.wave == wave && end.lives == lives && end.leaks == leaks
            &&& ended.notice == ui.notice
            &&& ended.notice_timer == ui.notice_timer
            &&& done.over == ui.over && refused.over == ui.over && started.over == ui.over
            &&& done.kind == ui.kind && refused.kind == ui.kind && started.kind == ui.kind && ended.kind == ui.kind
        }),
{
    reveal_strlit("wave ");
    let started = told(ui, ServerNotice::WaveStarted(wave));
    assert(started.notice.subrange(
        started.notice.len() - decimal(wave as nat).len(),
        started.notice.len() as int,
    ) =~= decimal(wave as nat));
}

/// A notice stays while it has time left and goes when that is up; the time runs
/// down as it passes, and nothing else fades.
pub proof fn law_a_notice_fades_when_its_time_is_up(ui: UiView, dt: Scalar)
    ensures
        ({
            let left = difference(ui.notice_timer, dt);
            let then = faded(ui, dt);
            &&& less(zero(), ui.notice_timer) ==> then.notice_timer == left
            &&& less(zero(), ui.notice_timer) && less(zero(), left) ==> then.notice == ui.notice
            &&& less(zero(), ui.notice_timer) && at_most(left, zero()) ==> then.notice.len() == 0
            &&& !less(zero(), ui.notice_timer) ==> then == ui
            &&& then.kind == ui.kind
            &&& then.over == ui.over
        }),
{
}

/// A text holds another, in one piece.
pub open spec fn mentions(text: Seq<char>, part: Seq<char>) -> bool {
    exists|i: int| 0 <= i && i + part.len() <= text.len() && #[trigger] text.subrange(i, (i + part.len()) as int) == part
}

proof fn lemma_mentions(before: Seq<char>, part: Seq<char>, after: Seq<char>)
    ensures
        mentions(before + part + after, part),
{
    let text = before + part + after;
    assert(text.subrange(before.len() as int, (before.len() + part.len()) as int) =~= part);
}

/// The overlay shows what the client knows: of the match its wave, its creeps and
/// their cap, the players and the phase; of the player their gold and kills; and
/// below, the notice that stands and, at the end, the wave it came in and how many
/// creeps were left.
pub proof fn law_the_overlay_shows_what_is_known(mv: MatchView, pv: PlayerView, ui: UiView)
    ensures
        ({
            let line = match_line(Some(mv));
            &&& mentions(line, decimal(mv.wave as nat))
            &&& mentions(line, decimal(mv.live_creeps as nat) + "/"@ + decimal(mv.overrun_cap as nat))
            &&& mentions(line, "players "@ + decimal(mv.players as nat))
            &&& mentions(line, phase_words(phase_of(mv.phase)))
        }),
        mentions(player_line(Some(pv)), "gold "@ + decimal(pv.gold as nat)),
        mentions(player_line(Some(pv)), "kills "@ + decimal(pv.kills as nat)),
        player_line(None).len() == 0,
        mentions(lower_lines(ui, Some(mv)), ui.notice),
        ui.over matches Some(end) ==> {
            &&& mentions(lower_lines(ui, Some(mv)), "wave "@ + decimal(end.wave as nat))
            &&& mentions(lower_lines(ui, Some(mv)), decimal(mv.live_creeps as nat) + " creeps"@)
        },
        ui.over is None ==> lower_lines(ui, Some(mv)) == lower_lines(ui, None),
{
    let wave = decimal(mv.wave as nat);
    let spaces = filled(mv.wave as nat, 3).subrange(wave.len() as int, filled(mv.wave as nat, 3).len() as int);
    assert(filled(mv.wave as nat, 3) =~= wave + spaces);
    let live = decimal(mv.live_creeps as nat) + "/"@ + decimal(mv.overrun_cap as nat);
    let people = decimal(mv.players as nat);
    let words = phase_words(phase_of(mv.phase));
    let line = match_line(Some(mv));
    let tail = "   ["@ + words + "]\n"@;
    reveal_strlit("   players ");
    reveal_strlit("players ");
    assert("   players "@ =~= seq![' ', ' ', ' '] + "players "@);
    let a = "wave "@;
    let b = a + filled(mv.wave as nat, 3) + "  creeps "@;
    let c = b + live + seq![' ', ' ', ' '];
    assert(line =~= a + wave + (spaces + "  creeps "@ + live + "   players "@ + people + tail));
    lemma_mentions(a, wave, spaces + "  creeps "@ + live + "   players "@ + people + tail);
    assert(line =~= b + live + ("   players "@ + people + tail));
    lemma_mentions(b, live, "   players "@ + people + tail);
    assert(line =~= c + ("players "@ + people) + tail);
    lemma_mentions(c, "players "@ + people, tail);
    let d = b + live + "   players "@ + people + "   ["@;
    assert(line =~= d + words + "]\n"@);
    lemma_mentions(d, words, "]\n"@);
    lemma_player_line(pv);
    lemma_lower_lines(mv, ui);
}

proof fn lemma_player_line(pv: PlayerView)
    ensures
        mentions(player_line(Some(pv)), "gold "@ + decimal(pv.gold as nat)),
        mentions(player_line(Some(pv)), "kills "@ + decimal(pv.kills as nat)),
{
    let line = player_line(Some(pv));
    let gold = "gold "@ + decimal(pv.gold as nat);
    let kills = "kills "@ + decimal(pv.kills as nat);
    let none = Seq::<char>::empty();
    reveal_strlit("   kills ");
    reveal_strlit("kills ");
    assert("   kills "@ =~= seq![' ', ' ', ' '] + "kills "@);
    let rest = "   kills "@ + decimal(pv.kills as nat) + "\n"@;
    assert(line =~= none + gold + rest);
    lemma_mentions(none, gold, rest);
    let before = gold + seq![' ', ' ', ' '];
    assert(line =~= before + kills + "\n"@);
    lemma_mentions(before, kills, "\n"@);
}

proof fn lemma_lower_lines(mv: MatchView, ui: UiView)
    ensures
        mentions(lower_lines(ui, Some(mv)), ui.notice),
        ui.over matches Some(end) ==> {
            &&& mentions(lower_lines(ui, Some(mv)), "wave "@ + decimal(end.wave as nat))
            &&& mentions(lower_lines(ui, Some(mv)), decimal(mv.live_creeps as nat) + " creeps"@)
        },
{
    let keys = "1/2/3 pick  LMB build  U upgrade  RMB sell\n"@ + "Space: call next wave early\n"@;
    let none = Seq::<char>::empty();
    let all = lower_lines(ui, Some(mv));
    let noticed = if ui.notice.len() == 0 { keys } else { keys + "\n"@ + ui.notice };
    let before = if ui.notice.len() == 0 { keys } else { keys + "\n"@ };
    let tail = match ui.over {
        Some(end) => "\n\nGAME OVER - overrun at wave "@ + decimal(end.wave as nat) + final_count(Some(mv)),
        None => none,
    };
    assert(noticed =~= before + ui.notice);
    assert(all =~= before + ui.notice + tail);
    lemma_mentions(before, ui.notice, tail);
    if let Some(end) = ui.over {
        reveal_strlit("\n\nGAME OVER - overrun at wave ");
        reveal_strlit("wave ");
        reveal_strlit(" creeps)");
        reveal_strlit(" creeps");
        let words = "\n\nGAME OVER - overrun at wave "@;
        let start = words.subrange(0, words.len() - 5);
        assert(words =~= start + "wave "@);
        assert(" creeps)"@ =~= " creeps"@ + seq![')']);
        let wave = "wave "@ + decimal(end.wave as nat);
        let left = decimal(mv.live_creeps as nat) + " creeps"@;
        assert(all =~= (noticed + start) + wave + final_count(Some(mv)));
        lemma_mentions(noticed + start, wave, final_count(Some(mv)));
        let front = noticed + words + decimal(end.wave as nat) + " ("@;
        assert(all =~= front + left + seq![')']);
        lemma_mentions(front, left, seq![')']);
    }
}

/// The overlay shows the picked tower: by the key that picks it, its name, its cost
/// and its range, between the match and the keys. Without one it shows the rest.
pub proof fn law_the_overlay_shows_the_picked_tower(
    ui: UiView,
    view: Option<MatchView>,
    me: Option<PlayerView>,
    tower: TowerView,
)
    ensures
        mentions(tower_line(ui.kind, tower), "["@ + decimal((ui.kind + 1) as nat) + "]"@),
        mentions(tower_line(ui.kind, tower), tower.name),
        mentions(tower_line(ui.kind, tower), "cost "@ + decimal(tower.cost as nat)),
        ({
            let with = overlay(ui, view, me, Some(tower));
            let without = overlay(ui, view, me, None);
            let top = match_line(view) + player_line(me);
            &&& with.len() == 3
            &&& with[0] == PieceView::Words(top + tower_line(ui.kind, tower))
            &&& with[1] == PieceView::Whole(tower.range)
            &&& with[2] is Words && lower_lines(ui, view).is_suffix_of(with[2]->Words_0)
            &&& without == seq![PieceView::Words(top), PieceView::Words(lower_lines(ui, view))]
        }),
{
    let line = tower_line(ui.kind, tower);
    let key = decimal((ui.kind + 1) as nat);
    let cost = decimal(tower.cost as nat);
    reveal_strlit("\n[");
    reveal_strlit("[");
    reveal_strlit("] ");
    reveal_strlit("]");
    reveal_strlit("  cost ");
    reveal_strlit("cost ");
    reveal_strlit("\n");
    assert("\n["@ =~= seq!['\n'] + "["@);
    assert("] "@ =~= "]"@ + seq![' ']);
    assert("  cost "@ =~= seq![' ', ' '] + "cost "@);
    let rest = seq![' '] + tower.name + "  cost "@ + cost + "   range "@;
    assert(line =~= seq!['\n'] + ("["@ + key + "]"@) + rest);
    lemma_mentions(seq!['\n'], "["@ + key + "]"@, rest);
    let before = "\n["@ + key + "] "@;
    let after = "  cost "@ + cost + "   range "@;
    assert(line =~= before + tower.name + after);
    lemma_mentions(before, tower.name, after);
    let front = before + tower.name + seq![' ', ' '];
    assert(line =~= front + ("cost "@ + cost) + "   range "@);
    lemma_mentions(front, "cost "@ + cost, "   range "@);
    let with = overlay(ui, view, me, Some(tower));
    let low = "\n"@ + lower_lines(ui, view);
    assert(with[2] == PieceView::Words(low));
    assert(low.subrange(low.len() - lower_lines(ui, view).len(), low.len() as int) =~= lower_lines(ui, view));
    let without = overlay(ui, view, me, None);
    let top = match_line(view) + player_line(me);
    assert(without =~= seq![PieceView::Words(top), PieceView::Words(lower_lines(ui, view))]);
}

/// A tower picked and placed in one frame is the one that was picked, and one placed
/// without a pick is the one picked before.
pub proof fn law_a_pick_counts_at_once(m: MapView, kind: u8, pressed: Pressed, at: Vec2)
    requires
        pressed.left,
        0 <= pointed_at(m, at).x < m.tiles_x,
        0 <= pointed_at(m, at).y < m.tiles_y,
    ensures
        ({
            let cmds = asked_in_frame(m, kind, pressed, Some(at));
            let cell = pointed_at(m, at);
            &&& pressed.three ==> cmds.contains(ClientCmd::Build { x: cell.x, y: cell.y, kind: 2 })
            &&& pressed.two && !pressed.three ==> cmds.contains(ClientCmd::Build { x: cell.x, y: cell.y, kind: 1 })
            &&& pressed.one && !pressed.two && !pressed.three ==> cmds.contains(
                ClientCmd::Build { x: cell.x, y: cell.y, kind: 0 },
            )
            &&& !pressed.one && !pressed.two && !pressed.three ==> cmds.contains(
                ClientCmd::Build { x: cell.x, y: cell.y, kind },
            )
        }),
{
    law_the_keys_pick_their_towers(kind, pressed);
    law_a_click_asks_for_its_cell(m, picked(kind, pressed), pressed, Some(at));
}

} // verus!
