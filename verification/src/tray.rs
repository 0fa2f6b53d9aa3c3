//! The tray icon: what it shows of the daemon, and what its menu does.

use vstd::prelude::*;

use crate::icon::IconColor;
use crate::text::same;

verus! {

/// The number of frames of one pulse.
pub const PULSE_FRAMES: usize = 16;

/// Milliseconds between two looks at the daemon.
pub const POLL_INTERVAL_MS: u64 = 500;

/// Milliseconds between two frames of a pulse.
pub const FRAME_INTERVAL_MS: u64 = 100;

/// What the tray knows of the daemon.
#[derive(Debug, Clone, Copy, PartialEq, Eq, Structural)]
pub enum TrayState {
    Stopped,
    Idle,
    Ingesting,
    Consolidating,
}

/// The process whose life is to be looked at for a process identifier from the
/// status file; none where it cannot be one.
pub fn pid_to_check(pid: u32) -> (r: Option<i32>)
    ensures
        r == (if 0 < pid <= i32::MAX {
            Some(pid as i32)
        } else {
            None::<i32>
        }),
{
    if pid > 0 && pid <= i32::MAX as u32 {
        Some(pid as i32)
    } else {
        None
    }
}

/// The state that a running daemon says it is in; idle where it says something
/// else.
pub open spec fn running_state(state: Seq<char>) -> TrayState {
    if state == "ingesting"@ {
        TrayState::Ingesting
    } else if state == "consolidating"@ {
        TrayState::Consolidating
    } else {
        TrayState::Idle
    }
}

/// The state to show for what the status file says, and whether the process is
/// alive. Without a status file, or with one that names no living process, the
/// daemon is stopped.
pub fn state_of(status: Option<(&str, u32)>, alive: bool) -> (r: TrayState)
    ensures
        r == match status {
            Some(s) => if 0 < s.1 <= i32::MAX && alive {
                running_state(s.0@)
            } else {
                TrayState::Stopped
            },
            None => TrayState::Stopped,
        },
{
    match status {
        Some((state, pid)) => {
            if pid_to_check(pid).is_none() || !alive {
                return TrayState::Stopped;
            }
            if same(state, "ingesting") {
                TrayState::Ingesting
            } else if same(state, "consolidating") {
                TrayState::Consolidating
            } else {
                TrayState::Idle
            }
        },
        None => TrayState::Stopped,
    }
}

/// The daemon is at work, and the icon pulses.
pub open spec fn is_busy(s: TrayState) -> bool {
    s == TrayState::Ingesting || s == TrayState::Consolidating
}

/// Tells whether the daemon is at work.
pub fn busy(s: TrayState) -> (r: bool)
    ensures
        r == is_busy(s),
{
    match s {
        TrayState::Ingesting => true,
        TrayState::Consolidating => true,
        _ => false,
    }
}

/// Milliseconds to the next look at the daemon.
pub fn interval_ms(s: TrayState) -> (r: u64)
    ensures
        r == (if is_busy(s) {
            FRAME_INTERVAL_MS
        } else {
            POLL_INTERVAL_MS
        }),
{
    if busy(s) {
        FRAME_INTERVAL_MS
    } else {
        POLL_INTERVAL_MS
    }
}

/// What the header of the menu says of a state.
pub open spec fn status_words(s: TrayState) -> Seq<char> {
    match s {
        TrayState::Stopped => "Stopped"@,
        TrayState::Idle => "Idle"@,
        TrayState::Ingesting => "Ingesting…"@,
        TrayState::Consolidating => "Consolidating…"@,
    }
}

/// The header of the menu.
pub fn header_text(s: TrayState) -> (r: String)
    ensures
        r@ == "Lore v0.1.0\t\t"@ + status_words(s),
{
    let mut out: String = "Lore v0.1.0\t\t".to_owned();
    out.append(
        match s {
            TrayState::Stopped => "Stopped",
            TrayState::Idle => "Idle",
            TrayState::Ingesting => "Ingesting…",
            TrayState::Consolidating => "Consolidating…",
        },
    );
    out
}

/// What the tooltip says.
pub fn tooltip(s: TrayState) -> (r: String)
    ensures
        r@ == match s {
            TrayState::Stopped => "Lore - Stopped"@,
            TrayState::Idle => "Lore - Running"@,
            TrayState::Ingesting => "Lore - Ingesting…"@,
            TrayState::Consolidating => "Lore - Consolidating…"@,
        },
{
    match s {
        TrayState::Stopped => "Lore - Stopped".to_owned(),
        TrayState::Idle => "Lore - Running".to_owned(),
        TrayState::Ingesting => "Lore - Ingesting…".to_owned(),
        TrayState::Consolidating => "Lore - Consolidating…".to_owned(),
    }
}

/// Which items of the menu can be clicked.
#[derive(Debug, Clone, Copy, PartialEq, Eq, Structural)]
pub struct MenuItems {
    pub start: bool,
    pub stop: bool,
    pub ingest: bool,
    pub consolidate: bool,
}

/// Tells which items of the menu can be clicked: a stopped daemon can be
/// started, a running one stopped, and an idle one put to work.
pub fn menu_items(s: TrayState) -> (r: MenuItems)
    ensures
        r == (MenuItems {
            start: s == TrayState::Stopped,
            stop: s != TrayState::Stopped,
            ingest: s == TrayState::Idle,
            consolidate: s == TrayState::Idle,
        }),
{
    let running: bool = match s {
        TrayState::Stopped => false,
        _ => true,
    };
    let free: bool = running && !busy(s);
    MenuItems { start: !running, stop: running, ingest: free, consolidate: free }
}

/// The sine of a frame's share of a full turn, in billionths.
pub open spec fn pulse_sine(frame: int) -> int {
    if frame == 0 || frame == 8 {
        0
    } else if frame == 1 || frame == 7 {
        382_683_432
    } else if frame == 2 || frame == 6 {
        707_106_781
    } else if frame == 3 || frame == 5 {
        923_879_533
    } else if frame == 4 {
        1_000_000_000
    } else if frame == 9 || frame == 15 {
        -382_683_432
    } else if frame == 10 || frame == 14 {
        -707_106_781
    } else if frame == 11 || frame == 13 {
        -923_879_533
    } else {
        -1_000_000_000
    }
}

/// `0.3 + 0.7 * (sine + 1) / 2` for a frame of a pulse.
pub open spec fn pulse_brightness(frame: int) -> int {
    300_000_000 + 7 * (pulse_sine(frame) + 1_000_000_000) / 20
}

/// Brightness and hue of the icon.
pub open spec fn icon_look(s: TrayState, frame: int) -> (int, IconColor) {
    match s {
        TrayState::Stopped => (150_000_000, IconColor::Red),
        TrayState::Idle => (1_000_000_000, IconColor::Red),
        TrayState::Ingesting => (pulse_brightness(frame), IconColor::Red),
        TrayState::Consolidating => (pulse_brightness(frame), IconColor::Orange),
    }
}

/// Computes the brightness of a frame of a pulse.
fn brightness_at(frame: usize) -> (r: i64)
    ensures
        r == pulse_brightness(frame as int),
        300_000_000 <= r <= 1_000_000_000,
{
    let sine: i64 = if frame == 0 || frame == 8 {
        0
    } else if frame == 1 || frame == 7 {
        382_683_432
    } else if frame == 2 || frame == 6 {
        707_106_781
    } else if frame == 3 || frame == 5 {
        923_879_533
    } else if frame == 4 {
        1_000_000_000
    } else if frame == 9 || frame == 15 {
        -382_683_432
    } else if frame == 10 || frame == 14 {
        -707_106_781
    } else if frame == 11 || frame == 13 {
        -923_879_533
    } else {
        -1_000_000_000
    };
    300_000_000 + 7 * (sine + 1_000_000_000) / 20
}

/// Tells how the icon looks.
pub fn look(s: TrayState, frame: usize) -> (r: (i64, IconColor))
    ensures
        (r.0 as int, r.1) == icon_look(s, frame as int),
        0 <= r.0 <= 1_000_000_000,
{
    match s {
        TrayState::Stopped => (150_000_000, IconColor::Red),
        TrayState::Idle => (1_000_000_000, IconColor::Red),
        TrayState::Ingesting => (brightness_at(frame), IconColor::Red),
        TrayState::Consolidating => (brightness_at(frame), IconColor::Orange),
    }
}

/// The tray: the state that is shown, and the frame of its pulse.
#[derive(Debug, Clone, Copy, PartialEq, Eq, Structural)]
pub struct Tray {
    pub state: TrayState,
    pub frame: usize,
}

/// What changes on the screen after a look at the daemon.
#[derive(Debug, Clone, Copy, PartialEq, Eq)]
pub struct Redraw {
    /// Header, tooltip and menu items change.
    pub menu: bool,
    /// The icon changes to this look.
    pub icon: Option<(i64, IconColor)>,
}

impl Tray {
    /// The tray as it starts: with a stopped daemon.
    pub fn new() -> (r: Self)
        ensures
            r == (Tray { state: TrayState::Stopped, frame: 0 }),
    {
        Tray { state: TrayState::Stopped, frame: 0 }
    }

    /// The frame is one of a pulse.
    pub open spec fn wf(&self) -> bool {
        self.frame < PULSE_FRAMES
    }

    /// Takes in a look at the daemon. A new state begins its pulse anew; while
    /// the daemon is at work, each look shows the next frame.
    pub fn observe(&mut self, new_state: TrayState) -> (r: Redraw)
        requires
            old(self).wf(),
        ensures
            final(self).wf(),
            final(self).state == new_state,
            ({
                let changed = new_state != old(self).state;
                let shown = if changed {
                    0
                } else {
                    old(self).frame as int
                };
                &&& r.menu == changed
                &&& r.icon is Some <==> changed || is_busy(new_state)
                &&& r.icon matches Some(i) ==> (i.0 as int, i.1) == icon_look(new_state, shown)
                &&& final(self).frame == if is_busy(new_state) {
                    (shown + 1) % PULSE_FRAMES as int
                } else {
                    shown
                }
            }),
    {
        let changed: bool = new_state != self.state;
        if changed {
            self.state = new_state;
            self.frame = 0;
        }
        let animating: bool = busy(new_state);
        let icon: Option<(i64, IconColor)> = if changed || animating {
            Some(look(new_state, self.frame))
        } else {
            None
        };
        if animating {
            self.frame = if self.frame + 1 == PULSE_FRAMES {
                0
            } else {
                self.frame + 1
            };
        }
        Redraw { menu: changed, icon }
    }
}

/// What a click on the menu can be.
#[derive(Debug, Clone, Copy, PartialEq, Eq, Structural)]
pub enum Click {
    Start,
    Stop,
    Ingest,
    Consolidate,
    Logs,
    Quit,
}

/// What is done about a click.
#[derive(Debug, Clone, Copy, PartialEq, Eq, Structural)]
pub enum Action {
    /// Run the daemon with an argument: `daemonize`, `stop`, `ingest` or
    /// `consolidate`.
    RunDaemon(DaemonCommand),
    ShowLogs,
    /// Leave, after the daemon is stopped if it runs.
    Exit { stop_daemon: bool },
}

/// What the daemon can be told to do.
#[derive(Debug, Clone, Copy, PartialEq, Eq, Structural)]
pub enum DaemonCommand {
    Daemonize,
    Stop,
    Ingest,
    Consolidate,
}

impl DaemonCommand {
    /// The argument for the daemon.
    pub fn as_str(&self) -> (r: &'static str)
        ensures
            r@ == match *self {
                DaemonCommand::Daemonize => "daemonize"@,
                DaemonCommand::Stop => "stop"@,
                DaemonCommand::Ingest => "ingest"@,
                DaemonCommand::Consolidate => "consolidate"@,
            },
    {
        match self {
            DaemonCommand::Daemonize => "daemonize",
            DaemonCommand::Stop => "stop",
            DaemonCommand::Ingest => "ingest",
            DaemonCommand::Consolidate => "consolidate",
        }
    }
}

/// Tells what is done about a click, with the daemon in a state.
pub fn on_click(click: Click, current: TrayState) -> (r: Action)
    ensures
        r == match click {
            Click::Start => Action::RunDaemon(DaemonCommand::Daemonize),
            Click::Stop => Action::RunDaemon(DaemonCommand::Stop),
            Click::Ingest => Action::RunDaemon(DaemonCommand::Ingest),
            Click::Consolidate => Action::RunDaemon(DaemonCommand::Consolidate),
            Click::Logs => Action::ShowLogs,
            Click::Quit => Action::Exit { stop_daemon: current != TrayState::Stopped },
        },
{
    match click {
        Click::Start => Action::RunDaemon(DaemonCommand::Daemonize),
        Click::Stop => Action::RunDaemon(DaemonCommand::Stop),
        Click::Ingest => Action::RunDaemon(DaemonCommand::Ingest),
        Click::Consolidate => Action::RunDaemon(DaemonCommand::Consolidate),
        Click::Logs => Action::ShowLogs,
        Click::Quit => Action::Exit { stop_daemon: current != TrayState::Stopped },
    }
}

/// The program to run for the daemon: the one next to the tray, the one in the
/// home directory, or whatever the search path has. Each of the first two is
/// given only where it exists.
pub fn daemon_binary(sibling: Option<String>, local: Option<String>) -> (r: String)
    ensures
        r@ == match (sibling, local) {
            (Some(s), _) => s@,
            (None, Some(l)) => l@,
            (None, None) => "lore-daemon"@,
        },
{
    match sibling {
        Some(s) => s,
        None => match local {
            Some(l) => l,
            None => "lore-daemon".to_owned(),
        },
    }
}

/// A terminal in which a log can be shown.
#[derive(Debug, Clone, Copy, PartialEq, Eq, Structural)]
pub enum Terminal {
    Default,
    Gnome,
    Konsole,
    Xfce4,
    Alacritty,
    Kitty,
    Xterm,
}

/// The program of a terminal, and its argument before a command to run in it.
pub open spec fn terminal_words(t: Terminal) -> (Seq<char>, Seq<char>) {
    match t {
        Terminal::Default => ("x-terminal-emulator"@, "-e"@),
        Terminal::Gnome => ("gnome-terminal"@, "--"@),
        Terminal::Konsole => ("konsole"@, "-e"@),
        Terminal::Xfce4 => ("xfce4-terminal"@, "-e"@),
        Terminal::Alacritty => ("alacritty"@, "-e"@),
        Terminal::Kitty => ("kitty"@, "--"@),
        Terminal::Xterm => ("xterm"@, "-e"@),
    }
}

/// The terminal to try after one could not be started; none after the last.
pub fn next_terminal(after: Option<Terminal>) -> (r: Option<Terminal>)
    ensures
        r == match after {
            None => Some(Terminal::Default),
            Some(Terminal::Default) => Some(Terminal::Gnome),
            Some(Terminal::Gnome) => Some(Terminal::Konsole),
            Some(Terminal::Konsole) => Some(Terminal::Xfce4),
            Some(Terminal::Xfce4) => Some(Terminal::Alacritty),
            Some(Terminal::Alacritty) => Some(Terminal::Kitty),
            Some(Terminal::Kitty) => Some(Terminal::Xterm),
            Some(Terminal::Xterm) => None,
        },
{
    match after {
        None => Some(Terminal::Default),
        Some(Terminal::Default) => Some(Terminal::Gnome),
        Some(Terminal::Gnome) => Some(Terminal::Konsole),
        Some(Terminal::Konsole) => Some(Terminal::Xfce4),
        Some(Terminal::Xfce4) => Some(Terminal::Alacritty),
        Some(Terminal::Alacritty) => Some(Terminal::Kitty),
        Some(Terminal::Kitty) => Some(Terminal::Xterm),
        Some(Terminal::Xterm) => None,
    }
}

/// The program and the arguments that show a log in a terminal.
pub fn log_command(terminal: Terminal, log: &str) -> (r: (String, Vec<String>))
    ensures
        r.0@ == terminal_words(terminal).0,
        crate::text::views(r.1@) == seq![terminal_words(terminal).1, "tail"@, "-f"@, log@],
{
    let words: (&str, &str) = match terminal {
        Terminal::Default => ("x-terminal-emulator", "-e"),
        Terminal::Gnome => ("gnome-terminal", "--"),
        Terminal::Konsole => ("konsole", "-e"),
        Terminal::Xfce4 => ("xfce4-terminal", "-e"),
        Terminal::Alacritty => ("alacritty", "-e"),
        Terminal::Kitty => ("kitty", "--"),
        Terminal::Xterm => ("xterm", "-e"),
    };
    let mut args: Vec<String> = Vec::new();
    args.push(words.1.to_owned());
    args.push("tail".to_owned());
    args.push("-f".to_owned());
    args.push(log.to_owned());
    assert(crate::text::views(args@) =~= seq![
        terminal_words(terminal).1,
        "tail"@,
        "-f"@,
        log@,
    ]);
    (words.0.to_owned(), args)
}

/// A daemon that stays in a state is shown with the menu unchanged, and while it
/// is at work its pulse comes round after all frames.
pub proof fn law_pulse_comes_round(frame: int, n: nat)
    requires
        0 <= frame < PULSE_FRAMES,
    ensures
        frame_after(frame, n) == (frame + n) % PULSE_FRAMES as int,
        n == PULSE_FRAMES ==> frame_after(frame, n) == frame,
    decreases n,
{
    if n > 0 {
        law_pulse_comes_round(frame, (n - 1) as nat);
    }
}

/// The frame after a number of looks at a daemon at work.
pub open spec fn frame_after(frame: int, n: nat) -> int
    decreases n,
{
    if n == 0 {
        frame
    } else {
        (frame_after(frame, (n - 1) as nat) + 1) % PULSE_FRAMES as int
    }
}

/// The pulse is a sine over sixteen frames: what half a turn later is its opposite, it
/// rises and falls alike, its square and that of a quarter turn later make one, and twice
/// the frame is twice the product of the two; up to some billionths.
pub proof fn law_pulse_is_a_sine(f: int)
    requires
        0 <= f < 16,
    ensures
        PULSE_FRAMES == 16,
        pulse_sine((f + 8) % 16) == -pulse_sine(f),
        f <= 8 ==> pulse_sine(8 - f) == pulse_sine(f),
        pulse_sine(0) == 0,
        0 < f < 8 ==> pulse_sine(f) > 0,
        -3_000_000_000 <= pulse_sine(f) * pulse_sine(f) + pulse_sine((f + 4) % 16) * pulse_sine(
            (f + 4) % 16,
        ) - 1_000_000_000_000_000_000 <= 3_000_000_000,
        -4_000_000_000 <= pulse_sine((2 * f) % 16) * 1_000_000_000 - 2 * (pulse_sine(f)
            * pulse_sine((f + 4) % 16)) <= 4_000_000_000,
{
    let (a, b) = (pulse_sine(f), pulse_sine((f + 4) % 16));
    let (x, y) = (
        if a < 0 {
            -a
        } else {
            a
        },
        if b < 0 {
            -b
        } else {
            b
        },
    );
    assert(x * y == y * x && (-x) * y == -(x * y) && x * (-y) == -(x * y) && (-x) * (-y) == x * y
        && (-x) * (-x) == x * x && (-y) * (-y) == y * y) by (nonlinear_arith);
    if x == 0 || y == 0 {
        assert(x * x + y * y == 1_000_000_000_000_000_000 && x * y == 0) by (nonlinear_arith)
            requires
                (x == 0 && y == 1_000_000_000) || (x == 1_000_000_000 && y == 0),
        ;
    } else if x == y {
        assert(x * x == 499_999_999_736_181_961 && y * y == x * x && x * y == x * x)
            by (nonlinear_arith)
            requires
                x == 707_106_781,
                y == x,
        ;
    } else {
        assert(x * x + y * y == 146_446_609_127_298_624 + 853_553_391_496_298_089 && x * y
            == 353_553_390_442_997_256) by (nonlinear_arith)
            requires
                (x == 382_683_432 && y == 923_879_533) || (x == 923_879_533 && y == 382_683_432),
        ;
    }
}

/// How bright a frame is: between 0.3 and 1.0, and the further from the middle between
/// them the larger the sine is.
pub proof fn law_pulse_brightness(f: int)
    requires
        0 <= f < 16,
    ensures
        300_000_000 <= pulse_brightness(f) <= 1_000_000_000,
        20 * (pulse_brightness(f) - 650_000_000) <= 7 * pulse_sine(f) < 20 * (pulse_brightness(f)
            - 650_000_000 + 1),
{
}

/// How the icon looks: dark for a stopped daemon and bright for an idle one; while the
/// daemon is at work it pulses, in red over conversations and in orange over the memory.
pub proof fn law_looks(s: TrayState, frame: int)
    ensures
        icon_look(TrayState::Stopped, frame) == (150_000_000int, IconColor::Red),
        icon_look(TrayState::Idle, frame) == (1_000_000_000int, IconColor::Red),
        icon_look(TrayState::Ingesting, frame) == (pulse_brightness(frame), IconColor::Red),
        icon_look(TrayState::Consolidating, frame) == (pulse_brightness(frame), IconColor::Orange),
        is_busy(s) <==> s != TrayState::Stopped && s != TrayState::Idle,
        FRAME_INTERVAL_MS == 100,
        POLL_INTERVAL_MS == 500,
{
}

/// A running daemon is shown as it says: reading conversations or consolidating, and idle
/// whatever else it says.
pub proof fn law_running_states(state: Seq<char>)
    ensures
        running_state("ingesting"@) == TrayState::Ingesting,
        running_state("consolidating"@) == TrayState::Consolidating,
        state != "ingesting"@ && state != "consolidating"@ ==> running_state(state)
            == TrayState::Idle,
        status_words(TrayState::Stopped) == "Stopped"@,
        status_words(TrayState::Idle) == "Idle"@,
        status_words(TrayState::Ingesting) == "Ingesting…"@,
        status_words(TrayState::Consolidating) == "Consolidating…"@,
{
    reveal_strlit("ingesting");
    reveal_strlit("consolidating");
    assert("ingesting"@.len() == 9 && "consolidating"@.len() == 13);
}

/// A terminal runs what follows its own word for that.
pub proof fn law_terminals()
    ensures
        terminal_words(Terminal::Default) == ("x-terminal-emulator"@, "-e"@),
        terminal_words(Terminal::Gnome) == ("gnome-terminal"@, "--"@),
        terminal_words(Terminal::Konsole) == ("konsole"@, "-e"@),
        terminal_words(Terminal::Xfce4) == ("xfce4-terminal"@, "-e"@),
        terminal_words(Terminal::Alacritty) == ("alacritty"@, "-e"@),
        terminal_words(Terminal::Kitty) == ("kitty"@, "--"@),
        terminal_words(Terminal::Xterm) == ("xterm"@, "-e"@),
{
}

} // verus!
