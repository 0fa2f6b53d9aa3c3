//! What the daemon is doing, for others to see.

use vstd::prelude::*;

use crate::paths::lore_file;
use crate::text::decimal_text;

verus! {

/// What the daemon is doing.
#[derive(Debug, Clone, Copy, PartialEq, Eq, Structural)]
pub enum DaemonState {
    Idle,
    Ingesting,
    Consolidating,
}

/// The status that the daemon leaves in its status file.
#[derive(Debug, Clone, Copy, PartialEq, Eq, Structural)]
pub struct DaemonStatus {
    pub state: DaemonState,
    pub pid: u32,
    pub updated_at: i64,
}

/// The name of a state in the status file.
pub open spec fn state_label(state: DaemonState) -> Seq<char> {
    match state {
        DaemonState::Idle => "idle"@,
        DaemonState::Ingesting => "ingesting"@,
        DaemonState::Consolidating => "consolidating"@,
    }
}

impl DaemonState {
    /// The name of a state in the status file.
    pub fn as_str(&self) -> (r: &'static str)
        ensures
            r@ == state_label(*self),
    {
        match self {
            DaemonState::Idle => "idle",
            DaemonState::Ingesting => "ingesting",
            DaemonState::Consolidating => "consolidating",
        }
    }
}

/// The status file.
pub fn status_file(home: Option<&str>) -> (r: String)
    ensures
        r@ == crate::paths::lore_file_path(crate::text::optional_text(home), "daemon.status"@),
{
    lore_file(home, "daemon.status")
}

/// The file with the process identifier of the daemon.
pub fn pid_file(home: Option<&str>) -> (r: String)
    ensures
        r@ == crate::paths::lore_file_path(crate::text::optional_text(home), "daemon.pid"@),
{
    lore_file(home, "daemon.pid")
}

/// The log file of the daemon.
pub fn log_file(home: Option<&str>) -> (r: String)
    ensures
        r@ == crate::paths::lore_file_path(crate::text::optional_text(home), "daemon.log"@),
{
    lore_file(home, "daemon.log")
}

/// What is said of a daemon whose file with the process identifier holds `pid`,
/// and whose process runs or not.
pub open spec fn status_text(pid: Option<Seq<char>>, running: bool) -> Seq<char> {
    match pid {
        None => "Daemon: not running"@,
        Some(p) => if running {
            "Daemon: running (PID: "@ + p + ")"@
        } else {
            "Daemon: stale PID file (PID: "@ + p + " not running)"@
        },
    }
}

/// Tells what is said of the daemon.
pub fn status_line(pid: Option<&str>, running: bool) -> (r: String)
    ensures
        r@ == status_text(crate::text::optional_text(pid), running),
{
    match pid {
        None => "Daemon: not running".to_owned(),
        Some(p) => {
            let mut s: String = if running {
                "Daemon: running (PID: ".to_owned()
            } else {
                "Daemon: stale PID file (PID: ".to_owned()
            };
            s.append(p);
            s.append(
                if running {
                    ")"
                } else {
                    " not running)"
                },
            );
            s
        },
    }
}

/// The arguments of `tail` that show the end of a log.
pub open spec fn tail_words(lines: u64, follow: bool, path: Seq<char>) -> Seq<Seq<char>> {
    if follow {
        seq!["-n"@, crate::text::decimal(lines as nat), "-f"@, path]
    } else {
        seq!["-n"@, crate::text::decimal(lines as nat), path]
    }
}

/// The arguments of `tail` that show the end of a log, and what is added to it
/// if it is to be followed.
pub fn tail_args(lines: u64, follow: bool, path: &str) -> (r: Vec<String>)
    ensures
        crate::text::views(r@) == tail_words(lines, follow, path@),
{
    let mut args: Vec<String> = Vec::new();
    args.push("-n".to_owned());
    args.push(decimal_text(lines));
    if follow {
        args.push("-f".to_owned());
    }
    args.push(path.to_owned());
    assert(crate::text::views(args@) =~= tail_words(lines, follow, path@));
    args
}

// ---- laws ----

/// Different states have different names.
pub proof fn law_states_have_names(a: DaemonState, b: DaemonState)
    ensures
        state_label(a) == state_label(b) <==> a == b,
        state_label(DaemonState::Idle) == "idle"@,
        state_label(DaemonState::Ingesting) == "ingesting"@,
        state_label(DaemonState::Consolidating) == "consolidating"@,
{
    reveal_strlit("idle");
    reveal_strlit("ingesting");
    reveal_strlit("consolidating");
    assert("idle"@.len() == 4 && "ingesting"@.len() == 9 && "consolidating"@.len() == 13);
}

/// What is said of the daemon: that it does not run where there is no file with its
/// process, and otherwise which process that is, and whether it runs.
pub proof fn law_status_names_the_process(p: Seq<char>)
    ensures
        status_text(None, true) == status_text(None, false),
        status_text(None, false) == "Daemon: not running"@,
        status_text(Some(p), true) == "Daemon: running (PID: "@ + p + ")"@,
        status_text(Some(p), false) == "Daemon: stale PID file (PID: "@ + p + " not running)"@,
{
}

/// The end of a log is shown with the number of lines asked for, and followed only where
/// that is asked for.
pub proof fn law_tail(lines: u64, path: Seq<char>)
    ensures
        tail_words(lines, false, path) == seq!["-n"@, crate::text::decimal(lines as nat), path],
        tail_words(lines, true, path) == seq![
            "-n"@,
            crate::text::decimal(lines as nat),
            "-f"@,
            path,
        ],
{
}

} // verus!
