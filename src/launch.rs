//! One launch of the player process: the arguments it gets, and the
//! decisions between spawning it, waiting for it and showing the stats it
//! wrote. Each launch runs its own session; several may overlap.
use crate::prefs::Preferences;
use vstd::prelude::*;

verus! {

/// The player's arguments for a level: a leading marker, launcher mode,
/// `-fullscreen` and `-fps` where those preferences are on, then the level.
pub open spec fn launch_args_of(level: Seq<char>, prefs: Preferences) -> Seq<Seq<char>> {
    seq!["-"@, "-launcher"@] + (if prefs.fullscreen {
        seq!["-fullscreen"@]
    } else {
        Seq::empty()
    }) + (if prefs.show_fps {
        seq!["-fps"@]
    } else {
        Seq::empty()
    }) + seq![level]
}

/// Builds the argument vector that starts `level` with `prefs`.
pub fn launch_args<'a>(level: &'a str, prefs: Preferences) -> (r: Vec<&'a str>)
    ensures
        r@.map_values(|a: &str| a@) == launch_args_of(level@, prefs),
{
    let mut r: Vec<&'a str> = Vec::new();
    r.push("-");
    r.push("-launcher");
    if prefs.fullscreen {
        r.push("-fullscreen");
    }
    if prefs.show_fps {
        r.push("-fps");
    }
    r.push(level);
    proof {
        assert(r@.map_values(|a: &str| a@) =~= launch_args_of(level@, prefs));
    }
    r
}

/// Where a launch stands.
#[derive(Clone, Copy, Debug, PartialEq, Eq, Structural)]
pub enum LaunchPhase {
    Idle,
    Spawning,
    Running,
    Reconciling,
}

/// What the surrounding program reports back.
#[derive(Clone, Copy, Debug, PartialEq, Eq, Structural)]
pub enum LaunchEvent {
    /// The user asked to play a level.
    PlayRequested,
    /// The player process could not be started.
    SpawnFailed,
    /// The player process started.
    Spawned,
    /// The player process ended, whatever its exit code.
    Exited,
    /// Waiting for the player process failed.
    WaitFailed,
    /// The work could not be handed back to the UI loop.
    HandOffFailed,
    /// The stats file could not be read again.
    ReloadFailed,
    /// The stats were read again; the flag tells whether the window is still open.
    Reloaded { window_open: bool },
}

/// A failure to write to the diagnostic stream.
#[derive(Clone, Copy, Debug, PartialEq, Eq, Structural)]
pub enum Diagnostic {
    SpawnFailed,
    WaitFailed,
    HandOffFailed,
    ReloadFailed,
}

impl Diagnostic {
    /// The line written for the failure.
    pub fn message(&self) -> (r: &'static str)
        ensures
            r@ == match *self {
                Diagnostic::SpawnFailed => "Failed to launch game"@,
                Diagnostic::WaitFailed => "Failed to wait for game process"@,
                Diagnostic::HandOffFailed => "Failed to reload game stats"@,
                Diagnostic::ReloadFailed => "Failed to parse game stats"@,
            },
    {
        match self {
            Diagnostic::SpawnFailed => "Failed to launch game",
            Diagnostic::WaitFailed => "Failed to wait for game process",
            Diagnostic::HandOffFailed => "Failed to reload game stats",
            Diagnostic::ReloadFailed => "Failed to parse game stats",
        }
    }
}

/// The work the surrounding program does next.
#[derive(Clone, Copy, Debug, PartialEq, Eq, Structural)]
pub enum LaunchCommand {
    Nothing,
    /// Start the player process with the launch arguments.
    Spawn,
    /// Block, off the UI loop, until the player process ends.
    WaitForExit,
    /// Hand over to the UI loop and read the stats file again there.
    ReloadStats,
    /// Replace the stats the window shows by those just read.
    ShowStats,
}

/// The outcome of one event: the next phase, the work to do, and the
/// diagnostic to write, if any.
#[derive(Clone, Copy, Debug, PartialEq, Eq, Structural)]
pub struct LaunchStep {
    pub next: LaunchPhase,
    pub command: LaunchCommand,
    pub log: Option<Diagnostic>,
}

/// The transitions `Idle -> Spawning -> Running -> Reconciling -> Idle`. A
/// spawn failure goes back to `Idle` with one diagnostic and nothing else; a
/// wait failure is written and the stats are still read again. An event that
/// does not belong to the phase changes nothing.
pub open spec fn step_of(phase: LaunchPhase, event: LaunchEvent) -> LaunchStep {
    match (phase, event) {
        (LaunchPhase::Idle, LaunchEvent::PlayRequested) => LaunchStep {
            next: LaunchPhase::Spawning,
            command: LaunchCommand::Spawn,
            log: None,
        },
        (LaunchPhase::Spawning, LaunchEvent::SpawnFailed) => LaunchStep {
            next: LaunchPhase::Idle,
            command: LaunchCommand::Nothing,
            log: Some(Diagnostic::SpawnFailed),
        },
        (LaunchPhase::Spawning, LaunchEvent::Spawned) => LaunchStep {
            next: LaunchPhase::Running,
            command: LaunchCommand::WaitForExit,
            log: None,
        },
        (LaunchPhase::Running, LaunchEvent::Exited) => LaunchStep {
            next: LaunchPhase::Reconciling,
            command: LaunchCommand::ReloadStats,
            log: None,
        },
        (LaunchPhase::Running, LaunchEvent::WaitFailed) => LaunchStep {
            next: LaunchPhase::Reconciling,
            command: LaunchCommand::ReloadStats,
            log: Some(Diagnostic::WaitFailed),
        },
        (LaunchPhase::Reconciling, LaunchEvent::HandOffFailed) => LaunchStep {
            next: LaunchPhase::Idle,
            command: LaunchCommand::Nothing,
            log: Some(Diagnostic::HandOffFailed),
        },
        (LaunchPhase::Reconciling, LaunchEvent::ReloadFailed) => LaunchStep {
            next: LaunchPhase::Idle,
            command: LaunchCommand::Nothing,
            log: Some(Diagnostic::ReloadFailed),
        },
        (LaunchPhase::Reconciling, LaunchEvent::Reloaded { window_open }) => LaunchStep {
            next: LaunchPhase::Idle,
            command: if window_open {
                LaunchCommand::ShowStats
            } else {
                LaunchCommand::Nothing
            },
            log: None,
        },
        _ => LaunchStep { next: phase, command: LaunchCommand::Nothing, log: None },
    }
}

/// The state of one launch.
pub struct LaunchSession {
    phase: LaunchPhase,
}

impl View for LaunchSession {
    type V = LaunchPhase;

    closed spec fn view(&self) -> LaunchPhase {
        self.phase
    }
}

impl LaunchSession {
    pub fn new() -> (r: LaunchSession)
        ensures
            r@ == LaunchPhase::Idle,
    {
        LaunchSession { phase: LaunchPhase::Idle }
    }

    pub fn phase(&self) -> (r: LaunchPhase)
        ensures
            r == self@,
    {
        self.phase
    }

    /// Takes in what happened and says what to do next.
    pub fn on_event(&mut self, event: LaunchEvent) -> (r: LaunchStep)
        ensures
            r == step_of(old(self)@, event),
            final(self)@ == r.next,
    {
        let r = match (self.phase, event) {
            (LaunchPhase::Idle, LaunchEvent::PlayRequested) => LaunchStep {
                next: LaunchPhase::Spawning,
                command: LaunchCommand::Spawn,
                log: None,
            },
            (LaunchPhase::Spawning, LaunchEvent::SpawnFailed) => LaunchStep {
                next: LaunchPhase::Idle,
                command: LaunchCommand::Nothing,
                log: Some(Diagnostic::SpawnFailed),
            },
            (LaunchPhase::Spawning, LaunchEvent::Spawned) => LaunchStep {
                next: LaunchPhase::Running,
                command: LaunchCommand::WaitForExit,
                log: None,
            },
            (LaunchPhase::Running, LaunchEvent::Exited) => LaunchStep {
                next: LaunchPhase::Reconciling,
                command: LaunchCommand::ReloadStats,
                log: None,
            },
            (LaunchPhase::Running, LaunchEvent::WaitFailed) => LaunchStep {
                next: LaunchPhase::Reconciling,
                command: LaunchCommand::ReloadStats,
                log: Some(Diagnostic::WaitFailed),
            },
            (LaunchPhase::Reconciling, LaunchEvent::HandOffFailed) => LaunchStep {
                next: LaunchPhase::Idle,
                command: LaunchCommand::Nothing,
                log: Some(Diagnostic::HandOffFailed),
            },
            (LaunchPhase::Reconciling, LaunchEvent::ReloadFailed) => LaunchStep {
                next: LaunchPhase::Idle,
                command: LaunchCommand::Nothing,
                log: Some(Diagnostic::ReloadFailed),
            },
            (LaunchPhase::Reconciling, LaunchEvent::Reloaded { window_open }) => LaunchStep {
                next: LaunchPhase::Idle,
                command: if window_open {
                    LaunchCommand::ShowStats
                } else {
                    LaunchCommand::Nothing
                },
                log: None,
            },
            (phase, _) => LaunchStep { next: phase, command: LaunchCommand::Nothing, log: None },
        };
        self.phase = r.next;
        r
    }
}

/// A step writes at most one diagnostic, and only reading the stats again
/// while the window is open changes what the window shows.
pub proof fn law_step_effects(phase: LaunchPhase, event: LaunchEvent)
    ensures
        step_of(phase, event).command == LaunchCommand::ShowStats <==> phase
            == LaunchPhase::Reconciling && event == (LaunchEvent::Reloaded { window_open: true }),
        step_of(phase, event).log is Some ==> step_of(phase, event).command
            != LaunchCommand::ShowStats,
{
}

} // verus!
