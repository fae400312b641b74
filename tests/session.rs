use level_launcher::launch::{
    launch_args, Diagnostic, LaunchCommand, LaunchEvent, LaunchPhase, LaunchSession,
};
use level_launcher::prefs::{PreferenceSync, Preferences, POLL_INTERVAL_MS};

fn prefs(fullscreen: bool, show_fps: bool) -> Preferences {
    Preferences { fullscreen, show_fps }
}

#[test]
fn first_run_preferences_are_off() {
    assert_eq!(Preferences::default(), prefs(false, false));
    assert_eq!(POLL_INTERVAL_MS, 250);
}

#[test]
fn unchanged_toggles_are_not_saved() {
    let mut sync = PreferenceSync::new(prefs(true, false));
    for _ in 0..5 {
        assert_eq!(sync.poll(prefs(true, false)), None);
    }
    assert_eq!(sync.saved(), prefs(true, false));
}

#[test]
fn each_change_is_saved_once() {
    let mut sync = PreferenceSync::new(prefs(false, false));
    let seen = [
        prefs(false, false),
        prefs(true, false),
        prefs(true, false),
        prefs(true, true),
        prefs(true, true),
        prefs(false, false),
    ];
    let mut saves = Vec::new();
    for p in seen {
        if let Some(s) = sync.poll(p) {
            saves.push(s);
        }
    }
    assert_eq!(saves, vec![prefs(true, false), prefs(true, true), prefs(false, false)]);
    assert_eq!(sync.saved(), prefs(false, false));
}

#[test]
fn fullscreen_launch_arguments() {
    assert_eq!(
        launch_args("level1.blend", prefs(true, false)),
        vec!["-", "-launcher", "-fullscreen", "level1.blend"]
    );
}

#[test]
fn launch_arguments_for_each_flag() {
    assert_eq!(launch_args("a.blend", prefs(false, false)), vec!["-", "-launcher", "a.blend"]);
    assert_eq!(launch_args("a.blend", prefs(false, true)), vec!["-", "-launcher", "-fps", "a.blend"]);
    assert_eq!(
        launch_args("a.blend", prefs(true, true)),
        vec!["-", "-launcher", "-fullscreen", "-fps", "a.blend"]
    );
}

#[test]
fn spawn_failure_logs_once_and_changes_nothing_shown() {
    let mut s = LaunchSession::new();
    let a = s.on_event(LaunchEvent::PlayRequested);
    assert_eq!(a.command, LaunchCommand::Spawn);
    assert_eq!(a.log, None);
    let b = s.on_event(LaunchEvent::SpawnFailed);
    assert_eq!(b.next, LaunchPhase::Idle);
    assert_eq!(b.command, LaunchCommand::Nothing);
    assert_eq!(b.log, Some(Diagnostic::SpawnFailed));
    assert_eq!(Diagnostic::SpawnFailed.message(), "Failed to launch game");
    assert_eq!(s.phase(), LaunchPhase::Idle);
}

#[test]
fn successful_launch_shows_reloaded_stats() {
    let mut s = LaunchSession::new();
    assert_eq!(s.on_event(LaunchEvent::PlayRequested).next, LaunchPhase::Spawning);
    let w = s.on_event(LaunchEvent::Spawned);
    assert_eq!((w.next, w.command), (LaunchPhase::Running, LaunchCommand::WaitForExit));
    let r = s.on_event(LaunchEvent::Exited);
    assert_eq!((r.next, r.command, r.log), (LaunchPhase::Reconciling, LaunchCommand::ReloadStats, None));
    let d = s.on_event(LaunchEvent::Reloaded { window_open: true });
    assert_eq!((d.next, d.command, d.log), (LaunchPhase::Idle, LaunchCommand::ShowStats, None));
}

#[test]
fn wait_failure_is_logged_and_stats_still_reload() {
    let mut s = LaunchSession::new();
    s.on_event(LaunchEvent::PlayRequested);
    s.on_event(LaunchEvent::Spawned);
    let r = s.on_event(LaunchEvent::WaitFailed);
    assert_eq!(r.command, LaunchCommand::ReloadStats);
    assert_eq!(r.log, Some(Diagnostic::WaitFailed));
    assert_eq!(Diagnostic::WaitFailed.message(), "Failed to wait for game process");
}

#[test]
fn closed_window_drops_the_update() {
    let mut s = LaunchSession::new();
    s.on_event(LaunchEvent::PlayRequested);
    s.on_event(LaunchEvent::Spawned);
    s.on_event(LaunchEvent::Exited);
    let d = s.on_event(LaunchEvent::Reloaded { window_open: false });
    assert_eq!((d.next, d.command, d.log), (LaunchPhase::Idle, LaunchCommand::Nothing, None));
}

#[test]
fn reload_failures_are_logged() {
    let mut s = LaunchSession::new();
    s.on_event(LaunchEvent::PlayRequested);
    s.on_event(LaunchEvent::Spawned);
    s.on_event(LaunchEvent::Exited);
    let d = s.on_event(LaunchEvent::ReloadFailed);
    assert_eq!((d.next, d.log), (LaunchPhase::Idle, Some(Diagnostic::ReloadFailed)));
    assert_eq!(Diagnostic::ReloadFailed.message(), "Failed to parse game stats");
    assert_eq!(Diagnostic::HandOffFailed.message(), "Failed to reload game stats");
}

#[test]
fn events_out_of_turn_change_nothing() {
    let mut s = LaunchSession::new();
    let e = s.on_event(LaunchEvent::Exited);
    assert_eq!((e.next, e.command, e.log), (LaunchPhase::Idle, LaunchCommand::Nothing, None));
    s.on_event(LaunchEvent::PlayRequested);
    let again = s.on_event(LaunchEvent::PlayRequested);
    assert_eq!((again.next, again.command), (LaunchPhase::Spawning, LaunchCommand::Nothing));
}
