//! The procedures of a session: creating a stream, the layout guard, moving
//! to the origin, healing, and restarting the shell.

use hyperv_rdp_extras::session::kscreen::CommandReport;
use hyperv_rdp_extras::session::layout::{
    EngageAction, EngageEvent, EngageFlow, RestoreAction, RestoreEvent, RestoreFlow,
};
use hyperv_rdp_extras::session::manager::{
    FollowUp, RecreateAction, RecreateEvent, RecreateFlow, StreamError, ThreadSlot, follow_up,
};
use hyperv_rdp_extras::session::origin::{
    HealAction, HealEvent, HealStage, OriginAction, OriginEvent, OriginStage,
};
use hyperv_rdp_extras::session::shell::{
    PROBE_SCRIPT, REATTACH_SCRIPT, RestartAction, RestartEvent, RestartStage, ShellCommand,
    adopted_containments, evaluate_words, read_printed_number,
};
use hyperv_rdp_extras::session::{OutputLayoutGuard, VirtualOutputConfig};

fn strings(names: &[&str]) -> Vec<String> {
    names.iter().map(|n| n.to_string()).collect()
}

// ---------------------------------------------------------------------------
// Creating a stream
// ---------------------------------------------------------------------------

#[test]
fn manager_new_starts_thread_lazily() {
    // Construction must not require a Wayland connection (the thread is
    // created on demand at first recreate_stream).
    let mut slot: ThreadSlot<u32> = ThreadSlot::new();
    assert!(slot.needs_thread(false));
    // Closing on a fresh manager is a no-op (no thread yet).
    assert!(slot.sender().is_none());
    slot.started(7);
    assert!(!slot.needs_thread(true));
    assert_eq!(slot.sender(), Some(&7));
    // A thread that has exited is rebuilt by the next create.
    assert!(slot.needs_thread(false));
    slot.started(8);
    assert_eq!(slot.sender(), Some(&8));
    slot.died();
    assert!(slot.needs_thread(true));
    assert!(slot.sender().is_none());
}

#[test]
fn dead_thread_is_rebuilt_within_the_create() {
    let mut flow = RecreateFlow::new(640, 480);
    flow.advance(RecreateEvent::ThreadReady);
    flow.advance(RecreateEvent::SendFailed);
    assert_eq!(flow.action(), RecreateAction::EnsureThread);
    flow.advance(RecreateEvent::ThreadReady);
    assert_eq!(flow.action(), RecreateAction::SendCreate { width: 640, height: 480 });
    flow.advance(RecreateEvent::Sent);
    flow.advance(RecreateEvent::Answered(Ok(3)));
    flow.advance(RecreateEvent::EnableTried(true));
    assert_eq!(flow.action(), RecreateAction::Succeed { node: 3 });
}

#[test]
fn create_runs_through_its_steps() {
    let mut flow = RecreateFlow::new(1366, 768);
    assert_eq!(flow.action(), RecreateAction::EnsureThread);
    flow.advance(RecreateEvent::ThreadReady);
    assert_eq!(flow.action(), RecreateAction::SendCreate { width: 1366, height: 768 });
    flow.advance(RecreateEvent::Sent);
    assert_eq!(flow.action(), RecreateAction::AwaitReply { timeout_ms: 10_000 });
    flow.advance(RecreateEvent::Answered(Ok(42)));
    assert_eq!(flow.action(), RecreateAction::EnableOutput);
    // A failed enable only logs: the stream is there.
    flow.advance(RecreateEvent::EnableTried(false));
    assert_eq!(flow.action(), RecreateAction::Succeed { node: 42 });
    flow.advance(RecreateEvent::TimedOut);
    assert_eq!(flow.action(), RecreateAction::Succeed { node: 42 });
}

fn failure(events: Vec<RecreateEvent>) -> String {
    let mut flow = RecreateFlow::new(u16::MAX, 1);
    for event in events {
        flow.advance(event);
    }
    match flow.action() {
        RecreateAction::Fail { error } => error.message(),
        other => panic!("{other:?}"),
    }
}

#[test]
fn create_failures_are_named() {
    let sent = || vec![RecreateEvent::ThreadReady, RecreateEvent::Sent];
    let then = |event| {
        let mut events = sent();
        events.push(event);
        events
    };
    assert_eq!(
        failure(vec![RecreateEvent::SpawnFailed]),
        "Failed to spawn zkde-screencast thread"
    );
    assert_eq!(
        failure(vec![RecreateEvent::ThreadMissing]),
        "zkde-screencast thread unavailable"
    );
    assert_eq!(
        failure(vec![
            RecreateEvent::ThreadReady,
            RecreateEvent::SendFailed,
            RecreateEvent::ThreadReady,
            RecreateEvent::SendFailed,
        ]),
        "zkde-screencast thread exited"
    );
    assert_eq!(
        failure(then(RecreateEvent::TimedOut)),
        "timed out waiting for zkde stream creation"
    );
    assert_eq!(failure(then(RecreateEvent::Dropped)), "zkde stream reply dropped");
    assert_eq!(
        failure(then(RecreateEvent::Answered(Err("no output".into())))),
        "zkde stream creation failed: no output"
    );
    assert_eq!(StreamError::Exited.message(), "zkde-screencast thread exited");
}

#[test]
fn events_out_of_turn_are_ignored() {
    let mut flow = RecreateFlow::new(1, 1);
    flow.advance(RecreateEvent::Answered(Ok(1)));
    flow.advance(RecreateEvent::Sent);
    flow.advance(RecreateEvent::EnableTried(true));
    assert_eq!(flow.action(), RecreateAction::EnsureThread);
}

#[test]
fn follow_up_reattaches_twice_then_normalizes() {
    assert_eq!(
        follow_up(),
        vec![
            FollowUp::Wait { ms: 750 },
            FollowUp::Reattach,
            FollowUp::Wait { ms: 3_250 },
            FollowUp::Reattach,
            FollowUp::Wait { ms: 500 },
            FollowUp::Normalize,
        ]
    );
}

// ---------------------------------------------------------------------------
// The layout guard
// ---------------------------------------------------------------------------

/// Engage with the given listings, in order; also returns what was disabled.
fn engage(listings: &[&[&str]]) -> (OutputLayoutGuard, Vec<Vec<String>>) {
    let mut flow = EngageFlow::new(&VirtualOutputConfig::default());
    let mut listings = listings.iter();
    let mut disabled = Vec::new();
    loop {
        let event = match flow.action() {
            EngageAction::ListEnabled | EngageAction::ListRecoverable => {
                EngageEvent::Listed(strings(listings.next().expect("a listing")))
            }
            EngageAction::Disable { before_ms, names, after_ms } => {
                // Only the first round waits for clients to bind.
                assert_eq!(before_ms, if disabled.is_empty() { 750 } else { 0 });
                assert_eq!(after_ms, 300);
                disabled.push(names);
                EngageEvent::Disabled
            }
            EngageAction::Normalize => EngageEvent::Normalized,
            EngageAction::Done => break,
        };
        flow = flow.advance(event);
    }
    assert!(listings.next().is_none());
    (flow.finish().expect("engaged"), disabled)
}

#[test]
fn engage_on_headless_host_is_noop() {
    // No kscreen-doctor binary (or no compositor): both listings are empty,
    // and the engage must degrade to an empty guard.
    let report = CommandReport::NotRun;
    let mut flow = EngageFlow::new(&VirtualOutputConfig::default());
    assert!(matches!(flow.action(), EngageAction::ListEnabled));
    flow = flow.advance(EngageEvent::Listed(report.enabled_physical_outputs("Virtual-rdp")));
    assert!(matches!(flow.action(), EngageAction::ListRecoverable));
    flow = flow.advance(EngageEvent::Listed(report.recoverable_physical_outputs("Virtual-rdp")));
    assert!(matches!(flow.action(), EngageAction::Done));
    let mut guard = flow.finish().expect("engaged");
    assert!(guard.disabled_outputs().is_empty());
    assert!(guard.begin_restore().is_none());
}

#[test]
fn engage_disables_what_is_enabled() {
    let (guard, disabled) = engage(&[&["DP-1", "Virtual-1"], &[]]);
    assert_eq!(disabled, vec![strings(&["DP-1", "Virtual-1"])]);
    assert_eq!(guard.disabled_outputs(), strings(&["DP-1", "Virtual-1"]).as_slice());
    assert_eq!(guard.exclude(), "Virtual-rdp");
}

#[test]
fn engage_adopts_a_headless_layout() {
    let (guard, disabled) = engage(&[&[], &["Virtual-1"]]);
    assert!(disabled.is_empty());
    assert_eq!(guard.disabled_outputs(), strings(&["Virtual-1"]).as_slice());
}

#[test]
fn engage_retries_a_bounced_disable_once() {
    let (guard, disabled) = engage(&[&["A", "B", "C"], &["C", "B"], &["B", "X"]]);
    assert_eq!(disabled, vec![strings(&["A", "B", "C"]), strings(&["B", "C"])]);
    // What is still enabled was not disabled by this guard.
    assert_eq!(guard.disabled_outputs(), strings(&["A", "C"]).as_slice());
}

#[test]
fn unfinished_engage_gives_no_guard() {
    let flow = EngageFlow::new(&VirtualOutputConfig::new("mine"));
    assert!(flow.finish().is_none());
}

/// Restore with the given listings; returns what was enabled and the end.
fn restore(mut flow: RestoreFlow, listings: &[&[&str]]) -> (Vec<Vec<String>>, Vec<String>, Vec<String>) {
    let mut listings = listings.iter();
    let mut enabled = Vec::new();
    loop {
        let event = match flow.action() {
            RestoreAction::Enable { names, after_ms } => {
                assert_eq!(after_ms, 300);
                enabled.push(names);
                RestoreEvent::Enabled
            }
            RestoreAction::ListEnabled => {
                RestoreEvent::Listed(strings(listings.next().expect("a listing")))
            }
            RestoreAction::Done { restored, stuck } => return (enabled, restored, stuck),
        };
        flow = flow.advance(event);
    }
}

#[test]
fn restore_is_idempotent() {
    let (mut guard, _) = engage(&[&["A", "B"], &[]]);
    let flow = guard.begin_restore().expect("something to restore");
    // After the first call the guard holds nothing.
    assert!(guard.disabled_outputs().is_empty());
    assert!(guard.begin_restore().is_none());
    assert_eq!(guard.exclude(), "Virtual-rdp");
    let (enabled, restored, stuck) = restore(flow, &[&["B", "A"]]);
    assert_eq!(enabled, vec![strings(&["A", "B"])]);
    assert_eq!(restored, strings(&["A", "B"]));
    assert!(stuck.is_empty());
}

#[test]
fn restore_retries_and_reports_what_is_stuck() {
    let (mut guard, _) = engage(&[&["A", "B", "C"], &[]]);
    let flow = guard.begin_restore().expect("something to restore");
    let (enabled, restored, stuck) = restore(flow, &[&["B"], &["B", "C"]]);
    assert_eq!(enabled, vec![strings(&["A", "B", "C"]), strings(&["A", "C"])]);
    assert_eq!(restored, strings(&["B", "C"]));
    assert_eq!(stuck, strings(&["A"]));
}

// ---------------------------------------------------------------------------
// The origin, and healing
// ---------------------------------------------------------------------------

/// Normalize with the given positions and moves; also counts the moves.
fn normalize(positions: &[Option<(i32, i32)>], moves: &[bool]) -> (Option<(i32, i32)>, usize) {
    let mut stage = OriginStage::start();
    let mut positions = positions.iter();
    let mut moves = moves.iter();
    let mut moved = 0;
    loop {
        let event = match stage.action() {
            OriginAction::Read { before_ms } => {
                assert!(before_ms == 0 || before_ms == 300);
                OriginEvent::Read(*positions.next().expect("a position"))
            }
            OriginAction::Move { x, y } => {
                assert_eq!((x, y), (0, 0));
                moved += 1;
                OriginEvent::Moved(*moves.next().expect("a move"))
            }
            OriginAction::Done { position } => return (position, moved),
        };
        stage = stage.advance(event);
    }
}

#[test]
fn normalized_output_is_left_alone() {
    assert_eq!(normalize(&[Some((0, 0))], &[]), (Some((0, 0)), 0));
}

#[test]
fn parked_output_is_moved_and_verified() {
    assert_eq!(normalize(&[Some((1920, 0)), Some((0, 0))], &[true]), (Some((0, 0)), 1));
}

#[test]
fn move_is_retried_once() {
    let parked = Some((1920, 0));
    assert_eq!(
        normalize(&[parked, parked, parked, Some((0, 0))], &[true, true]),
        (Some((0, 0)), 2)
    );
    // A move that does not stick, even on retry, leaves nothing verified.
    assert_eq!(normalize(&[parked, parked, parked, parked], &[true, true]), (None, 2));
    assert_eq!(normalize(&[parked, parked, parked, Some((7, 8))], &[true, true]), (None, 2));
}

#[test]
fn unknown_position_is_no_position() {
    assert_eq!(normalize(&[None, None], &[]), (None, 0));
    assert_eq!(normalize(&[Some((1, 0)), Some((1, 0))], &[false, false]), (None, 2));
    assert_eq!(normalize(&[Some((1, 0)), None, None], &[true]), (None, 1));
}

#[test]
fn first_heal_is_surgical() {
    let stage = HealStage::start(false);
    assert_eq!(stage.action(), HealAction::Normalize);
    let stage = stage.advance(HealEvent::Normalized(Some((0, 0))));
    assert_eq!(stage.action(), HealAction::Reattach);
    let stage = stage.advance(HealEvent::Reattached(1));
    assert_eq!(stage.action(), HealAction::Done { at_origin: true });
}

#[test]
fn repeated_heal_restarts_the_shell() {
    let stage = HealStage::start(true)
        .advance(HealEvent::Normalized(Some((1920, 0))))
        .advance(HealEvent::Reattached(0));
    assert_eq!(stage.action(), HealAction::Restart);
    let stage = stage.advance(HealEvent::Restarted(true));
    assert_eq!(stage.action(), HealAction::Done { at_origin: false });
}

#[test]
fn unverified_origin_is_not_reported_as_verified() {
    let stage = HealStage::start(false)
        .advance(HealEvent::Normalized(None))
        .advance(HealEvent::Reattached(0));
    assert_eq!(stage.action(), HealAction::Done { at_origin: false });
}

// ---------------------------------------------------------------------------
// The shell
// ---------------------------------------------------------------------------

/// Restart with `answer` deciding how each command ends; returns the end and
/// everything that was done.
fn restart(mut answer: impl FnMut(ShellCommand, usize) -> bool) -> (bool, Vec<RestartAction>) {
    let mut stage = RestartStage::start();
    let mut done = Vec::new();
    loop {
        let action = stage.action();
        let event = match action {
            RestartAction::Run(command) => RestartEvent::Ran(answer(command, done.len())),
            RestartAction::Wait { .. } => RestartEvent::Waited,
            RestartAction::Done { alive } => return (alive, done),
        };
        done.push(action);
        assert!(done.len() < 1000);
        stage = stage.advance(event);
    }
}

fn count(done: &[RestartAction], action: RestartAction) -> usize {
    done.iter().filter(|a| **a == action).count()
}

#[test]
fn active_unit_is_restarted() {
    let (alive, done) = restart(|_, _| true);
    assert!(alive);
    assert_eq!(
        done,
        vec![
            RestartAction::Run(ShellCommand::UnitActive),
            RestartAction::Run(ShellCommand::RestartUnit),
            RestartAction::Wait { ms: 1500 },
            RestartAction::Run(ShellCommand::Alive),
        ]
    );
}

#[test]
fn failed_unit_restart_is_reported() {
    let (alive, done) = restart(|command, _| command == ShellCommand::UnitActive);
    assert!(!alive);
    assert_eq!(done.len(), 2);
    let (alive, _) = restart(|command, _| command != ShellCommand::Alive);
    assert!(!alive);
}

#[test]
fn shell_that_quits_is_relaunched() {
    let mut launched = false;
    let (alive, done) = restart(|command, _| match command {
        ShellCommand::UnitActive => false,
        ShellCommand::Launch => {
            launched = true;
            true
        }
        ShellCommand::Alive => launched,
        _ => true,
    });
    assert!(alive);
    assert_eq!(
        done,
        vec![
            RestartAction::Run(ShellCommand::UnitActive),
            RestartAction::Run(ShellCommand::Quit),
            RestartAction::Run(ShellCommand::Alive),
            RestartAction::Run(ShellCommand::Alive),
            RestartAction::Run(ShellCommand::Launch),
            RestartAction::Run(ShellCommand::Alive),
        ]
    );
}

#[test]
fn hung_shell_is_terminated_after_the_grace_window() {
    let (alive, done) = restart(|command, _| command == ShellCommand::Alive);
    // It never goes away, so the look after the launch finds it.
    assert!(alive);
    assert_eq!(count(&done, RestartAction::Run(ShellCommand::Terminate)), 1);
    // Ten looks of grace, the hang check, six more, and the last one.
    assert_eq!(count(&done, RestartAction::Run(ShellCommand::Alive)), 10 + 1 + 6 + 1);
    assert_eq!(count(&done, RestartAction::Wait { ms: 500 }), 16);
}

#[test]
fn shell_that_stays_away_is_reported() {
    let (alive, done) = restart(|_, _| false);
    assert!(!alive);
    assert_eq!(count(&done, RestartAction::Run(ShellCommand::Terminate)), 0);
    assert_eq!(count(&done, RestartAction::Run(ShellCommand::Alive)), 1 + 1 + 16);
    assert_eq!(count(&done, RestartAction::Wait { ms: 500 }), 16);
}

#[test]
fn shell_commands_are_spelled_out() {
    let words = |command: ShellCommand| command.words().join(" ");
    assert_eq!(
        words(ShellCommand::UnitActive),
        "systemctl --user is-active --quiet plasma-plasmashell.service"
    );
    assert_eq!(
        words(ShellCommand::RestartUnit),
        "systemctl --user restart plasma-plasmashell.service"
    );
    assert_eq!(words(ShellCommand::Quit), "kquitapp6 plasmashell");
    assert_eq!(words(ShellCommand::Terminate), "pkill -TERM -x plasmashell");
    assert_eq!(words(ShellCommand::Launch), "kstart plasmashell");
    assert_eq!(words(ShellCommand::Alive), "pgrep -x plasmashell");
}

#[test]
fn printed_numbers_are_read() {
    assert_eq!(read_printed_number("(1,)\n"), Some(1));
    assert_eq!(read_printed_number("(0,)"), Some(0));
    assert_eq!(read_printed_number(" (( 12 ,, )) "), Some(12));
    assert_eq!(read_printed_number("7"), Some(7));
    assert_eq!(read_printed_number("('1',)"), None);
    assert_eq!(read_printed_number("(-1,)"), None);
    assert_eq!(read_printed_number("(4294967295,)"), Some(u32::MAX));
    assert_eq!(read_printed_number("(4294967296,)"), None);
    assert_eq!(read_printed_number(""), None);
}

#[test]
fn printed_numbers_agree_with_string_trimming() {
    let answers = [
        "(1,)", "((2,))", ",3,", "( ,4, )", "(5", "6)", ")7(", "(8,\u{a0})", "(,9)", "(1 0,)", "()",
        "\u{2003}(11,)\r\n", "(+12,)",
    ];
    for answer in answers {
        let wanted = answer
            .trim()
            .trim_start_matches('(')
            .trim_end_matches(')')
            .trim()
            .trim_matches(',')
            .trim()
            .parse::<u32>()
            .ok();
        assert_eq!(read_printed_number(answer), wanted, "{answer:?}");
    }
}

#[test]
fn adopted_containments_of_a_failed_call_are_none() {
    let finished = |success, stdout: &[u8]| CommandReport::Finished {
        success,
        stdout: stdout.to_vec(),
    };
    assert_eq!(adopted_containments(&finished(true, b"(1,)\n")), 1);
    assert_eq!(adopted_containments(&finished(false, b"(1,)\n")), 0);
    assert_eq!(adopted_containments(&finished(true, b"('',)\n")), 0);
    assert_eq!(adopted_containments(&CommandReport::NotRun), 0);
}

#[test]
fn scripts_are_handed_to_the_shell() {
    assert_eq!(
        evaluate_words("print(1)"),
        strings(&[
            "gdbus",
            "call",
            "--session",
            "--dest",
            "org.kde.plasmashell",
            "--object-path",
            "/PlasmaShell",
            "--method",
            "org.kde.PlasmaShell.evaluateScript",
            "print(1)",
        ])
    );
    // The line breaks in the source are not part of the scripts.
    for script in [REATTACH_SCRIPT, PROBE_SCRIPT] {
        assert!(script.starts_with("var d=desktops();"));
        assert!(!script.contains('\n') && !script.contains("  "));
    }
    assert!(REATTACH_SCRIPT.ends_with("print(n)"));
    assert!(PROBE_SCRIPT.ends_with("print(occ+'+'+orph)"));
}
