//! The desktop shell: restarting plasmashell, and what its scripting
//! interface answers.

use vstd::prelude::*;

use super::kscreen;
use super::kscreen::CommandReport;
use super::text;

verus! {

/// How long, in milliseconds, the systemd unit is given after a restart.
pub const UNIT_SETTLE_MS: u64 = 1500;

/// How long, in milliseconds, to wait between two looks at the process.
pub const PROCESS_POLL_MS: u64 = 500;

/// Looks at the process while it exits cleanly (up to 5s).
pub const EXIT_POLLS: u8 = 10;

/// Looks at the process after it was told to terminate (up to 3s).
pub const TERMINATE_POLLS: u8 = 6;

/// Looks for the relaunched process (up to 8s).
pub const LAUNCH_POLLS: u8 = 16;

// ---------------------------------------------------------------------------
// Restarting
// ---------------------------------------------------------------------------

/// A command of the restart.
#[derive(Debug, Clone, Copy, PartialEq, Eq)]
pub enum ShellCommand {
    /// Ask whether the systemd unit is active.
    UnitActive,
    /// Restart the systemd unit.
    RestartUnit,
    /// Ask the shell to quit.
    Quit,
    /// Send the shell a TERM signal.
    Terminate,
    /// Launch the shell inside the session.
    Launch,
    /// Ask whether the shell runs.
    Alive,
}

/// Program and arguments of a command.
pub open spec fn command_words(command: ShellCommand) -> Seq<Seq<char>> {
    match command {
        ShellCommand::UnitActive => seq![
            "systemctl"@,
            "--user"@,
            "is-active"@,
            "--quiet"@,
            "plasma-plasmashell.service"@,
        ],
        ShellCommand::RestartUnit => seq![
            "systemctl"@,
            "--user"@,
            "restart"@,
            "plasma-plasmashell.service"@,
        ],
        ShellCommand::Quit => seq!["kquitapp6"@, "plasmashell"@],
        ShellCommand::Terminate => seq!["pkill"@, "-TERM"@, "-x"@, "plasmashell"@],
        ShellCommand::Launch => seq!["kstart"@, "plasmashell"@],
        ShellCommand::Alive => seq!["pgrep"@, "-x"@, "plasmashell"@],
    }
}

impl ShellCommand {
    /// Program and arguments of the command.
    pub fn words(self) -> (words: Vec<String>)
        ensures
            kscreen::texts(words@) == command_words(self),
            kscreen::texts(words@) == match self {
                ShellCommand::UnitActive => seq![
                    "systemctl"@,
                    "--user"@,
                    "is-active"@,
                    "--quiet"@,
                    "plasma-plasmashell.service"@,
                ],
                ShellCommand::RestartUnit => seq![
                    "systemctl"@,
                    "--user"@,
                    "restart"@,
                    "plasma-plasmashell.service"@,
                ],
                ShellCommand::Quit => seq!["kquitapp6"@, "plasmashell"@],
                ShellCommand::Terminate => seq!["pkill"@, "-TERM"@, "-x"@, "plasmashell"@],
                ShellCommand::Launch => seq!["kstart"@, "plasmashell"@],
                ShellCommand::Alive => seq!["pgrep"@, "-x"@, "plasmashell"@],
            },
    {
        let mut words: Vec<String> = Vec::new();
        match self {
            ShellCommand::UnitActive => {
                words.push("systemctl".to_owned());
                words.push("--user".to_owned());
                words.push("is-active".to_owned());
                words.push("--quiet".to_owned());
                words.push("plasma-plasmashell.service".to_owned());
            },
            ShellCommand::RestartUnit => {
                words.push("systemctl".to_owned());
                words.push("--user".to_owned());
                words.push("restart".to_owned());
                words.push("plasma-plasmashell.service".to_owned());
            },
            ShellCommand::Quit => {
                words.push("kquitapp6".to_owned());
                words.push("plasmashell".to_owned());
            },
            ShellCommand::Terminate => {
                words.push("pkill".to_owned());
                words.push("-TERM".to_owned());
                words.push("-x".to_owned());
                words.push("plasmashell".to_owned());
            },
            ShellCommand::Launch => {
                words.push("kstart".to_owned());
                words.push("plasmashell".to_owned());
            },
            ShellCommand::Alive => {
                words.push("pgrep".to_owned());
                words.push("-x".to_owned());
                words.push("plasmashell".to_owned());
            },
        }
        assert(kscreen::texts(words@) =~= command_words(self));
        words
    }
}

/// Where a restart stands. `left` counts the looks at the process that
/// remain.
#[derive(Debug, Clone, Copy, PartialEq, Eq)]
pub enum RestartStage {
    /// Is the systemd unit active?
    AskingUnit,
    /// The systemd unit is to be restarted.
    RestartingUnit,
    /// The unit was restarted; wait.
    UnitPause,
    /// Does the shell of the unit run?
    UnitCheck,
    /// The shell is to be asked to quit.
    Quitting,
    /// Has the shell exited?
    ExitPoll { left: u8 },
    /// Not yet; wait.
    ExitPause { left: u8 },
    /// Has the shell exited, or does it hang?
    HungCheck,
    /// It hangs, and is to be told to terminate.
    Terminating,
    /// Has it terminated?
    TerminatePoll { left: u8 },
    /// Not yet; wait.
    TerminatePause { left: u8 },
    /// The shell is to be launched.
    Launching,
    /// Does the shell run?
    LaunchPoll { left: u8 },
    /// Not yet; wait.
    LaunchPause { left: u8 },
    /// Done; `alive` tells that the shell came back.
    Finished { alive: bool },
}

/// What became of a step.
#[derive(Debug, Clone, Copy, PartialEq, Eq)]
pub enum RestartEvent {
    /// A command ran; did it succeed?
    Ran(bool),
    /// The wait is over.
    Waited,
}

/// The step to take next.
#[derive(Debug, Clone, Copy, PartialEq, Eq)]
pub enum RestartAction {
    Run(ShellCommand),
    Wait { ms: u64 },
    Done { alive: bool },
}

/// The stage that an event leads to. An event that does not belong to the
/// step at hand leads nowhere.
pub open spec fn next_restart_stage(stage: RestartStage, event: RestartEvent) -> RestartStage {
    match event {
        RestartEvent::Ran(ok) => match stage {
            RestartStage::AskingUnit => if ok {
                RestartStage::RestartingUnit
            } else {
                RestartStage::Quitting
            },
            RestartStage::RestartingUnit => if ok {
                RestartStage::UnitPause
            } else {
                RestartStage::Finished { alive: false }
            },
            RestartStage::UnitCheck => RestartStage::Finished { alive: ok },
            RestartStage::Quitting => RestartStage::ExitPoll { left: EXIT_POLLS },
            RestartStage::ExitPoll { left } => if ok {
                RestartStage::ExitPause { left }
            } else {
                RestartStage::HungCheck
            },
            RestartStage::HungCheck => if ok {
                RestartStage::Terminating
            } else {
                RestartStage::Launching
            },
            RestartStage::Terminating => RestartStage::TerminatePoll { left: TERMINATE_POLLS },
            RestartStage::TerminatePoll { left } => if ok {
                RestartStage::TerminatePause { left }
            } else {
                RestartStage::Launching
            },
            RestartStage::Launching => RestartStage::LaunchPoll { left: LAUNCH_POLLS },
            RestartStage::LaunchPoll { left } => if ok {
                RestartStage::Finished { alive: true }
            } else {
                RestartStage::LaunchPause { left }
            },
            _ => stage,
        },
        RestartEvent::Waited => match stage {
            RestartStage::UnitPause => RestartStage::UnitCheck,
            RestartStage::ExitPause { left } => if left > 1 {
                RestartStage::ExitPoll { left: (left - 1) as u8 }
            } else {
                RestartStage::HungCheck
            },
            RestartStage::TerminatePause { left } => if left > 1 {
                RestartStage::TerminatePoll { left: (left - 1) as u8 }
            } else {
                RestartStage::Launching
            },
            RestartStage::LaunchPause { left } => if left > 1 {
                RestartStage::LaunchPoll { left: (left - 1) as u8 }
            } else {
                RestartStage::Finished { alive: false }
            },
            _ => stage,
        },
    }
}

/// The step that a stage asks for.
pub open spec fn restart_action(stage: RestartStage) -> RestartAction {
    match stage {
        RestartStage::AskingUnit => RestartAction::Run(ShellCommand::UnitActive),
        RestartStage::RestartingUnit => RestartAction::Run(ShellCommand::RestartUnit),
        RestartStage::UnitPause => RestartAction::Wait { ms: UNIT_SETTLE_MS },
        RestartStage::UnitCheck => RestartAction::Run(ShellCommand::Alive),
        RestartStage::Quitting => RestartAction::Run(ShellCommand::Quit),
        RestartStage::ExitPoll { .. } => RestartAction::Run(ShellCommand::Alive),
        RestartStage::ExitPause { .. } => RestartAction::Wait { ms: PROCESS_POLL_MS },
        RestartStage::HungCheck => RestartAction::Run(ShellCommand::Alive),
        RestartStage::Terminating => RestartAction::Run(ShellCommand::Terminate),
        RestartStage::TerminatePoll { .. } => RestartAction::Run(ShellCommand::Alive),
        RestartStage::TerminatePause { .. } => RestartAction::Wait { ms: PROCESS_POLL_MS },
        RestartStage::Launching => RestartAction::Run(ShellCommand::Launch),
        RestartStage::LaunchPoll { .. } => RestartAction::Run(ShellCommand::Alive),
        RestartStage::LaunchPause { .. } => RestartAction::Wait { ms: PROCESS_POLL_MS },
        RestartStage::Finished { alive } => RestartAction::Done { alive },
    }
}

impl RestartStage {
    /// Restart plasmashell.
    ///
    /// Mechanism ladder (portable across Plasma launches):
    /// 1. The systemd unit is active: restart the unit.
    /// 2. Otherwise: graceful quit, wait out the exit, then relaunch inside
    ///    the session. A hung shell is terminated after the grace window.
    pub fn start() -> (stage: Self)
        ensures
            stage == RestartStage::AskingUnit,
    {
        RestartStage::AskingUnit
    }

    /// The stage that an event leads to.
    pub fn advance(self, event: RestartEvent) -> (next: Self)
        ensures
            next == next_restart_stage(self, event),
    {
        match event {
            RestartEvent::Ran(ok) => self.after_run(ok),
            RestartEvent::Waited => self.after_wait(),
        }
    }

    fn after_run(self, ok: bool) -> (next: Self)
        ensures
            next == next_restart_stage(self, RestartEvent::Ran(ok)),
    {
        match self {
            RestartStage::AskingUnit => {
                if ok {
                    RestartStage::RestartingUnit
                } else {
                    RestartStage::Quitting
                }
            },
            RestartStage::RestartingUnit => {
                if ok {
                    RestartStage::UnitPause
                } else {
                    RestartStage::Finished { alive: false }
                }
            },
            RestartStage::UnitCheck => RestartStage::Finished { alive: ok },
            RestartStage::Quitting => RestartStage::ExitPoll { left: EXIT_POLLS },
            RestartStage::ExitPoll { left } => {
                if ok {
                    RestartStage::ExitPause { left }
                } else {
                    RestartStage::HungCheck
                }
            },
            RestartStage::HungCheck => {
                if ok {
                    RestartStage::Terminating
                } else {
                    RestartStage::Launching
                }
            },
            RestartStage::Terminating => RestartStage::TerminatePoll { left: TERMINATE_POLLS },
            RestartStage::TerminatePoll { left } => {
                if ok {
                    RestartStage::TerminatePause { left }
                } else {
                    RestartStage::Launching
                }
            },
            RestartStage::Launching => RestartStage::LaunchPoll { left: LAUNCH_POLLS },
            RestartStage::LaunchPoll { left } => {
                if ok {
                    RestartStage::Finished { alive: true }
                } else {
                    RestartStage::LaunchPause { left }
                }
            },
            stage => stage,
        }
    }

    fn after_wait(self) -> (next: Self)
        ensures
            next == next_restart_stage(self, RestartEvent::Waited),
    {
        match self {
            RestartStage::UnitPause => RestartStage::UnitCheck,
            RestartStage::ExitPause { left } => {
                if left > 1 {
                    RestartStage::ExitPoll { left: left - 1 }
                } else {
                    RestartStage::HungCheck
                }
            },
            RestartStage::TerminatePause { left } => {
                if left > 1 {
                    RestartStage::TerminatePoll { left: left - 1 }
                } else {
                    RestartStage::Launching
                }
            },
            RestartStage::LaunchPause { left } => {
                if left > 1 {
                    RestartStage::LaunchPoll { left: left - 1 }
                } else {
                    RestartStage::Finished { alive: false }
                }
            },
            stage => stage,
        }
    }

    /// The step to take next.
    pub fn action(self) -> (action: RestartAction)
        ensures
            action == restart_action(self),
    {
        match self {
            RestartStage::AskingUnit => RestartAction::Run(ShellCommand::UnitActive),
            RestartStage::RestartingUnit => RestartAction::Run(ShellCommand::RestartUnit),
            RestartStage::UnitPause => RestartAction::Wait { ms: UNIT_SETTLE_MS },
            RestartStage::UnitCheck => RestartAction::Run(ShellCommand::Alive),
            RestartStage::Quitting => RestartAction::Run(ShellCommand::Quit),
            RestartStage::ExitPoll { .. } => RestartAction::Run(ShellCommand::Alive),
            RestartStage::ExitPause { .. } => RestartAction::Wait { ms: PROCESS_POLL_MS },
            RestartStage::HungCheck => RestartAction::Run(ShellCommand::Alive),
            RestartStage::Terminating => RestartAction::Run(ShellCommand::Terminate),
            RestartStage::TerminatePoll { .. } => RestartAction::Run(ShellCommand::Alive),
            RestartStage::TerminatePause { .. } => RestartAction::Wait { ms: PROCESS_POLL_MS },
            RestartStage::Launching => RestartAction::Run(ShellCommand::Launch),
            RestartStage::LaunchPoll { .. } => RestartAction::Run(ShellCommand::Alive),
            RestartStage::LaunchPause { .. } => RestartAction::Wait { ms: PROCESS_POLL_MS },
            RestartStage::Finished { alive } => RestartAction::Done { alive },
        }
    }
}

/// The shell is reported back only on the strength of a look at the process
/// that found it running.
pub proof fn law_restart_success_is_seen(stage: RestartStage, event: RestartEvent)
    requires
        !(stage is Finished),
        next_restart_stage(stage, event) == (RestartStage::Finished { alive: true }),
    ensures
        restart_action(stage) == RestartAction::Run(ShellCommand::Alive),
        event == RestartEvent::Ran(true),
{
}

/// Whether an event answers the step that a stage asks for.
pub open spec fn answers(stage: RestartStage, event: RestartEvent) -> bool {
    match restart_action(stage) {
        RestartAction::Run(_) => event is Ran,
        RestartAction::Wait { .. } => event is Waited,
        RestartAction::Done { .. } => false,
    }
}

/// How many steps a restart may still take.
pub open spec fn restart_steps_left(stage: RestartStage) -> int {
    match stage {
        RestartStage::AskingUnit => 2000,
        RestartStage::RestartingUnit => 3,
        RestartStage::UnitPause => 2,
        RestartStage::UnitCheck => 1,
        RestartStage::Quitting => 1999,
        RestartStage::ExitPoll { left } => 1400 + 2 * left + 2,
        RestartStage::ExitPause { left } => 1400 + 2 * left + 1,
        RestartStage::HungCheck => 1400,
        RestartStage::Terminating => 1399,
        RestartStage::TerminatePoll { left } => 700 + 2 * left + 2,
        RestartStage::TerminatePause { left } => 700 + 2 * left + 1,
        RestartStage::Launching => 700,
        RestartStage::LaunchPoll { left } => 100 + 2 * left + 2,
        RestartStage::LaunchPause { left } => 100 + 2 * left + 1,
        RestartStage::Finished { .. } => 0,
    }
}

/// Every step that is taken brings the end closer: a restart cannot hang.
pub proof fn law_restart_ends(stage: RestartStage, event: RestartEvent)
    requires
        answers(stage, event),
    ensures
        0 <= restart_steps_left(next_restart_stage(stage, event)) < restart_steps_left(stage),
{
}

// ---------------------------------------------------------------------------
// Reattaching containments
// ---------------------------------------------------------------------------

/// Adopts the oldest orphaned desktop containment for screen 0, and prints
/// how many it adopted.
///
/// A recreated output gets a fresh screen id, while the desktop stays glued to
/// the one that is gone: its screen is then negative. An orphan is adopted
/// ONLY while no desktop sits on screen 0: with two on one screen Plasma evicts
/// one of them arbitrarily.
pub const REATTACH_SCRIPT: &'static str = "var d=desktops();var occupied=false;var best=-1;\
    for(var i=0;i<d.length;i++){\
    if(d[i].screen===0){occupied=true}\
    if(d[i].screen<0&&(best<0||d[i].id<best)){best=d[i].id}}\
    var n=0;\
    if(!occupied&&best>=0){\
    for(var j=0;j<d.length;j++){\
    if(d[j].id===best){d[j].screen=0;n=1}}}\
    print(n)";

/// Prints which desktop sits on screen 0, and which is an orphan.
pub const PROBE_SCRIPT: &'static str = "var d=desktops();var occ=-1;var orph=-1;\
    for(var i=0;i<d.length;i++){\
    if(d[i].screen===0){occ=d[i].id}\
    if(d[i].screen<0){orph=d[i].id}}\
    print(occ+'+'+orph)";

/// Program and arguments that have the shell evaluate `script`.
pub fn evaluate_words(script: &str) -> (words: Vec<String>)
    ensures
        kscreen::texts(words@) == seq![
            "gdbus"@,
            "call"@,
            "--session"@,
            "--dest"@,
            "org.kde.plasmashell"@,
            "--object-path"@,
            "/PlasmaShell"@,
            "--method"@,
            "org.kde.PlasmaShell.evaluateScript"@,
            script@,
        ],
{
    let mut words: Vec<String> = Vec::new();
    words.push("gdbus".to_owned());
    words.push("call".to_owned());
    words.push("--session".to_owned());
    words.push("--dest".to_owned());
    words.push("org.kde.plasmashell".to_owned());
    words.push("--object-path".to_owned());
    words.push("/PlasmaShell".to_owned());
    words.push("--method".to_owned());
    words.push("org.kde.PlasmaShell.evaluateScript".to_owned());
    words.push(script.to_owned());
    words
}

/// `text` without the `c`s it begins with.
pub open spec fn drop_leading(text: Seq<char>, c: char) -> Seq<char>
    decreases text.len(),
{
    if text.len() > 0 && text[0] == c {
        drop_leading(text.skip(1), c)
    } else {
        text
    }
}

/// `text` without the `c`s it ends with.
pub open spec fn drop_trailing(text: Seq<char>, c: char) -> Seq<char>
    decreases text.len(),
{
    if text.len() > 0 && text.last() == c {
        drop_trailing(text.drop_last(), c)
    } else {
        text
    }
}

/// The number that an evaluated script printed, if it printed one: the
/// answer looks like `(1,)`.
pub open spec fn printed_number(answer: Seq<char>) -> Option<int> {
    let inner = text::trimmed(
        drop_trailing(drop_leading(text::trimmed(answer), '('), ')'),
    );
    text::unsigned(text::trimmed(drop_trailing(drop_leading(inner, ','), ',')))
}

fn strip_leading<'a>(chars: &'a [char], c: char) -> (rest: &'a [char])
    ensures
        rest@ == drop_leading(chars@, c),
{
    let mut i: usize = 0;
    assert(chars@.skip(0) =~= chars@);
    while i < chars.len() && chars[i] == c
        invariant
            i <= chars@.len(),
            drop_leading(chars@.skip(i as int), c) == drop_leading(chars@, c),
        decreases chars@.len() - i,
    {
        assert(chars@.skip(i as int).skip(1) =~= chars@.skip(i + 1));
        i = i + 1;
    }
    let rest = vstd::slice::slice_subrange(chars, i, chars.len());
    assert(rest@ =~= chars@.skip(i as int));
    rest
}

fn strip_trailing<'a>(chars: &'a [char], c: char) -> (rest: &'a [char])
    ensures
        rest@ == drop_trailing(chars@, c),
{
    let mut n: usize = chars.len();
    assert(chars@.take(n as int) =~= chars@);
    while n > 0 && chars[n - 1] == c
        invariant
            n <= chars@.len(),
            drop_trailing(chars@.take(n as int), c) == drop_trailing(chars@, c),
        decreases n,
    {
        assert(chars@.take(n as int).drop_last() =~= chars@.take(n - 1));
        n = n - 1;
    }
    let rest = vstd::slice::slice_subrange(chars, 0, n);
    assert(rest@ =~= chars@.take(n as int));
    rest
}

/// The number that an evaluated script printed, if it printed one.
pub fn read_printed_number(answer: &str) -> (printed: Option<u32>)
    ensures
        match printed {
            Some(n) => printed_number(answer@) == Some(n as int),
            None => printed_number(answer@) is None,
        },
{
    let chars = text::chars_of(answer);
    let outer = text::trim(chars.as_slice());
    let inner = text::trim(strip_trailing(strip_leading(outer, '('), ')'));
    let digits = text::trim(strip_trailing(strip_leading(inner, ','), ','));
    text::read_unsigned(digits)
}

/// How many containments the reattach script adopted: the number it printed,
/// or none where the call failed or its answer cannot be read.
pub fn adopted_containments(report: &CommandReport) -> (adopted: u32)
    ensures
        adopted as int == match report.text() {
            Some(answer) => match printed_number(answer) {
                Some(n) => n,
                None => 0,
            },
            None => 0,
        },
{
    match report.read() {
        Some(answer) => match read_printed_number(answer.as_str()) {
            Some(n) => n,
            None => 0,
        },
        None => 0,
    }
}

// ---------------------------------------------------------------------------
// How a restart goes
// ---------------------------------------------------------------------------

/// The stage after a run of events.
pub open spec fn restart_stage_after(stage: RestartStage, events: Seq<RestartEvent>) -> RestartStage
    decreases events.len(),
{
    if events.len() == 0 {
        stage
    } else {
        next_restart_stage(restart_stage_after(stage, events.drop_last()), events.last())
    }
}

/// An active unit is restarted, and after 1.5 seconds a look at the process
/// decides. A unit that cannot be restarted is given up at once.
pub proof fn law_active_unit_is_restarted(alive: bool)
    ensures
        restart_action(RestartStage::AskingUnit) == RestartAction::Run(ShellCommand::UnitActive),
        ({
            let active = next_restart_stage(RestartStage::AskingUnit, RestartEvent::Ran(true));
            let restarted = next_restart_stage(active, RestartEvent::Ran(true));
            let waited = next_restart_stage(restarted, RestartEvent::Waited);
            let looked = next_restart_stage(waited, RestartEvent::Ran(alive));
            let refused = next_restart_stage(active, RestartEvent::Ran(false));
            &&& restart_action(active) == RestartAction::Run(ShellCommand::RestartUnit)
            &&& restart_action(restarted) == (RestartAction::Wait { ms: 1500 })
            &&& restart_action(waited) == RestartAction::Run(ShellCommand::Alive)
            &&& restart_action(looked) == (RestartAction::Done { alive })
            &&& restart_action(refused) == (RestartAction::Done { alive: false })
        }),
{
}

/// Without an active unit the shell is asked to quit, whether or not that
/// works, and then looked after; one that has gone is launched at once.
pub proof fn law_inactive_unit_means_quit_and_launch(quit: bool, launched: bool)
    ensures
        ({
            let quitting = next_restart_stage(RestartStage::AskingUnit, RestartEvent::Ran(false));
            let looking = next_restart_stage(quitting, RestartEvent::Ran(quit));
            let gone = next_restart_stage(looking, RestartEvent::Ran(false));
            let launching = next_restart_stage(gone, RestartEvent::Ran(false));
            let waiting = next_restart_stage(launching, RestartEvent::Ran(launched));
            let up = next_restart_stage(waiting, RestartEvent::Ran(true));
            &&& restart_action(quitting) == RestartAction::Run(ShellCommand::Quit)
            &&& restart_action(looking) == RestartAction::Run(ShellCommand::Alive)
            &&& restart_action(gone) == RestartAction::Run(ShellCommand::Alive)
            &&& restart_action(launching) == RestartAction::Run(ShellCommand::Launch)
            &&& restart_action(waiting) == RestartAction::Run(ShellCommand::Alive)
            &&& restart_action(up) == (RestartAction::Done { alive: true })
        }),
{
}

/// One look at the process and the wait after it, over and over.
pub open spec fn looks(ok: bool, n: nat) -> Seq<RestartEvent>
    decreases n,
{
    if n == 0 {
        Seq::empty()
    } else {
        looks(ok, (n - 1) as nat).push(RestartEvent::Ran(ok)).push(RestartEvent::Waited)
    }
}

/// A shell that does not go away is looked at ten times, half a second apart,
/// then once more; it is then terminated, and looked at six times before it is
/// launched anew. Any look that finds it gone ends that wait.
pub proof fn law_hung_shell_is_terminated(quit: bool, terminated: bool, n: nat)
    ensures
        ({
            let looking = next_restart_stage(
                next_restart_stage(RestartStage::AskingUnit, RestartEvent::Ran(false)),
                RestartEvent::Ran(quit),
            );
            let pending = restart_stage_after(looking, looks(true, n));
            let hung = restart_stage_after(looking, looks(true, 10));
            let terminating = next_restart_stage(hung, RestartEvent::Ran(true));
            let killed = next_restart_stage(terminating, RestartEvent::Ran(terminated));
            let still = restart_stage_after(killed, looks(true, n));
            let launching = restart_stage_after(killed, looks(true, 6));
            &&& n < 10 ==> restart_action(pending) == RestartAction::Run(ShellCommand::Alive)
            &&& n < 10 ==> restart_action(next_restart_stage(pending, RestartEvent::Ran(true))) == (
            RestartAction::Wait { ms: 500 })
            &&& n < 10 ==> next_restart_stage(pending, RestartEvent::Ran(false)) == hung
            &&& restart_action(hung) == RestartAction::Run(ShellCommand::Alive)
            &&& restart_action(terminating) == RestartAction::Run(ShellCommand::Terminate)
            &&& n < 6 ==> restart_action(still) == RestartAction::Run(ShellCommand::Alive)
            &&& n < 6 ==> restart_action(next_restart_stage(still, RestartEvent::Ran(true))) == (
            RestartAction::Wait { ms: 500 })
            &&& n < 6 ==> next_restart_stage(still, RestartEvent::Ran(false)) == launching
            &&& restart_action(launching) == RestartAction::Run(ShellCommand::Launch)
            &&& next_restart_stage(hung, RestartEvent::Ran(false)) == launching
        }),
{
    let looking = RestartStage::ExitPoll { left: 10 };
    let killed = RestartStage::TerminatePoll { left: 6 };
    lemma_exit_looks(n);
    lemma_exit_looks(10);
    lemma_terminate_looks(n);
    lemma_terminate_looks(6);
    assert(restart_stage_after(looking, looks(true, 10)) == RestartStage::HungCheck);
    assert(restart_stage_after(killed, looks(true, 6)) == RestartStage::Launching);
}

/// A launched shell is looked for sixteen times, half a second apart; the look
/// that finds it ends the restart, and without one it is given up.
pub proof fn law_launched_shell_is_waited_for(launched: bool, n: nat)
    ensures
        ({
            let waiting = next_restart_stage(RestartStage::Launching, RestartEvent::Ran(launched));
            let pending = restart_stage_after(waiting, looks(false, n));
            &&& n < 16 ==> restart_action(pending) == RestartAction::Run(ShellCommand::Alive)
            &&& n < 16 ==> restart_action(next_restart_stage(pending, RestartEvent::Ran(false))) == (
            RestartAction::Wait { ms: 500 })
            &&& n < 16 ==> restart_action(next_restart_stage(pending, RestartEvent::Ran(true))) == (
            RestartAction::Done { alive: true })
            &&& n == 16 ==> restart_action(pending) == (RestartAction::Done { alive: false })
        }),
{
    lemma_launch_looks(n);
}

proof fn lemma_look(stage: RestartStage, ok: bool, n: nat)
    requires
        n > 0,
    ensures
        restart_stage_after(stage, looks(ok, n)) == next_restart_stage(
            next_restart_stage(
                restart_stage_after(stage, looks(ok, (n - 1) as nat)),
                RestartEvent::Ran(ok),
            ),
            RestartEvent::Waited,
        ),
{
    let before = looks(ok, (n - 1) as nat);
    let ran = before.push(RestartEvent::Ran(ok));
    let all = looks(ok, n);
    assert(all == ran.push(RestartEvent::Waited));
    assert(all.drop_last() =~= ran);
    assert(all.last() == RestartEvent::Waited);
    assert(ran.drop_last() =~= before);
    assert(ran.last() == RestartEvent::Ran(ok));
    assert(restart_stage_after(stage, ran) == next_restart_stage(
        restart_stage_after(stage, before),
        RestartEvent::Ran(ok),
    ));
}

proof fn lemma_exit_looks(n: nat)
    ensures
        n < 10 ==> restart_stage_after(RestartStage::ExitPoll { left: 10 }, looks(true, n)) == (
        RestartStage::ExitPoll { left: (10 - n) as u8 }),
        n == 10 ==> restart_stage_after(RestartStage::ExitPoll { left: 10 }, looks(true, n))
            == RestartStage::HungCheck,
    decreases n,
{
    if 0 < n <= 10 {
        lemma_exit_looks((n - 1) as nat);
        lemma_look(RestartStage::ExitPoll { left: 10 }, true, n);
    }
}

proof fn lemma_terminate_looks(n: nat)
    ensures
        n < 6 ==> restart_stage_after(RestartStage::TerminatePoll { left: 6 }, looks(true, n)) == (
        RestartStage::TerminatePoll { left: (6 - n) as u8 }),
        n == 6 ==> restart_stage_after(RestartStage::TerminatePoll { left: 6 }, looks(true, n))
            == RestartStage::Launching,
    decreases n,
{
    if 0 < n <= 6 {
        lemma_terminate_looks((n - 1) as nat);
        lemma_look(RestartStage::TerminatePoll { left: 6 }, true, n);
    }
}

proof fn lemma_launch_looks(n: nat)
    ensures
        n < 16 ==> restart_stage_after(RestartStage::LaunchPoll { left: 16 }, looks(false, n)) == (
        RestartStage::LaunchPoll { left: (16 - n) as u8 }),
        n == 16 ==> restart_stage_after(RestartStage::LaunchPoll { left: 16 }, looks(false, n)) == (
        RestartStage::Finished { alive: false }),
    decreases n,
{
    if 0 < n <= 16 {
        lemma_launch_looks((n - 1) as nat);
        lemma_look(RestartStage::LaunchPoll { left: 16 }, false, n);
    }
}

/// A number that a script printed reads as itself, in the form `(n,)` that the
/// interface answers in, with white space around it or without.
pub proof fn law_printed_numbers_read(lead: Seq<char>, n: u32, tail: Seq<char>)
    requires
        text::is_blank(lead),
        text::is_blank(tail),
    ensures
        printed_number(lead + seq!['('] + text::decimal(n as int) + seq![',', ')'] + tail) == Some(
            n as int,
        ),
{
    let digits = text::decimal(n as int);
    let core = seq!['('] + digits + seq![',', ')'];
    text::law_written_numbers_are_plain(n as int);
    assert(lead + seq!['('] + digits + seq![',', ')'] + tail =~= lead + core + tail);
    text::law_trimming(lead, core, tail);
    assert(text::is_digit(digits[0]));
    assert(text::is_digit(digits[digits.len() - 1]));
    let opened = digits + seq![',', ')'];
    let closed = digits + seq![','];
    let none = Seq::<char>::empty();
    assert(core =~= seq!['('] + opened);
    lemma_drop_one_leading('(', opened);
    assert(opened =~= closed.push(')'));
    lemma_drop_one_trailing(closed, ')');
    text::law_trimming(none, closed, none);
    assert(none + closed + none =~= closed);
    lemma_nothing_to_drop(closed, ',');
    assert(closed =~= digits.push(','));
    lemma_drop_one_trailing(digits, ',');
    text::law_trimming(none, digits, none);
    assert(none + digits + none =~= digits);
    text::law_numbers_read(digits);
}

proof fn lemma_nothing_to_drop(text: Seq<char>, c: char)
    requires
        text.len() > 0,
        text[0] != c,
    ensures
        drop_leading(text, c) == text,
{
}

proof fn lemma_drop_one_leading(c: char, rest: Seq<char>)
    requires
        rest.len() > 0,
        rest[0] != c,
    ensures
        drop_leading(seq![c] + rest, c) == rest,
{
    assert((seq![c] + rest).skip(1) =~= rest);
    lemma_nothing_to_drop(rest, c);
}

proof fn lemma_drop_one_trailing(rest: Seq<char>, c: char)
    requires
        rest.len() > 0,
        rest.last() != c,
    ensures
        drop_trailing(rest.push(c), c) == rest,
{
    assert(rest.push(c).drop_last() =~= rest);
    assert(drop_trailing(rest, c) == rest);
}

/// An event that does not answer the step at hand leaves a restart where it
/// is.
pub proof fn law_restart_ignores_events_out_of_turn(stage: RestartStage, event: RestartEvent)
    requires
        match restart_action(stage) {
            RestartAction::Run(_) => event is Waited,
            RestartAction::Wait { .. } => event is Ran,
            RestartAction::Done { .. } => true,
        },
    ensures
        next_restart_stage(stage, event) == stage,
{
}

/// An answer with any character that is no digit, no sign, no bracket, no comma
/// and no white space prints no number.
pub proof fn law_other_answers_print_no_number(answer: Seq<char>, i: int)
    requires
        0 <= i < answer.len(),
        !('0' <= answer[i] && answer[i] <= '9'),
        answer[i] != '+',
        answer[i] != '-',
        answer[i] != '(',
        answer[i] != ')',
        answer[i] != ',',
        !text::is_white_space(answer[i]),
    ensures
        printed_number(answer) is None,
{
    let c = answer[i];
    let outer = text::trimmed(answer);
    lemma_trimmed_keeps(answer, c);
    lemma_dropping_keeps(outer, '(', c);
    lemma_dropping_keeps(drop_leading(outer, '('), ')', c);
    let inner = text::trimmed(drop_trailing(drop_leading(outer, '('), ')'));
    lemma_trimmed_keeps(drop_trailing(drop_leading(outer, '('), ')'), c);
    lemma_dropping_keeps(inner, ',', c);
    lemma_dropping_keeps(drop_leading(inner, ','), ',', c);
    let rest = drop_trailing(drop_leading(inner, ','), ',');
    lemma_trimmed_keeps(rest, c);
    let digits = text::trimmed(rest);
    let k = choose|k: int| 0 <= k < digits.len() && digits[k] == c;
    assert(!('0' <= digits[k] && digits[k] <= '9'));
    text::law_other_text_is_no_number(digits);
}

proof fn lemma_trimmed_keeps(text: Seq<char>, c: char)
    requires
        text.contains(c),
        !text::is_white_space(c),
    ensures
        text::trimmed(text).contains(c),
{
    lemma_trim_start_keeps(text, c);
    lemma_trim_end_keeps(text::trim_start(text), c);
}

proof fn lemma_trim_start_keeps(text: Seq<char>, c: char)
    requires
        text.contains(c),
        !text::is_white_space(c),
    ensures
        text::trim_start(text).contains(c),
    decreases text.len(),
{
    if text::is_white_space(text[0]) {
        let k = choose|k: int| 0 <= k < text.len() && text[k] == c;
        assert(text.skip(1)[k - 1] == c);
        lemma_trim_start_keeps(text.skip(1), c);
    }
}

proof fn lemma_trim_end_keeps(text: Seq<char>, c: char)
    requires
        text.contains(c),
        !text::is_white_space(c),
    ensures
        text::trim_end(text).contains(c),
    decreases text.len(),
{
    if text::is_white_space(text.last()) {
        let k = choose|k: int| 0 <= k < text.len() && text[k] == c;
        assert(text.drop_last()[k] == c);
        lemma_trim_end_keeps(text.drop_last(), c);
    }
}

proof fn lemma_dropping_keeps(text: Seq<char>, dropped: char, c: char)
    requires
        text.contains(c),
        c != dropped,
    ensures
        drop_leading(text, dropped).contains(c),
        drop_trailing(text, dropped).contains(c),
    decreases text.len(),
{
    let k = choose|k: int| 0 <= k < text.len() && text[k] == c;
    if text[0] == dropped {
        assert(text.skip(1)[k - 1] == c);
        lemma_dropping_keeps(text.skip(1), dropped, c);
    }
    if text.last() == dropped {
        assert(text.drop_last()[k] == c);
        lemma_dropping_keeps(text.drop_last(), dropped, c);
    }
}

} // verus!
