//! Creating a stream: the connection thread it needs, the steps to its
//! PipeWire node, and what is done for the desktop afterwards.
//!
//! The steps are taken from outside, one after the other; [`RecreateFlow`]
//! says which comes next, and how the whole ends.

use vstd::prelude::*;

use super::stream::{SETTLE_CLOSE_MS, STREAM_CREATE_TIMEOUT_MS};

verus! {

// ---------------------------------------------------------------------------
// The connection thread
// ---------------------------------------------------------------------------

/// The way to the connection thread: a sender of commands, or nothing while
/// no thread runs. A thread that has died counts as none, so the next create
/// starts another.
pub struct ThreadSlot<T> {
    sender: Option<T>,
}

impl<T> ThreadSlot<T> {
    pub closed spec fn view(&self) -> Option<T> {
        self.sender
    }

    /// No thread runs yet; the first create starts one.
    pub fn new() -> (slot: Self)
        ensures
            slot@ is None,
    {
        ThreadSlot { sender: None }
    }

    /// Whether a thread has to be started before a command can be sent: there
    /// is none yet, or the one that was started is not `running` any more.
    pub fn needs_thread(&self, running: bool) -> (needed: bool)
        ensures
            needed == (self@ is None || !running),
    {
        self.sender.is_none() || !running
    }

    /// A thread was started; `sender` leads to it.
    pub fn started(&mut self, sender: T)
        ensures
            final(self)@ == Some(sender),
    {
        self.sender = Some(sender);
    }

    /// The thread has died.
    pub fn died(&mut self)
        ensures
            final(self)@ is None,
    {
        self.sender = None;
    }

    /// The sender, while a thread runs.
    pub fn sender(&self) -> (sender: Option<&T>)
        ensures
            match sender {
                Some(sender) => self@ == Some(*sender),
                None => self@ is None,
            },
    {
        self.sender.as_ref()
    }
}

// ---------------------------------------------------------------------------
// Creating a stream
// ---------------------------------------------------------------------------

/// Why a stream could not be created.
#[derive(Debug, Clone, PartialEq, Eq)]
pub enum StreamError {
    /// The connection thread could not be started.
    SpawnFailed,
    /// There is no connection thread.
    Unavailable,
    /// The connection thread has died.
    Exited,
    /// No outcome within the timeout.
    TimedOut,
    /// The request was dropped without an outcome.
    ReplyDropped,
    /// The compositor refused.
    Refused(String),
}

/// The message of an error.
pub open spec fn error_text(error: StreamError) -> Seq<char> {
    match error {
        StreamError::SpawnFailed => "Failed to spawn zkde-screencast thread"@,
        StreamError::Unavailable => "zkde-screencast thread unavailable"@,
        StreamError::Exited => "zkde-screencast thread exited"@,
        StreamError::TimedOut => "timed out waiting for zkde stream creation"@,
        StreamError::ReplyDropped => "zkde stream reply dropped"@,
        StreamError::Refused(reason) => "zkde stream creation failed: "@ + reason@,
    }
}

impl StreamError {
    /// The message of the error.
    pub fn message(&self) -> (message: String)
        ensures
            message@ == error_text(*self),
            message@ == match *self {
                StreamError::SpawnFailed => "Failed to spawn zkde-screencast thread"@,
                StreamError::Unavailable => "zkde-screencast thread unavailable"@,
                StreamError::Exited => "zkde-screencast thread exited"@,
                StreamError::TimedOut => "timed out waiting for zkde stream creation"@,
                StreamError::ReplyDropped => "zkde stream reply dropped"@,
                StreamError::Refused(reason) => "zkde stream creation failed: "@ + reason@,
            },
    {
        match self {
            StreamError::SpawnFailed => "Failed to spawn zkde-screencast thread".to_owned(),
            StreamError::Unavailable => "zkde-screencast thread unavailable".to_owned(),
            StreamError::Exited => "zkde-screencast thread exited".to_owned(),
            StreamError::TimedOut => "timed out waiting for zkde stream creation".to_owned(),
            StreamError::ReplyDropped => "zkde stream reply dropped".to_owned(),
            StreamError::Refused(reason) => "zkde stream creation failed: ".to_owned().concat(
                reason.as_str(),
            ),
        }
    }
}

/// Where a create stands.
#[derive(Debug, PartialEq, Eq)]
pub enum RecreateStage {
    /// The connection thread is to be made sure of. `retry` tells that a
    /// thread found dead may still be replaced.
    Ensuring { retry: bool },
    /// The create command is to be sent.
    Sending { retry: bool },
    /// The outcome is awaited.
    Awaiting,
    /// The output streams on `node`; it is to be enabled.
    Enabling { node: u32 },
    /// The output streams on `node`.
    Streaming { node: u32 },
    /// There is no stream.
    Failed { error: StreamError },
}

/// What became of the step that was taken.
#[derive(Debug, PartialEq, Eq)]
pub enum RecreateEvent {
    /// A connection thread is there.
    ThreadReady,
    /// The connection thread could not be started.
    SpawnFailed,
    /// There is no connection thread.
    ThreadMissing,
    /// The create command was sent.
    Sent,
    /// The create command could not be sent: the thread has died.
    SendFailed,
    /// The outcome came.
    Answered(Result<u32, String>),
    /// The request was dropped without an outcome.
    Dropped,
    /// The timeout passed.
    TimedOut,
    /// The output was enabled, or could not be.
    EnableTried(bool),
}

/// The step to take next.
#[derive(Debug, PartialEq, Eq)]
pub enum RecreateAction {
    EnsureThread,
    SendCreate { width: i32, height: i32 },
    AwaitReply { timeout_ms: u64 },
    EnableOutput,
    Succeed { node: u32 },
    Fail { error: StreamError },
}

/// The stage that an event leads to. An event that does not belong to the
/// step at hand leads nowhere.
pub open spec fn next_recreate_stage(stage: RecreateStage, event: RecreateEvent) -> RecreateStage {
    match (stage, event) {
        (RecreateStage::Ensuring { retry }, RecreateEvent::ThreadReady) => RecreateStage::Sending {
            retry,
        },
        (RecreateStage::Ensuring { .. }, RecreateEvent::SpawnFailed) => RecreateStage::Failed {
            error: StreamError::SpawnFailed,
        },
        (RecreateStage::Ensuring { .. }, RecreateEvent::ThreadMissing) => RecreateStage::Failed {
            error: StreamError::Unavailable,
        },
        (RecreateStage::Sending { .. }, RecreateEvent::Sent) => RecreateStage::Awaiting,
        (RecreateStage::Sending { retry }, RecreateEvent::SendFailed) => if retry {
            RecreateStage::Ensuring { retry: false }
        } else {
            RecreateStage::Failed { error: StreamError::Exited }
        },
        (RecreateStage::Awaiting, RecreateEvent::Answered(Ok(node))) => RecreateStage::Enabling {
            node,
        },
        (RecreateStage::Awaiting, RecreateEvent::Answered(Err(reason))) => RecreateStage::Failed {
            error: StreamError::Refused(reason),
        },
        (RecreateStage::Awaiting, RecreateEvent::Dropped) => RecreateStage::Failed {
            error: StreamError::ReplyDropped,
        },
        (RecreateStage::Awaiting, RecreateEvent::TimedOut) => RecreateStage::Failed {
            error: StreamError::TimedOut,
        },
        (RecreateStage::Enabling { node }, RecreateEvent::EnableTried(_)) =>
            RecreateStage::Streaming { node },
        (stage, _) => stage,
    }
}

/// The step that a stage asks for.
pub open spec fn recreate_action(stage: RecreateStage, width: u16, height: u16) -> RecreateAction {
    match stage {
        RecreateStage::Ensuring { .. } => RecreateAction::EnsureThread,
        RecreateStage::Sending { .. } => RecreateAction::SendCreate {
            width: width as i32,
            height: height as i32,
        },
        RecreateStage::Awaiting => RecreateAction::AwaitReply {
            timeout_ms: STREAM_CREATE_TIMEOUT_MS,
        },
        RecreateStage::Enabling { .. } => RecreateAction::EnableOutput,
        RecreateStage::Streaming { node } => RecreateAction::Succeed { node },
        RecreateStage::Failed { error } => RecreateAction::Fail { error },
    }
}

/// The steps of one create, for an output of the given size.
///
/// The fresh output is ENABLED after EVERY create, not just the first: a
/// resize recreate can be born disabled exactly like the initial one, and a
/// disabled output never gets rendered into. Enabling is best-effort.
pub struct RecreateFlow {
    width: u16,
    height: u16,
    stage: RecreateStage,
}

impl RecreateFlow {
    pub closed spec fn stage(&self) -> RecreateStage {
        self.stage
    }

    pub closed spec fn size(&self) -> (u16, u16) {
        (self.width, self.height)
    }

    /// A create that has not begun.
    pub fn new(width: u16, height: u16) -> (flow: Self)
        ensures
            flow.stage() == (RecreateStage::Ensuring { retry: true }),
            flow.size() == (width, height),
    {
        RecreateFlow { width, height, stage: RecreateStage::Ensuring { retry: true } }
    }

    /// The step to take next.
    pub fn action(&self) -> (action: RecreateAction)
        ensures
            action == recreate_action(self.stage(), self.size().0, self.size().1),
    {
        match &self.stage {
            RecreateStage::Ensuring { .. } => RecreateAction::EnsureThread,
            RecreateStage::Sending { .. } => RecreateAction::SendCreate {
                width: self.width as i32,
                height: self.height as i32,
            },
            RecreateStage::Awaiting => RecreateAction::AwaitReply {
                timeout_ms: STREAM_CREATE_TIMEOUT_MS,
            },
            RecreateStage::Enabling { .. } => RecreateAction::EnableOutput,
            RecreateStage::Streaming { node } => RecreateAction::Succeed { node: *node },
            RecreateStage::Failed { error } => RecreateAction::Fail { error: copy_error(error) },
        }
    }

    /// Take note of what became of the step.
    pub fn advance(&mut self, event: RecreateEvent)
        ensures
            final(self).stage() == next_recreate_stage(old(self).stage(), event),
            final(self).size() == old(self).size(),
    {
        let next = match (&self.stage, event) {
            (RecreateStage::Ensuring { retry }, RecreateEvent::ThreadReady) => Some(
                RecreateStage::Sending { retry: *retry },
            ),
            (RecreateStage::Ensuring { .. }, RecreateEvent::SpawnFailed) => Some(
                RecreateStage::Failed { error: StreamError::SpawnFailed },
            ),
            (RecreateStage::Ensuring { .. }, RecreateEvent::ThreadMissing) => Some(
                RecreateStage::Failed { error: StreamError::Unavailable },
            ),
            (RecreateStage::Sending { .. }, RecreateEvent::Sent) => Some(RecreateStage::Awaiting),
            (RecreateStage::Sending { retry }, RecreateEvent::SendFailed) => Some(
                if *retry {
                    // The thread died unnoticed: rebuild it, once.
                    RecreateStage::Ensuring { retry: false }
                } else {
                    RecreateStage::Failed { error: StreamError::Exited }
                },
            ),
            (RecreateStage::Awaiting, RecreateEvent::Answered(Ok(node))) => Some(
                RecreateStage::Enabling { node },
            ),
            (RecreateStage::Awaiting, RecreateEvent::Answered(Err(reason))) => Some(
                RecreateStage::Failed { error: StreamError::Refused(reason) },
            ),
            (RecreateStage::Awaiting, RecreateEvent::Dropped) => Some(
                RecreateStage::Failed { error: StreamError::ReplyDropped },
            ),
            (RecreateStage::Awaiting, RecreateEvent::TimedOut) => Some(
                RecreateStage::Failed { error: StreamError::TimedOut },
            ),
            (RecreateStage::Enabling { node }, RecreateEvent::EnableTried(_)) => Some(
                RecreateStage::Streaming { node: *node },
            ),
            _ => None,
        };
        if let Some(stage) = next {
            self.stage = stage;
        }
    }
}

fn copy_error(error: &StreamError) -> (copy: StreamError)
    ensures
        copy == *error,
{
    match error {
        StreamError::SpawnFailed => StreamError::SpawnFailed,
        StreamError::Unavailable => StreamError::Unavailable,
        StreamError::Exited => StreamError::Exited,
        StreamError::TimedOut => StreamError::TimedOut,
        StreamError::ReplyDropped => StreamError::ReplyDropped,
        StreamError::Refused(reason) => StreamError::Refused(reason.clone()),
    }
}

/// The stage after a run of events, from the beginning.
pub open spec fn recreate_stage_after(events: Seq<RecreateEvent>) -> RecreateStage
    decreases events.len(),
{
    if events.len() == 0 {
        RecreateStage::Ensuring { retry: true }
    } else {
        next_recreate_stage(recreate_stage_after(events.drop_last()), events.last())
    }
}

/// A create succeeds on a node only if the compositor gave that node and
/// enabling the output was tried after that.
pub proof fn law_success_means_created_and_enabled(events: Seq<RecreateEvent>, node: u32)
    requires
        recreate_stage_after(events) == (RecreateStage::Streaming { node }),
    ensures
        exists|i: int, j: int|
            #![trigger events[i], events[j]]
            0 <= i < j < events.len() && events[i] == RecreateEvent::Answered(Ok(node))
                && events[j] is EnableTried,
    decreases events.len(),
{
    let front = events.drop_last();
    let before = recreate_stage_after(front);
    if before == (RecreateStage::Streaming { node }) {
        law_success_means_created_and_enabled(front, node);
        let (i, j) = choose|i: int, j: int|
            #![trigger front[i], front[j]]
            0 <= i < j < front.len() && front[i] == RecreateEvent::Answered(Ok(node))
                && front[j] is EnableTried;
        assert(events[i] == front[i] && events[j] == front[j]);
    } else {
        lemma_enabling_means_answered(front, node);
        let i = choose|i: int|
            0 <= i < front.len() && #[trigger] front[i] == RecreateEvent::Answered(Ok(node));
        assert(events[i] == front[i]);
        assert(events[events.len() - 1] is EnableTried);
    }
}

proof fn lemma_enabling_means_answered(events: Seq<RecreateEvent>, node: u32)
    requires
        recreate_stage_after(events) == (RecreateStage::Enabling { node }),
    ensures
        exists|i: int|
            0 <= i < events.len() && #[trigger] events[i] == RecreateEvent::Answered(Ok(node)),
    decreases events.len(),
{
    let front = events.drop_last();
    let before = recreate_stage_after(front);
    if before == (RecreateStage::Enabling { node }) {
        lemma_enabling_means_answered(front, node);
        let i = choose|i: int|
            0 <= i < front.len() && #[trigger] front[i] == RecreateEvent::Answered(Ok(node));
        assert(events[i] == front[i]);
    } else {
        assert(events[events.len() - 1] == RecreateEvent::Answered(Ok(node)));
    }
}

/// A dead thread does not fail a create: one that cannot be reached is
/// replaced, and the command goes to the new one.
pub proof fn law_dead_thread_is_rebuilt(width: u16, height: u16)
    ensures
        ({
            let sending = next_recreate_stage(
                RecreateStage::Ensuring { retry: true },
                RecreateEvent::ThreadReady,
            );
            let rebuilding = next_recreate_stage(sending, RecreateEvent::SendFailed);
            let resending = next_recreate_stage(rebuilding, RecreateEvent::ThreadReady);
            &&& recreate_action(rebuilding, width, height) == RecreateAction::EnsureThread
            &&& recreate_action(resending, width, height) == recreate_action(sending, width, height)
            &&& next_recreate_stage(resending, RecreateEvent::Sent) == RecreateStage::Awaiting
        }),
{
}

/// How many steps a create may still take.
pub open spec fn recreate_steps_left(stage: RecreateStage) -> nat {
    match stage {
        RecreateStage::Ensuring { retry } => if retry { 6 } else { 4 },
        RecreateStage::Sending { retry } => if retry { 5 } else { 3 },
        RecreateStage::Awaiting => 2,
        RecreateStage::Enabling { .. } => 1,
        RecreateStage::Streaming { .. } | RecreateStage::Failed { .. } => 0,
    }
}

/// Every event that leads anywhere brings the end closer, so a thread is
/// replaced at most once per create.
pub proof fn law_recreate_ends(stage: RecreateStage, event: RecreateEvent)
    ensures
        next_recreate_stage(stage, event) == stage || recreate_steps_left(
            next_recreate_stage(stage, event),
        ) < recreate_steps_left(stage),
{
}

/// How a create ended stays so.
pub proof fn law_recreate_end_is_final(stage: RecreateStage, event: RecreateEvent)
    requires
        stage is Streaming || stage is Failed,
    ensures
        next_recreate_stage(stage, event) == stage,
{
}

// ---------------------------------------------------------------------------
// After a create
// ---------------------------------------------------------------------------

/// Something to do in the background once an output streams.
#[derive(Debug, Clone, Copy, PartialEq, Eq)]
pub enum FollowUp {
    Wait { ms: u64 },
    /// Reattach orphaned desktop containments to the live screen.
    Reattach,
    /// Move the output to the origin.
    Normalize,
}

/// What is done once an output streams: two passes that reattach the
/// desktop, the first as the retiring output closes, the second for slow
/// binds; then the move to the origin, delayed past the retiring output's
/// settle-close so that the two do not overlap.
pub open spec fn follow_up_plan() -> Seq<FollowUp> {
    seq![
        FollowUp::Wait { ms: SETTLE_CLOSE_MS },
        FollowUp::Reattach,
        FollowUp::Wait { ms: (SETTLE_CLOSE_MS + 2_500) as u64 },
        FollowUp::Reattach,
        FollowUp::Wait { ms: 500 },
        FollowUp::Normalize,
    ]
}

/// What is done once an output streams, in order.
pub fn follow_up() -> (plan: Vec<FollowUp>)
    ensures
        plan@ == follow_up_plan(),
        plan@ == seq![
            FollowUp::Wait { ms: 750 },
            FollowUp::Reattach,
            FollowUp::Wait { ms: 3_250 },
            FollowUp::Reattach,
            FollowUp::Wait { ms: 500 },
            FollowUp::Normalize,
        ],
{
    let mut plan: Vec<FollowUp> = Vec::new();
    plan.push(FollowUp::Wait { ms: SETTLE_CLOSE_MS });
    plan.push(FollowUp::Reattach);
    plan.push(FollowUp::Wait { ms: SETTLE_CLOSE_MS + 2_500 });
    plan.push(FollowUp::Reattach);
    plan.push(FollowUp::Wait { ms: 500 });
    plan.push(FollowUp::Normalize);
    assert(plan@ =~= follow_up_plan());
    plan
}

/// The waiting time before step `n` of a plan.
pub open spec fn waited_before(plan: Seq<FollowUp>, n: int) -> int
    decreases n,
{
    if n <= 0 {
        0
    } else {
        waited_before(plan, n - 1) + match plan[n - 1] {
            FollowUp::Wait { ms } => ms as int,
            _ => 0,
        }
    }
}

/// Nothing is done to the desktop before the retiring output's settle window
/// is over.
pub proof fn law_follow_up_waits_for_settle(n: int)
    requires
        0 <= n < follow_up_plan().len(),
        follow_up_plan()[n] is Reattach || follow_up_plan()[n] is Normalize,
    ensures
        waited_before(follow_up_plan(), n) >= SETTLE_CLOSE_MS,
{
    reveal_with_fuel(waited_before, 7);
}

/// A create that meets no obstacle: the thread is made sure of, the size that
/// was asked for is sent, the outcome is awaited for ten seconds, the output is
/// enabled, and the compositor's node is the result, whether or not enabling
/// worked.
pub proof fn law_create_goes_through(width: u16, height: u16, retry: bool, node: u32, enabled: bool)
    ensures
        ({
            let ensuring = RecreateStage::Ensuring { retry };
            let sending = next_recreate_stage(ensuring, RecreateEvent::ThreadReady);
            let awaiting = next_recreate_stage(sending, RecreateEvent::Sent);
            let enabling = next_recreate_stage(awaiting, RecreateEvent::Answered(Ok(node)));
            let streaming = next_recreate_stage(enabling, RecreateEvent::EnableTried(enabled));
            &&& recreate_action(ensuring, width, height) == RecreateAction::EnsureThread
            &&& recreate_action(sending, width, height) == (RecreateAction::SendCreate {
                width: width as i32,
                height: height as i32,
            })
            &&& recreate_action(awaiting, width, height) == (RecreateAction::AwaitReply {
                timeout_ms: 10_000,
            })
            &&& recreate_action(enabling, width, height) == RecreateAction::EnableOutput
            &&& recreate_action(streaming, width, height) == (RecreateAction::Succeed { node })
        }),
{
}

/// Every obstacle ends a create with its own error: no thread could be
/// started, there is none, the rebuilt one died too, nothing came in time, the
/// request was dropped, or the compositor refused, and then with its reason.
pub proof fn law_create_failures(width: u16, height: u16, retry: bool, reason: String)
    ensures
        ({
            let ensuring = RecreateStage::Ensuring { retry };
            let last = RecreateStage::Ensuring { retry: false };
            let awaiting = next_recreate_stage(
                next_recreate_stage(ensuring, RecreateEvent::ThreadReady),
                RecreateEvent::Sent,
            );
            &&& recreate_action(
                next_recreate_stage(ensuring, RecreateEvent::SpawnFailed),
                width,
                height,
            ) == (RecreateAction::Fail { error: StreamError::SpawnFailed })
            &&& recreate_action(
                next_recreate_stage(ensuring, RecreateEvent::ThreadMissing),
                width,
                height,
            ) == (RecreateAction::Fail { error: StreamError::Unavailable })
            &&& recreate_action(
                next_recreate_stage(
                    next_recreate_stage(last, RecreateEvent::ThreadReady),
                    RecreateEvent::SendFailed,
                ),
                width,
                height,
            ) == (RecreateAction::Fail { error: StreamError::Exited })
            &&& recreate_action(
                next_recreate_stage(awaiting, RecreateEvent::TimedOut),
                width,
                height,
            ) == (RecreateAction::Fail { error: StreamError::TimedOut })
            &&& recreate_action(
                next_recreate_stage(awaiting, RecreateEvent::Dropped),
                width,
                height,
            ) == (RecreateAction::Fail { error: StreamError::ReplyDropped })
            &&& recreate_action(
                next_recreate_stage(awaiting, RecreateEvent::Answered(Err(reason))),
                width,
                height,
            ) == (RecreateAction::Fail { error: StreamError::Refused(reason) })
        }),
{
}

/// An event that does not answer the step at hand leaves a create where it is.
pub proof fn law_create_ignores_events_out_of_turn(stage: RecreateStage, event: RecreateEvent)
    requires
        match recreate_action(stage, 0, 0) {
            RecreateAction::EnsureThread => !(event is ThreadReady || event is SpawnFailed
                || event is ThreadMissing),
            RecreateAction::SendCreate { .. } => !(event is Sent || event is SendFailed),
            RecreateAction::AwaitReply { .. } => !(event is Answered || event is Dropped
                || event is TimedOut),
            RecreateAction::EnableOutput => !(event is EnableTried),
            RecreateAction::Succeed { .. } | RecreateAction::Fail { .. } => true,
        },
    ensures
        next_recreate_stage(stage, event) == stage,
{
}

} // verus!
