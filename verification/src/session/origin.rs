//! Keeping the virtual output at the origin, and healing a layout.
//!
//! Newer compositors position a new virtual output to avoid overlapping
//! other outputs in the layout, including DISABLED ones, so it can end up
//! parked beside the origin; the desktop is then rendered elsewhere and the
//! capture stays blank.

use vstd::prelude::*;

verus! {

/// How long, in milliseconds, a move is given before it is verified.
pub const MOVE_SETTLE_MS: u64 = 300;

// ---------------------------------------------------------------------------
// Moving the output to the origin
// ---------------------------------------------------------------------------

/// Where a normalization stands. There are two attempts; `retry` tells that
/// another one is left.
#[derive(Debug, Clone, Copy, PartialEq, Eq)]
pub enum OriginStage {
    /// The position is to be read.
    Reading { retry: bool },
    /// The output is to be moved.
    Moving { retry: bool },
    /// The position is to be read again.
    Verifying { retry: bool },
    /// Done. The verified position, or `None` where the output could not be
    /// found or its position not be verified.
    Finished { position: Option<(i32, i32)> },
}

/// What became of a step.
#[derive(Debug, Clone, Copy, PartialEq, Eq)]
pub enum OriginEvent {
    /// The position of the output, if it is listed as enabled.
    Read(Option<(i32, i32)>),
    /// Whether the move command succeeded.
    Moved(bool),
}

/// The step to take next.
#[derive(Debug, Clone, Copy, PartialEq, Eq)]
pub enum OriginAction {
    /// Wait, then read the position of the output.
    Read { before_ms: u64 },
    /// Move the output.
    Move { x: i32, y: i32 },
    /// Done.
    Done { position: Option<(i32, i32)> },
}

/// The stage after an attempt that failed.
pub open spec fn attempt_failed(retry: bool) -> OriginStage {
    if retry {
        OriginStage::Reading { retry: false }
    } else {
        OriginStage::Finished { position: None }
    }
}

/// The stage that an event leads to. An event that does not belong to the
/// step at hand leads nowhere.
pub open spec fn next_origin_stage(stage: OriginStage, event: OriginEvent) -> OriginStage {
    match (stage, event) {
        (OriginStage::Reading { retry }, OriginEvent::Read(None)) => attempt_failed(retry),
        (OriginStage::Reading { retry }, OriginEvent::Read(Some(position))) => if position == (
            0i32,
            0i32,
        ) {
            OriginStage::Finished { position: Some((0, 0)) }
        } else {
            OriginStage::Moving { retry }
        },
        (OriginStage::Moving { retry }, OriginEvent::Moved(moved)) => if moved {
            OriginStage::Verifying { retry }
        } else {
            attempt_failed(retry)
        },
        (OriginStage::Verifying { retry }, OriginEvent::Read(None)) => attempt_failed(retry),
        (OriginStage::Verifying { retry }, OriginEvent::Read(Some(position))) => if position == (
            0i32,
            0i32,
        ) {
            OriginStage::Finished { position: Some((0, 0)) }
        } else {
            attempt_failed(retry)
        },
        (stage, _) => stage,
    }
}

/// The step that a stage asks for.
pub open spec fn origin_action(stage: OriginStage) -> OriginAction {
    match stage {
        OriginStage::Reading { .. } => OriginAction::Read { before_ms: 0 },
        OriginStage::Moving { .. } => OriginAction::Move { x: 0, y: 0 },
        OriginStage::Verifying { .. } => OriginAction::Read { before_ms: MOVE_SETTLE_MS },
        OriginStage::Finished { position } => OriginAction::Done { position },
    }
}

impl OriginStage {
    /// Ensure our virtual output is the leftmost/topmost screen: move it to
    /// the origin and VERIFY the move stuck, retrying once.
    pub fn start() -> (stage: Self)
        ensures
            stage == (OriginStage::Reading { retry: true }),
    {
        OriginStage::Reading { retry: true }
    }

    fn after_failure(retry: bool) -> (stage: Self)
        ensures
            stage == attempt_failed(retry),
    {
        if retry {
            OriginStage::Reading { retry: false }
        } else {
            OriginStage::Finished { position: None }
        }
    }

    /// The stage that an event leads to.
    pub fn advance(self, event: OriginEvent) -> (next: Self)
        ensures
            next == next_origin_stage(self, event),
    {
        match (self, event) {
            (OriginStage::Reading { retry }, OriginEvent::Read(position)) => match position {
                None => Self::after_failure(retry),
                Some((x, y)) => {
                    if x == 0 && y == 0 {
                        // Already there: no command needed.
                        OriginStage::Finished { position: Some((0, 0)) }
                    } else {
                        OriginStage::Moving { retry }
                    }
                },
            },
            (OriginStage::Moving { retry }, OriginEvent::Moved(moved)) => {
                if moved {
                    OriginStage::Verifying { retry }
                } else {
                    Self::after_failure(retry)
                }
            },
            (OriginStage::Verifying { retry }, OriginEvent::Read(position)) => match position {
                None => Self::after_failure(retry),
                Some((x, y)) => {
                    if x == 0 && y == 0 {
                        OriginStage::Finished { position: Some((0, 0)) }
                    } else {
                        Self::after_failure(retry)
                    }
                },
            },
            (stage, _) => stage,
        }
    }

    /// The step to take next.
    pub fn action(self) -> (action: OriginAction)
        ensures
            action == origin_action(self),
    {
        match self {
            OriginStage::Reading { .. } => OriginAction::Read { before_ms: 0 },
            OriginStage::Moving { .. } => OriginAction::Move { x: 0, y: 0 },
            OriginStage::Verifying { .. } => OriginAction::Read { before_ms: MOVE_SETTLE_MS },
            OriginStage::Finished { position } => OriginAction::Done { position },
        }
    }
}

/// The stage after a run of events, from the beginning.
pub open spec fn origin_stage_after(events: Seq<OriginEvent>) -> OriginStage
    decreases events.len(),
{
    if events.len() == 0 {
        OriginStage::Reading { retry: true }
    } else {
        next_origin_stage(origin_stage_after(events.drop_last()), events.last())
    }
}

/// A position is reported only if it is the origin, and that was read: it is
/// verified, never assumed.
pub proof fn law_reported_position_was_read(events: Seq<OriginEvent>, position: (i32, i32))
    requires
        origin_stage_after(events) == (OriginStage::Finished { position: Some(position) }),
    ensures
        position == (0i32, 0i32),
        events.contains(OriginEvent::Read(Some(position))),
    decreases events.len(),
{
    let front = events.drop_last();
    if origin_stage_after(front) == (OriginStage::Finished { position: Some(position) }) {
        law_reported_position_was_read(front, position);
        let k = choose|k: int|
            0 <= k < front.len() && front[k] == OriginEvent::Read(Some(position));
        assert(events[k] == front[k]);
    } else {
        assert(events[events.len() - 1] == OriginEvent::Read(Some(position)));
    }
}

/// An output that is already at the origin is left alone.
pub proof fn law_origin_needs_no_move(retry: bool)
    ensures
        next_origin_stage(
            OriginStage::Reading { retry },
            OriginEvent::Read(Some((0, 0))),
        ) == (OriginStage::Finished { position: Some((0, 0)) }),
{
}

/// How many steps a normalization may still take.
pub open spec fn origin_steps_left(stage: OriginStage) -> nat {
    match stage {
        OriginStage::Reading { retry } => if retry { 6 } else { 3 },
        OriginStage::Moving { retry } => if retry { 5 } else { 2 },
        OriginStage::Verifying { retry } => if retry { 4 } else { 1 },
        OriginStage::Finished { .. } => 0,
    }
}

/// How many moves a normalization may still ask for.
pub open spec fn origin_moves_left(stage: OriginStage) -> nat {
    match stage {
        OriginStage::Reading { retry } => if retry { 2 } else { 1 },
        OriginStage::Moving { retry } => if retry { 2 } else { 1 },
        OriginStage::Verifying { retry } => if retry { 1 } else { 0 },
        OriginStage::Finished { .. } => 0,
    }
}

/// Every step that is taken brings the end closer, and every move leaves one
/// move fewer: from the beginning there are at most two.
pub proof fn law_normalization_ends(stage: OriginStage, event: OriginEvent)
    requires
        match origin_action(stage) {
            OriginAction::Read { .. } => event is Read,
            OriginAction::Move { .. } => event is Moved,
            OriginAction::Done { .. } => false,
        },
    ensures
        origin_steps_left(next_origin_stage(stage, event)) < origin_steps_left(stage),
        origin_moves_left(next_origin_stage(stage, event)) <= origin_moves_left(stage),
        origin_action(stage) is Move ==> origin_moves_left(next_origin_stage(stage, event))
            < origin_moves_left(stage),
        origin_moves_left(OriginStage::Reading { retry: true }) == 2,
{
}

// ---------------------------------------------------------------------------
// Healing a layout
// ---------------------------------------------------------------------------

/// Where a heal stands.
#[derive(Debug, Clone, Copy, PartialEq, Eq)]
pub enum HealStage {
    /// The virtual output is to be moved to the origin.
    Normalizing { escalate: bool },
    /// Orphaned desktop containments are to be reattached.
    Reattaching { escalate: bool, at_origin: bool },
    /// The shell is to be restarted.
    Restarting { at_origin: bool },
    /// Done.
    Healed { at_origin: bool },
}

/// What became of a step.
#[derive(Debug, Clone, Copy, PartialEq, Eq)]
pub enum HealEvent {
    /// The outcome of the normalization.
    Normalized(Option<(i32, i32)>),
    /// How many containments were adopted.
    Reattached(u32),
    /// Whether the shell came back.
    Restarted(bool),
}

/// The step to take next.
#[derive(Debug, Clone, Copy, PartialEq, Eq)]
pub enum HealAction {
    Normalize,
    Reattach,
    Restart,
    /// Done; `at_origin` tells that the origin was verified.
    Done { at_origin: bool },
}

/// The stage that an event leads to. An event that does not belong to the
/// step at hand leads nowhere.
pub open spec fn next_heal_stage(stage: HealStage, event: HealEvent) -> HealStage {
    match (stage, event) {
        (HealStage::Normalizing { escalate }, HealEvent::Normalized(position)) =>
            HealStage::Reattaching { escalate, at_origin: position == Some((0i32, 0i32)) },
        (HealStage::Reattaching { escalate, at_origin }, HealEvent::Reattached(_)) => if escalate {
            HealStage::Restarting { at_origin }
        } else {
            HealStage::Healed { at_origin }
        },
        (HealStage::Restarting { at_origin }, HealEvent::Restarted(_)) => HealStage::Healed {
            at_origin,
        },
        (stage, _) => stage,
    }
}

/// The step that a stage asks for.
pub open spec fn heal_action(stage: HealStage) -> HealAction {
    match stage {
        HealStage::Normalizing { .. } => HealAction::Normalize,
        HealStage::Reattaching { .. } => HealAction::Reattach,
        HealStage::Restarting { .. } => HealAction::Restart,
        HealStage::Healed { at_origin } => HealAction::Done { at_origin },
    }
}

impl HealStage {
    /// One-shot layout heal: normalize the virtual output to the origin,
    /// reattach orphaned desktop containments, and (escalation only) restart
    /// the shell. The restart is reserved for faults that the surgical path
    /// could not fix.
    pub fn start(escalate_restart: bool) -> (stage: Self)
        ensures
            stage == (HealStage::Normalizing { escalate: escalate_restart }),
    {
        HealStage::Normalizing { escalate: escalate_restart }
    }

    /// The stage that an event leads to.
    pub fn advance(self, event: HealEvent) -> (next: Self)
        ensures
            next == next_heal_stage(self, event),
    {
        match (self, event) {
            (HealStage::Normalizing { escalate }, HealEvent::Normalized(position)) => {
                let at_origin = match position {
                    Some((x, y)) => x == 0 && y == 0,
                    None => false,
                };
                HealStage::Reattaching { escalate, at_origin }
            },
            (HealStage::Reattaching { escalate, at_origin }, HealEvent::Reattached(_)) => {
                if escalate {
                    HealStage::Restarting { at_origin }
                } else {
                    HealStage::Healed { at_origin }
                }
            },
            (HealStage::Restarting { at_origin }, HealEvent::Restarted(_)) => HealStage::Healed {
                at_origin,
            },
            (stage, _) => stage,
        }
    }

    /// The step to take next.
    pub fn action(self) -> (action: HealAction)
        ensures
            action == heal_action(self),
    {
        match self {
            HealStage::Normalizing { .. } => HealAction::Normalize,
            HealStage::Reattaching { .. } => HealAction::Reattach,
            HealStage::Restarting { .. } => HealAction::Restart,
            HealStage::Healed { at_origin } => HealAction::Done { at_origin },
        }
    }
}

/// A heal runs to its end and reports the origin as verified exactly if the
/// normalization read it; the shell is restarted only on escalation, and
/// after the containments were reattached.
pub proof fn law_heal_outcome(
    escalate: bool,
    position: Option<(i32, i32)>,
    adopted: u32,
    restarted: bool,
)
    ensures
        ({
            let reattaching = next_heal_stage(
                HealStage::Normalizing { escalate },
                HealEvent::Normalized(position),
            );
            let reattached = next_heal_stage(reattaching, HealEvent::Reattached(adopted));
            let healed = HealStage::Healed { at_origin: position == Some((0i32, 0i32)) };
            &&& heal_action(reattaching) == HealAction::Reattach
            &&& !escalate ==> reattached == healed
            &&& escalate ==> heal_action(reattached) == HealAction::Restart && next_heal_stage(
                reattached,
                HealEvent::Restarted(restarted),
            ) == healed
        }),
{
}

/// What a normalization does about an output that is off the origin: it asks
/// for a move there, gives that 300 milliseconds, and reads again. The origin
/// is then reported; anything else is tried once more from the start, and given
/// up the second time.
pub proof fn law_parked_output_is_moved(
    retry: bool,
    parked: (i32, i32),
    after: Option<(i32, i32)>,
)
    requires
        parked != (0i32, 0i32),
    ensures
        origin_action(OriginStage::Reading { retry }) == (OriginAction::Read { before_ms: 0 }),
        ({
            let moving = next_origin_stage(
                OriginStage::Reading { retry },
                OriginEvent::Read(Some(parked)),
            );
            let moved = next_origin_stage(moving, OriginEvent::Moved(true));
            let refused = next_origin_stage(moving, OriginEvent::Moved(false));
            let lost = next_origin_stage(OriginStage::Reading { retry }, OriginEvent::Read(None));
            let checked = next_origin_stage(moved, OriginEvent::Read(after));
            let given_up = if retry {
                OriginAction::Read { before_ms: 0 }
            } else {
                OriginAction::Done { position: None }
            };
            &&& origin_action(moving) == (OriginAction::Move { x: 0, y: 0 })
            &&& origin_action(moved) == (OriginAction::Read { before_ms: 300 })
            &&& origin_action(refused) == given_up
            &&& origin_action(lost) == given_up
            &&& origin_action(checked) == if after == Some((0i32, 0i32)) {
                OriginAction::Done { position: Some((0, 0)) }
            } else {
                given_up
            }
            &&& retry ==> refused == (OriginStage::Reading { retry: false }) && lost == refused && (
            after != Some((0i32, 0i32)) ==> checked == refused)
        }),
{
}

/// A heal normalizes first, reattaches next, restarts the shell last and only
/// on escalation, and then tells whether the origin was verified.
pub proof fn law_heal_steps(
    escalate: bool,
    position: Option<(i32, i32)>,
    adopted: u32,
    restarted: bool,
)
    ensures
        heal_action(HealStage::Normalizing { escalate }) == HealAction::Normalize,
        ({
            let normalized = next_heal_stage(
                HealStage::Normalizing { escalate },
                HealEvent::Normalized(position),
            );
            let reattached = next_heal_stage(normalized, HealEvent::Reattached(adopted));
            let done = HealAction::Done { at_origin: position == Some((0i32, 0i32)) };
            &&& heal_action(normalized) == HealAction::Reattach
            &&& heal_action(reattached) == if escalate {
                HealAction::Restart
            } else {
                done
            }
            &&& escalate ==> heal_action(
                next_heal_stage(reattached, HealEvent::Restarted(restarted)),
            ) == done
        }),
{
}

/// An event that does not answer the step at hand leaves a normalization and a
/// heal where they are.
pub proof fn law_events_out_of_turn_change_nothing(
    stage: OriginStage,
    event: OriginEvent,
    heal: HealStage,
    heal_event: HealEvent,
)
    ensures
        match origin_action(stage) {
            OriginAction::Read { .. } => !(event is Read),
            OriginAction::Move { .. } => !(event is Moved),
            OriginAction::Done { .. } => true,
        } ==> next_origin_stage(stage, event) == stage,
        match heal_action(heal) {
            HealAction::Normalize => !(heal_event is Normalized),
            HealAction::Reattach => !(heal_event is Reattached),
            HealAction::Restart => !(heal_event is Restarted),
            HealAction::Done { .. } => true,
        } ==> next_heal_stage(heal, heal_event) == heal,
{
}

} // verus!
