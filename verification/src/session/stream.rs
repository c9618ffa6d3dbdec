//! The life of a virtual-output stream: one request, its conclusion, and the
//! swap from one stream to its replacement.
//!
//! The compositor connection itself is driven from outside. What arrives
//! there (events, commands, the passing of time) is handed to [`StreamSwap`],
//! which keeps the streams and says what to answer and what to close.

use vstd::multiset::Multiset;
use vstd::prelude::*;

use super::text;

verus! {

/// How long, in milliseconds, to wait for a virtual-output stream's
/// `created` reply before declaring the create wedged (KWin not answering)
/// and giving up.
pub const STREAM_CREATE_TIMEOUT_MS: u64 = 10_000;

/// Settle window, in milliseconds, before a swapped-out stream's close is
/// sent. The close removes the old virtual output; plasmashell binds the
/// replacement's wl_registry global asynchronously, and a removal processed
/// before that bind sends Qt to its placeholder screen (never re-latches).
/// Mirrors the layout guard's engage settle window.
pub const SETTLE_CLOSE_MS: u64 = 750;

/// Poll timeout, in milliseconds, of the connection thread. Commands have no
/// pollable descriptor, so this bounds their latency.
pub const POLL_TIMEOUT_MS: u16 = 50;

/// The newest screencast protocol version that is spoken.
pub const SCREENCAST_VERSION: u32 = 4;

// ---------------------------------------------------------------------------
// One request
// ---------------------------------------------------------------------------

/// Stream-request outcome.
#[derive(Debug, Clone, PartialEq, Eq)]
pub enum StreamOutcome {
    /// KWin created the virtual output; `node` is the PipeWire node id to
    /// bind for capture.
    Created { node: u32 },
    /// KWin refused the create (its `failed` event).
    Failed { reason: String },
    /// The compositor closed the stream before it produced anything usable.
    Closed,
}

/// An event on a stream object.
pub enum StreamEvent {
    Created { node: u32 },
    Failed { error: String },
    Closed,
    /// Any other event; it concludes nothing.
    Other,
}

impl StreamEvent {
    /// The outcome that the event brings, if it concludes a request.
    pub open spec fn outcome(self) -> Option<StreamOutcome> {
        match self {
            StreamEvent::Created { node } => Some(StreamOutcome::Created { node }),
            StreamEvent::Failed { error } => Some(StreamOutcome::Failed { reason: error }),
            StreamEvent::Closed => Some(StreamOutcome::Closed),
            StreamEvent::Other => None,
        }
    }

    /// The outcome that the event brings, if it concludes a request.
    pub fn into_outcome(self) -> (outcome: Option<StreamOutcome>)
        ensures
            outcome == self.outcome(),
            outcome == match self {
                StreamEvent::Created { node } => Some(StreamOutcome::Created { node }),
                StreamEvent::Failed { error } => Some(StreamOutcome::Failed { reason: error }),
                StreamEvent::Closed => Some(StreamOutcome::Closed),
                StreamEvent::Other => None,
            },
    {
        match self {
            StreamEvent::Created { node } => Some(StreamOutcome::Created { node }),
            StreamEvent::Failed { error } => Some(StreamOutcome::Failed { reason: error }),
            StreamEvent::Closed => Some(StreamOutcome::Closed),
            StreamEvent::Other => None,
        }
    }
}

/// First-conclusive-event bookkeeping for a `stream_virtual_output`
/// request.
///
/// Invariants:
/// 1. The FIRST conclusive event decides the outcome; later events are
///    ignored (a `Closed` following a `Failed` must not double-deliver).
/// 2. A new request ([`Self::reset`]) re-arms the machine.
#[derive(Debug)]
pub struct StreamRequestMachine {
    /// A conclusive event has already been delivered for this request.
    done: bool,
}

impl StreamRequestMachine {
    /// A conclusive event has already been delivered for this request.
    pub closed spec fn is_done(&self) -> bool {
        self.done
    }

    /// A machine armed for a fresh request.
    #[must_use]
    pub fn new() -> (machine: Self)
        ensures
            !machine.is_done(),
    {
        StreamRequestMachine { done: false }
    }

    /// Re-arm for a fresh request (new `stream_virtual_output` call).
    pub fn reset(&mut self)
        ensures
            !final(self).is_done(),
    {
        self.done = false;
    }

    /// Apply a conclusive or non-conclusive stream event: returns the
    /// outcome to deliver if this event is the FIRST conclusive one, else
    /// `None`.
    pub fn transition(&mut self, outcome: Option<StreamOutcome>) -> (delivered: Option<
        StreamOutcome,
    >)
        ensures
            delivered == deliver(old(self).is_done(), outcome),
            delivered == if old(self).is_done() { None } else { outcome },
            final(self).is_done() == (old(self).is_done() || outcome is Some),
    {
        if self.done {
            return None;
        }
        if outcome.is_some() {
            self.done = true;
        }
        outcome
    }
}

impl Default for StreamRequestMachine {
    fn default() -> (machine: Self)
        ensures
            !machine.is_done(),
    {
        Self::new()
    }
}

/// What a machine delivers of one event.
pub open spec fn deliver(done: bool, outcome: Option<StreamOutcome>) -> Option<StreamOutcome> {
    if done {
        None
    } else {
        outcome
    }
}

/// Whether a machine is done after a run of events.
pub open spec fn done_after(done: bool, events: Seq<Option<StreamOutcome>>) -> bool
    decreases events.len(),
{
    if events.len() == 0 {
        done
    } else {
        done_after(done, events.drop_last()) || events.last() is Some
    }
}

/// In any run of events of one request, exactly the first conclusive one is
/// delivered: event number `i` is delivered if and only if it is conclusive
/// and no earlier one was.
pub proof fn law_first_conclusive_event_wins(events: Seq<Option<StreamOutcome>>, i: int)
    requires
        0 <= i < events.len(),
    ensures
        deliver(done_after(false, events.take(i)), events[i]) == if forall|k: int|
            0 <= k < i ==> (#[trigger] events[k]) is None {
            events[i]
        } else {
            None
        },
{
    lemma_done_after(events.take(i));
    assert(forall|k: int| 0 <= k < i ==> events.take(i)[k] == events[k]);
    if exists|k: int| 0 <= k < i && (#[trigger] events[k]) is Some {
        let k = choose|k: int| 0 <= k < i && (#[trigger] events[k]) is Some;
        assert(events.take(i)[k] is Some);
    }
}

proof fn lemma_done_after(events: Seq<Option<StreamOutcome>>)
    ensures
        done_after(false, events) <==> exists|k: int|
            0 <= k < events.len() && (#[trigger] events[k]) is Some,
    decreases events.len(),
{
    if events.len() > 0 {
        let front = events.drop_last();
        lemma_done_after(front);
        if done_after(false, front) {
            let k = choose|k: int| 0 <= k < front.len() && (#[trigger] front[k]) is Some;
            assert(events[k] is Some);
        }
        if events.last() is Some {
            assert(events[events.len() - 1] is Some);
        }
        if exists|k: int| 0 <= k < events.len() && (#[trigger] events[k]) is Some {
            let k = choose|k: int| 0 <= k < events.len() && (#[trigger] events[k]) is Some;
            if k < front.len() {
                assert(front[k] is Some);
            }
        }
    }
}

/// The answer that an outcome gives to whoever asked for the stream.
pub open spec fn reply_text(outcome: StreamOutcome) -> Result<u32, Seq<char>> {
    match outcome {
        StreamOutcome::Created { node } => Ok(node),
        StreamOutcome::Failed { reason } => Err(reason@),
        StreamOutcome::Closed => Err("stream closed by compositor"@),
    }
}

/// An answer with its error taken as text.
pub open spec fn as_text(reply: Result<u32, String>) -> Result<u32, Seq<char>> {
    match reply {
        Ok(node) => Ok(node),
        Err(reason) => Err(reason@),
    }
}

/// Translate a conclusive outcome into its reply form.
pub fn outcome_to_reply(outcome: StreamOutcome) -> (reply: Result<u32, String>)
    ensures
        as_text(reply) == reply_text(outcome),
        match (outcome, reply) {
            (StreamOutcome::Created { node }, Ok(given)) => given == node,
            (StreamOutcome::Failed { reason }, Err(given)) => given@ == reason@,
            (StreamOutcome::Closed, Err(given)) => given@ == "stream closed by compositor"@,
            _ => false,
        },
{
    match outcome {
        StreamOutcome::Created { node } => Ok(node),
        StreamOutcome::Failed { reason } => Err(reason),
        StreamOutcome::Closed => Err("stream closed by compositor".to_owned()),
    }
}

// ---------------------------------------------------------------------------
// Parked closes
// ---------------------------------------------------------------------------

/// Due-check for a settle-parked close: returns the parked item ONLY when
/// its deadline has passed (removing it from the slot); before the deadline
/// the item STAYS PARKED. Deadlines and `now` are milliseconds on one clock.
pub fn take_due_settle_close<T>(closing: &mut Option<(T, u64)>, now: u64) -> (due: Option<T>)
    ensures
        match *old(closing) {
            Some((item, deadline)) => if now >= deadline {
                due == Some(item) && *final(closing) == None::<(T, u64)>
            } else {
                due == None::<T> && *final(closing) == *old(closing)
            },
            None => due == None::<T> && *final(closing) == None::<(T, u64)>,
        },
{
    let due = match closing {
        Some((_, deadline)) => now >= *deadline,
        None => false,
    };
    if due {
        match closing.take() {
            Some((item, _)) => Some(item),
            None => None,
        }
    } else {
        None
    }
}

// ---------------------------------------------------------------------------
// Swapping streams
// ---------------------------------------------------------------------------

/// What a [`StreamSwap`] holds: streams of type `S` and, with the newest of
/// them, whoever waits for its outcome, of type `R`.
pub struct SwapState<S, R> {
    /// The screencast global is bound.
    pub bound: bool,
    /// The stream asked for last, and who still waits for its outcome.
    pub pending: Option<(S, Option<R>)>,
    /// The stream before it, while the outcome is open.
    pub retiring: Option<S>,
    /// Streams to be closed, each once its deadline has passed, in the order
    /// in which they were parked.
    pub closing: Seq<(S, u64)>,
    /// The outcome of the stream asked for last is known.
    pub done: bool,
}

/// A slot as a multiset of none or one.
pub open spec fn slot<S>(item: Option<S>) -> Multiset<S> {
    match item {
        Some(s) => Multiset::singleton(s),
        None => Multiset::empty(),
    }
}

/// The streams of a list of parked ones.
pub open spec fn parked_streams<S>(parked: Seq<(S, u64)>) -> Seq<S> {
    parked.map_values(|entry: (S, u64)| entry.0)
}

/// The parked streams whose deadline has passed, in order.
pub open spec fn due_of<S>(parked: Seq<(S, u64)>, now: u64) -> Seq<S>
    decreases parked.len(),
{
    if parked.len() == 0 {
        Seq::empty()
    } else {
        let rest = due_of(parked.drop_first(), now);
        if now >= parked[0].1 {
            seq![parked[0].0] + rest
        } else {
            rest
        }
    }
}

/// The entries whose deadline is still to come, in order.
pub open spec fn parked_past<S>(parked: Seq<(S, u64)>, now: u64) -> Seq<(S, u64)>
    decreases parked.len(),
{
    if parked.len() == 0 {
        Seq::empty()
    } else {
        let rest = parked_past(parked.drop_first(), now);
        if now >= parked[0].1 {
            rest
        } else {
            seq![parked[0]] + rest
        }
    }
}

impl<S, R> SwapState<S, R> {
    /// Once an outcome is known nobody waits for it any more, and the
    /// previous stream is no longer held back for it.
    pub open spec fn wf(self) -> bool {
        self.done ==> self.retiring is None && self.waiting() is None
    }

    pub open spec fn pending_stream(self) -> Option<S> {
        match self.pending {
            Some((stream, _)) => Some(stream),
            None => None,
        }
    }

    /// Who waits for the outcome of the stream asked for last.
    pub open spec fn waiting(self) -> Option<R> {
        match self.pending {
            Some((_, reply)) => reply,
            None => None,
        }
    }

    /// The stream that the desktop is shown on: the previous one while its
    /// replacement is being created, else the one asked for last.
    pub open spec fn active(self) -> Option<S> {
        match self.retiring {
            Some(previous) => Some(previous),
            None => self.pending_stream(),
        }
    }

    /// All streams held.
    pub open spec fn streams(self) -> Multiset<S> {
        slot(self.pending_stream()).add(slot(self.retiring)).add(
            parked_streams(self.closing).to_multiset(),
        )
    }

    /// The pending stream with nobody waiting for it.
    pub open spec fn answered(self) -> Option<(S, Option<R>)> {
        match self.pending {
            Some((stream, _)) => Some((stream, None)),
            None => None,
        }
    }

    /// The state after an event that arrives at the time `now`.
    pub open spec fn after_event(self, event: StreamEvent, now: u64) -> Self {
        if self.done {
            self
        } else {
            match event {
                StreamEvent::Created { .. } => SwapState {
                    pending: self.answered(),
                    retiring: None,
                    closing: match self.retiring {
                        Some(old) => self.closing.push((old, (now + SETTLE_CLOSE_MS) as u64)),
                        None => self.closing,
                    },
                    done: true,
                    ..self
                },
                StreamEvent::Failed { .. } | StreamEvent::Closed => SwapState {
                    pending: match self.retiring {
                        Some(old) => Some((old, None)),
                        None => self.answered(),
                    },
                    retiring: None,
                    done: true,
                    ..self
                },
                StreamEvent::Other => self,
            }
        }
    }

    /// The stream that a failed replacement leaves behind.
    pub open spec fn discarded_by(self, event: StreamEvent) -> Option<S> {
        if !self.done && (event is Failed || event is Closed) && self.retiring is Some {
            self.pending_stream()
        } else {
            None
        }
    }

    /// The state once the way is clear for a new stream: the previous one is
    /// kept, to be closed or restored when the outcome is known.
    pub open spec fn after_begin(self) -> Self {
        SwapState { pending: None, retiring: self.pending_stream(), done: false, ..self }
    }

    /// The state once the new stream has been asked for.
    pub open spec fn after_install(self, stream: S, reply: R) -> Self {
        SwapState { pending: Some((stream, Some(reply))), ..self }
    }

    /// The state once everything is released.
    pub open spec fn after_release(self) -> Self {
        SwapState {
            pending: None,
            retiring: None,
            closing: Seq::empty(),
            done: self.done && self.released().len() == 0,
            ..self
        }
    }

    /// The streams to close on release: the pending one, then the retiring
    /// one, then the parked ones.
    pub open spec fn released(self) -> Seq<S> {
        as_seq(self.pending_stream()) + as_seq(self.retiring) + parked_streams(self.closing)
    }

    /// The parked streams whose deadline has passed.
    pub open spec fn due_at(self, now: u64) -> Seq<S> {
        due_of(self.closing, now)
    }

    /// The state once the streams that are due have been taken.
    pub open spec fn after_settle(self, now: u64) -> Self {
        SwapState { closing: parked_past(self.closing, now), ..self }
    }
}

/// A slot as a sequence of none or one.
pub open spec fn as_seq<S>(item: Option<S>) -> Seq<S> {
    match item {
        Some(s) => seq![s],
        None => Seq::empty(),
    }
}

/// What is to be done about an event.
pub struct Reaction<S, R> {
    /// Who to answer, and what.
    pub reply: Option<(R, Result<u32, String>)>,
    /// The stream of a replacement that failed. No output was ever created
    /// for it, so it may simply be dropped.
    pub discarded: Option<S>,
}

/// Whether a new stream may be asked for.
pub enum Begin<S, R> {
    /// The screencast global is not bound: answer with this error.
    Refused(String),
    /// Close the orphan, if any, then ask for the stream. Whoever waited for
    /// an outcome that never came is handed back unanswered.
    Ready { orphan: Option<S>, abandoned: Option<R> },
}

/// What a release hands back: the streams to close, in order, and whoever
/// waited for an outcome that now never comes.
pub struct Release<S, R> {
    pub streams: Vec<S>,
    pub abandoned: Option<R>,
}

/// The streams of a virtual output across a swap.
///
/// It implements **create-before-close**: when replacing a live stream
/// (resize), the previous stream is kept while the replacement is being
/// created, and closed only after the replacement's `created` event and a
/// settle window. So the enabled-output set does not empty mid-session: a
/// zero-outputs window sends plasmashell to its placeholder screen. If the
/// replacement fails, the previous stream is restored as the active one.
///
/// The exception is an abandoned swap: where another create comes while the
/// outcome of the one before is still open, the stream that was active is
/// closed, and until the new one is created no output may be left.
///
/// Each swap parks its previous stream for a settle window of its own, however
/// quickly the swaps follow one another.
///
/// A stream is kept past its concluded request, so that a later close can
/// destroy it: the compositor removes the virtual output only then.
pub struct StreamSwap<S, R> {
    bound: bool,
    pending: Option<(S, Option<R>)>,
    retiring: Option<S>,
    closing: Vec<(S, u64)>,
    machine: StreamRequestMachine,
}

impl<S, R> StreamSwap<S, R> {
    pub closed spec fn view(&self) -> SwapState<S, R> {
        SwapState {
            bound: self.bound,
            pending: self.pending,
            retiring: self.retiring,
            closing: self.closing@,
            done: self.machine.is_done(),
        }
    }

    /// No stream, and no screencast global yet.
    pub fn new() -> (swap: Self)
        ensures
            swap@ == (SwapState::<S, R> {
                bound: false,
                pending: None,
                retiring: None,
                closing: Seq::empty(),
                done: false,
            }),
            swap@.wf(),
    {
        StreamSwap {
            bound: false,
            pending: None,
            retiring: None,
            closing: Vec::new(),
            machine: StreamRequestMachine::new(),
        }
    }

    /// The screencast global has been bound.
    pub fn bind(&mut self)
        requires
            old(self)@.wf(),
        ensures
            final(self)@ == (SwapState { bound: true, ..old(self)@ }),
            final(self)@.wf(),
    {
        self.bound = true;
    }

    /// Whether the screencast global has been bound.
    pub fn is_bound(&self) -> (bound: bool)
        ensures
            bound == self@.bound,
    {
        self.bound
    }

    /// A stream event arrived at the time `now`, in milliseconds.
    ///
    /// The first conclusive event answers whoever asked for the stream and
    /// finishes the swap: the previous stream is parked for a deferred close
    /// (replacement live) or restored (replacement failed).
    pub fn react(&mut self, event: StreamEvent, now: u64) -> (reaction: Reaction<S, R>)
        requires
            old(self)@.wf(),
            (!old(self)@.done && event is Created && old(self)@.retiring is Some) ==> now
                + SETTLE_CLOSE_MS <= u64::MAX,
        ensures
            final(self)@ == old(self)@.after_event(event, now),
            final(self)@.wf(),
            reaction.discarded == old(self)@.discarded_by(event),
            final(self)@.bound == old(self)@.bound,
            reaction.reply is Some <==> !old(self)@.done && !(event is Other)
                && old(self)@.pending matches Some((_, Some(_))),
            match (event, reaction.reply) {
                (StreamEvent::Created { node }, Some((reply, answer))) => {
                    &&& old(self)@.pending matches Some((_, Some(asked)))
                    &&& reply == asked
                    &&& answer == Ok::<u32, String>(node)
                },
                (StreamEvent::Failed { error }, Some((reply, answer))) => {
                    &&& old(self)@.pending matches Some((_, Some(asked)))
                    &&& reply == asked
                    &&& answer matches Err(given) && given@ == error@
                },
                (StreamEvent::Closed, Some((reply, answer))) => {
                    &&& old(self)@.pending matches Some((_, Some(asked)))
                    &&& reply == asked
                    &&& answer matches Err(given) && given@ == "stream closed by compositor"@
                },
                (StreamEvent::Other, reply) => reply is None,
                (_, None) => true,
            },
            match reaction.reply {
                Some((reply, answer)) => {
                    &&& old(self)@.waiting() == Some(reply)
                    &&& deliver(old(self)@.done, event.outcome()) is Some
                    &&& as_text(answer) == reply_text(event.outcome()->0)
                },
                None => old(self)@.waiting() is None || deliver(
                    old(self)@.done,
                    event.outcome(),
                ) is None,
            },
    {
        match self.machine.transition(event.into_outcome()) {
            None => Reaction { reply: None, discarded: None },
            Some(outcome) => {
                let created = matches!(outcome, StreamOutcome::Created { .. });
                let answer = outcome_to_reply(outcome);
                let mut reply: Option<(R, Result<u32, String>)> = None;
                // The reply is consumed; the stream must stay behind for a
                // later close.
                if let Some((stream, waiting)) = self.pending.take() {
                    if let Some(waiting) = waiting {
                        reply = Some((waiting, answer));
                    }
                    self.pending = Some((stream, None));
                }
                let mut discarded: Option<S> = None;
                if let Some(previous) = self.retiring.take() {
                    if created {
                        self.closing.push((previous, now + SETTLE_CLOSE_MS));
                    } else {
                        if let Some((failed, _)) = self.pending.take() {
                            discarded = Some(failed);
                        }
                        self.pending = Some((previous, None));
                    }
                }
                Reaction { reply, discarded }
            },
        }
    }

    /// A new stream is wanted. The previous one (if any) is kept, NOT
    /// closed, so the enabled-output set never empties while the replacement
    /// is being created.
    ///
    /// An abandoned swap (a create whose outcome never came, followed by
    /// another create) is cleaned up here: the stream that was held back for
    /// it is handed out to be closed, so it cannot linger as a zombie output.
    pub fn begin_create(&mut self) -> (begin: Begin<S, R>)
        requires
            old(self)@.wf(),
        ensures
            final(self)@.wf(),
            match begin {
                Begin::Refused(reason) => {
                    &&& !old(self)@.bound
                    &&& reason@ == "zkde_screencast global not bound"@
                    &&& final(self)@ == old(self)@
                },
                Begin::Ready { orphan, abandoned } => {
                    &&& old(self)@.bound
                    &&& orphan == old(self)@.retiring
                    &&& abandoned == old(self)@.waiting()
                    &&& final(self)@ == old(self)@.after_begin()
                },
            },
    {
        if !self.bound {
            return Begin::Refused("zkde_screencast global not bound".to_owned());
        }
        let orphan = self.retiring.take();
        let mut abandoned: Option<R> = None;
        if let Some((previous, waiting)) = self.pending.take() {
            self.retiring = Some(previous);
            abandoned = waiting;
        }
        self.machine.reset();
        Begin::Ready { orphan, abandoned }
    }

    /// The new stream has been asked for; `reply` waits for its outcome.
    pub fn install(&mut self, stream: S, reply: R)
        requires
            old(self)@.wf(),
            !old(self)@.done,
            old(self)@.pending is None,
        ensures
            final(self)@ == old(self)@.after_install(stream, reply),
            final(self)@.wf(),
    {
        self.pending = Some((stream, Some(reply)));
    }

    /// Everything is to be closed: NO virtual output may survive a release,
    /// neither one mid-swap nor one still parked for settle.
    pub fn release(&mut self) -> (release: Release<S, R>)
        requires
            old(self)@.wf(),
        ensures
            final(self)@ == old(self)@.after_release(),
            final(self)@.wf(),
            release.streams@ == old(self)@.released(),
            release.abandoned == old(self)@.waiting(),
    {
        let mut streams: Vec<S> = Vec::new();
        let mut abandoned: Option<R> = None;
        if let Some((stream, waiting)) = self.pending.take() {
            streams.push(stream);
            abandoned = waiting;
        }
        if let Some(previous) = self.retiring.take() {
            streams.push(previous);
        }
        let mut parked: Vec<(S, u64)> = Vec::new();
        std::mem::swap(&mut parked, &mut self.closing);
        let ghost first = streams@;
        let ghost all = parked@;
        assert(first + parked_streams(all) =~= old(self)@.released());
        while parked.len() > 0
            invariant
                streams@ + parked_streams(parked@) == first + parked_streams(all),
            decreases parked.len(),
        {
            let ghost before = parked@;
            let (stream, _) = parked.remove(0);
            streams.push(stream);
            assert(streams@ + parked_streams(parked@) =~= streams@.drop_last() + parked_streams(
                before,
            ));
        }
        assert(streams@ =~= first + parked_streams(all));
        if streams.len() > 0 {
            self.machine.reset();
        }
        Release { streams, abandoned }
    }

    /// The parked streams to close now: those whose settle deadline has
    /// passed, in the order in which they were parked.
    pub fn take_settled(&mut self, now: u64) -> (due: Vec<S>)
        requires
            old(self)@.wf(),
        ensures
            due@ == old(self)@.due_at(now),
            final(self)@ == old(self)@.after_settle(now),
            final(self)@.wf(),
    {
        let mut due: Vec<S> = Vec::new();
        let mut parked: Vec<(S, u64)> = Vec::new();
        let mut waiting: Vec<(S, u64)> = Vec::new();
        std::mem::swap(&mut parked, &mut self.closing);
        let ghost all = parked@;
        assert(due@ + due_of(parked@, now) =~= due_of(all, now));
        assert(waiting@ + parked_past(parked@, now) =~= parked_past(all, now));
        while parked.len() > 0
            invariant
                due@ + due_of(parked@, now) == due_of(all, now),
                waiting@ + parked_past(parked@, now) == parked_past(all, now),
            decreases parked.len(),
        {
            let ghost before = parked@;
            let ghost due_before = due@;
            let ghost waiting_before = waiting@;
            let mut entry = Some(parked.remove(0));
            assert(parked@ =~= before.drop_first());
            if let Some(stream) = take_due_settle_close(&mut entry, now) {
                due.push(stream);
            }
            if let Some(entry) = entry {
                waiting.push(entry);
            }
            assert(due@ + due_of(parked@, now) =~= due_before + due_of(before, now));
            assert(waiting@ + parked_past(parked@, now) =~= waiting_before + parked_past(
                before,
                now,
            ));
        }
        assert(due@ =~= due_of(all, now));
        assert(waiting@ =~= parked_past(all, now));
        self.closing = waiting;
        due
    }

    /// The connection is lost: whoever waits is handed out to be told so,
    /// and the pending stream is dropped.
    pub fn abort(&mut self) -> (waiting: Option<R>)
        requires
            old(self)@.wf(),
        ensures
            waiting == old(self)@.waiting(),
            final(self)@ == (SwapState { pending: None, ..old(self)@ }),
            final(self)@.wf(),
    {
        match self.pending.take() {
            Some((_, waiting)) => waiting,
            None => None,
        }
    }
}

/// No stream is ever lost: whatever is held before an event, a create, a
/// release or a settle is afterwards held still or has been handed out.
pub proof fn law_no_stream_is_lost<S, R>(
    state: SwapState<S, R>,
    event: StreamEvent,
    now: u64,
    stream: S,
    reply: R,
)
    ensures
        state.streams() == state.after_event(event, now).streams().add(
            slot(state.discarded_by(event)),
        ),
        state.streams() == state.after_begin().streams().add(slot(state.retiring)),
        state.pending is None ==> state.after_install(stream, reply).streams()
            == state.streams().insert(stream),
        state.streams() == state.after_settle(now).streams().add(state.due_at(now).to_multiset()),
        state.streams() == state.after_release().streams().add(state.released().to_multiset()),
{
    broadcast use vstd::seq_lib::group_to_multiset_ensures;

    let parked = parked_streams(state.closing);
    if let Some(previous) = state.retiring {
        let deadline = (now + SETTLE_CLOSE_MS) as u64;
        assert(parked_streams(state.closing.push((previous, deadline))) =~= parked.push(previous));
    }
    assert(state.streams() =~= state.after_event(event, now).streams().add(
        slot(state.discarded_by(event)),
    ));
    assert(state.streams() =~= state.after_begin().streams().add(slot(state.retiring)));
    if state.pending is None {
        assert(state.after_install(stream, reply).streams() =~= state.streams().insert(stream));
    }
    lemma_settle_split(state.closing, now);
    assert(state.streams() =~= state.after_settle(now).streams().add(
        state.due_at(now).to_multiset(),
    ));
    let first = as_seq(state.pending_stream());
    let second = as_seq(state.retiring);
    lemma_slot_items(state.pending_stream());
    lemma_slot_items(state.retiring);
    vstd::seq_lib::lemma_multiset_commutative(first, second);
    vstd::seq_lib::lemma_multiset_commutative(first + second, parked);
    assert(parked_streams(Seq::<(S, u64)>::empty()) =~= Seq::empty());
    assert(Seq::<S>::empty().to_multiset() =~= Multiset::empty());
    assert(state.after_release().streams() =~= Multiset::empty());
    assert(state.streams() =~= state.after_release().streams().add(
        state.released().to_multiset(),
    ));
}

proof fn lemma_slot_items<S>(item: Option<S>)
    ensures
        as_seq(item).to_multiset() == slot(item),
{
    broadcast use vstd::seq_lib::group_to_multiset_ensures;

    assert(Seq::<S>::empty().to_multiset() =~= Multiset::empty());
    if let Some(s) = item {
        assert(seq![s] =~= Seq::empty().push(s));
        assert(seq![s].to_multiset() =~= Multiset::singleton(s));
    }
}

/// A settle divides the parked streams into those that are due and those
/// that are not.
proof fn lemma_settle_split<S>(parked: Seq<(S, u64)>, now: u64)
    ensures
        parked_streams(parked).to_multiset() == parked_streams(
            parked_past(parked, now),
        ).to_multiset().add(due_of(parked, now).to_multiset()),
    decreases parked.len(),
{
    broadcast use vstd::seq_lib::group_to_multiset_ensures;

    let waiting = parked_past(parked, now);
    let due = due_of(parked, now);
    if parked.len() == 0 {
        assert(parked_streams(parked) =~= Seq::empty());
        assert(parked_streams(waiting) =~= Seq::empty());
        assert(Seq::<S>::empty().to_multiset() =~= Multiset::empty());
        assert(parked_streams(parked).to_multiset() =~= parked_streams(waiting).to_multiset().add(
            due.to_multiset(),
        ));
    } else {
        let rest = parked.drop_first();
        let head = seq![parked[0].0];
        lemma_settle_split(rest, now);
        assert(parked_streams(parked) =~= head + parked_streams(rest));
        vstd::seq_lib::lemma_multiset_commutative(head, parked_streams(rest));
        if now >= parked[0].1 {
            vstd::seq_lib::lemma_multiset_commutative(head, due_of(rest, now));
        } else {
            assert(parked_streams(waiting) =~= head + parked_streams(parked_past(rest, now)));
            vstd::seq_lib::lemma_multiset_commutative(
                head,
                parked_streams(parked_past(rest, now)),
            );
        }
        assert(parked_streams(parked).to_multiset() =~= parked_streams(waiting).to_multiset().add(
            due.to_multiset(),
        ));
    }
}

/// A parked stream waits out its settle window: a settle hands out just the
/// streams whose deadline has passed, and no event and no new request takes a
/// parked stream away. Only a release does not wait.
pub proof fn law_parked_streams_wait<S, R>(
    state: SwapState<S, R>,
    event: StreamEvent,
    now: u64,
    stream: S,
    reply: R,
    entry: (S, u64),
)
    requires
        state.closing.contains(entry),
    ensures
        state.after_event(event, now).closing.contains(entry),
        state.after_begin().closing.contains(entry),
        state.after_install(stream, reply).closing.contains(entry),
        now < entry.1 ==> state.after_settle(now).closing.contains(entry),
        now >= entry.1 ==> state.due_at(now).contains(entry.0)
            && !state.after_settle(now).closing.contains(entry),
        forall|due: S| #[trigger]
            state.due_at(now).contains(due) ==> exists|deadline: u64|
                deadline <= now && #[trigger] state.closing.contains((due, deadline)),
{
    let k = choose|k: int| 0 <= k < state.closing.len() && state.closing[k] == entry;
    let after = state.after_event(event, now).closing;
    assert(after[k] == entry);
    lemma_settle(state.closing, now, entry);
    assert forall|due: S| #[trigger] state.due_at(now).contains(due) implies exists|deadline: u64|
        deadline <= now && #[trigger] state.closing.contains((due, deadline)) by {
        lemma_due_was_parked(state.closing, now, due);
    }
}

proof fn lemma_settle<S>(parked: Seq<(S, u64)>, now: u64, entry: (S, u64))
    ensures
        parked_past(parked, now).contains(entry) <==> parked.contains(entry) && now < entry.1,
        parked.contains(entry) && now >= entry.1 ==> due_of(parked, now).contains(entry.0),
    decreases parked.len(),
{
    if parked.len() > 0 {
        let rest = parked.drop_first();
        lemma_settle(rest, now, entry);
        lemma_contains_first(parked, entry);
        if now >= parked[0].1 {
            lemma_contains_add(parked[0].0, due_of(rest, now), entry.0);
        } else {
            lemma_contains_add(parked[0], parked_past(rest, now), entry);
        }
    }
}

proof fn lemma_due_was_parked<S>(parked: Seq<(S, u64)>, now: u64, due: S)
    requires
        due_of(parked, now).contains(due),
    ensures
        exists|deadline: u64| deadline <= now && #[trigger] parked.contains((due, deadline)),
    decreases parked.len(),
{
    if parked.len() > 0 {
        let rest = parked.drop_first();
        if now >= parked[0].1 {
            lemma_contains_add(parked[0].0, due_of(rest, now), due);
        }
        if now >= parked[0].1 && parked[0].0 == due {
            assert(parked.contains((due, parked[0].1))) by {
                assert(parked[0] == (due, parked[0].1));
            }
        } else {
            lemma_due_was_parked(rest, now, due);
            let deadline = choose|deadline: u64|
                deadline <= now && #[trigger] rest.contains((due, deadline));
            lemma_contains_first(parked, (due, deadline));
            assert(parked.contains((due, deadline)));
        }
    }
}

proof fn lemma_contains_add<A>(first: A, rest: Seq<A>, item: A)
    ensures
        (seq![first] + rest).contains(item) <==> first == item || rest.contains(item),
{
    let all = seq![first] + rest;
    assert(all[0] == first);
    assert(all.drop_first() =~= rest);
    lemma_contains_first(all, item);
}

proof fn lemma_contains_first<A>(all: Seq<A>, item: A)
    requires
        all.len() > 0,
    ensures
        all.contains(item) <==> all[0] == item || all.drop_first().contains(item),
{
    let rest = all.drop_first();
    if all.contains(item) {
        let k = choose|k: int| 0 <= k < all.len() && all[k] == item;
        if k > 0 {
            assert(rest[k - 1] == item);
        }
    }
    if rest.contains(item) {
        let k = choose|k: int| 0 <= k < rest.len() && rest[k] == item;
        assert(all[k + 1] == item);
    }
}

/// A release leaves no stream behind.
pub proof fn law_release_leaves_nothing<S, R>(state: SwapState<S, R>)
    ensures
        state.after_release().streams() == Multiset::<S>::empty(),
        state.after_release().waiting() is None,
{
    broadcast use vstd::seq_lib::group_to_multiset_ensures;

    assert(parked_streams(Seq::<(S, u64)>::empty()) =~= Seq::empty());
    assert(Seq::<S>::empty().to_multiset() =~= Multiset::empty());
    assert(state.after_release().streams() =~= Multiset::empty());
}

/// Create before close: while a replacement is being created the previous
/// stream is kept. It becomes the active one again if the replacement fails.
/// If it succeeds, the previous stream is handed out to be closed only once
/// the settle window is over, and then it is.
pub proof fn law_previous_stream_outlives_the_swap<S, R>(
    state: SwapState<S, R>,
    previous: S,
    replacement: S,
    reply: R,
    event: StreamEvent,
    now: u64,
    later: u64,
)
    requires
        state.wf(),
        state.pending_stream() == Some(previous),
        state.retiring is None,
        now + SETTLE_CLOSE_MS <= u64::MAX,
    ensures
        ({
            let swapping = state.after_begin().after_install(replacement, reply);
            let after = swapping.after_event(event, now);
            &&& swapping.retiring == Some(previous)
            &&& swapping.pending_stream() == Some(replacement)
            &&& event is Created ==> {
                &&& after.pending_stream() == Some(replacement)
                &&& after.closing == state.closing.push(
                    (previous, (now + SETTLE_CLOSE_MS) as u64),
                )
                &&& after.due_at(later) == if later < now + SETTLE_CLOSE_MS {
                    state.due_at(later)
                } else {
                    state.due_at(later).push(previous)
                }
            }
            &&& (event is Failed || event is Closed) ==> {
                &&& after.pending == Some((previous, None::<R>))
                &&& after.retiring is None
                &&& after.closing == state.closing
            }
            &&& event is Other ==> after == swapping
        }),
{
    lemma_due_push(state.closing, (previous, (now + SETTLE_CLOSE_MS) as u64), later);
}

proof fn lemma_due_push<S>(parked: Seq<(S, u64)>, entry: (S, u64), now: u64)
    ensures
        due_of(parked.push(entry), now) == if now < entry.1 {
            due_of(parked, now)
        } else {
            due_of(parked, now).push(entry.0)
        },
    decreases parked.len(),
{
    let grown = parked.push(entry);
    if parked.len() == 0 {
        assert(grown.drop_first() =~= Seq::empty());
        assert(due_of(grown.drop_first(), now) =~= Seq::empty());
        assert(seq![entry.0] + Seq::<S>::empty() =~= Seq::<S>::empty().push(entry.0));
    } else {
        let rest = parked.drop_first();
        lemma_due_push(rest, entry, now);
        assert(grown.drop_first() =~= rest.push(entry));
        assert(grown[0] == parked[0]);
        assert(seq![parked[0].0] + due_of(rest, now).push(entry.0) =~= (seq![parked[0].0] + due_of(
            rest,
            now,
        )).push(entry.0));
    }
}

/// The active stream changes hands only when its replacement is created. No
/// other event, no settle and no new request takes it away, so there is a
/// stream to show the desktop on from the first one until the release.
///
/// A request that comes while the outcome of the one before is still open
/// abandons that swap, and with it the stream that was active.
pub proof fn law_active_stream_stays<S, R>(
    state: SwapState<S, R>,
    event: StreamEvent,
    now: u64,
    stream: S,
    reply: R,
)
    requires
        state.wf(),
    ensures
        state.after_event(event, now).active() == if !state.done && event is Created {
            state.pending_stream()
        } else {
            state.active()
        },
        state.after_settle(now).active() == state.active(),
        state.retiring is None ==> state.after_begin().after_install(stream, reply).active()
            == match state.active() {
            Some(previous) => Some(previous),
            None => Some(stream),
        },
{
}

/// Whoever asked for a stream is answered at most once: after the first
/// conclusive event nobody waits any more, and later events change nothing
/// and hand out nothing, until another stream is asked for.
pub proof fn law_request_is_answered_once<S, R>(
    state: SwapState<S, R>,
    first: StreamEvent,
    second: StreamEvent,
    now: u64,
    later: u64,
)
    requires
        state.wf(),
        first.outcome() is Some,
    ensures
        state.after_event(first, now).wf(),
        state.after_event(first, now).waiting() is None,
        state.after_event(first, now).after_event(second, later) == state.after_event(first, now),
        state.after_event(first, now).discarded_by(second) is None,
{
}

// ---------------------------------------------------------------------------
// The connection thread
// ---------------------------------------------------------------------------

/// The version to bind an advertised global with, if it is the screencast
/// one: the newest that both sides speak.
pub fn bind_version(interface: &str, version: u32) -> (bound: Option<u32>)
    ensures
        bound is Some <==> interface@ == "zkde_screencast_unstable_v1"@,
        bound matches Some(spoken) ==> spoken <= version && spoken <= 4 && (spoken == version
            || spoken == 4),
        bound == if interface@ == "zkde_screencast_unstable_v1"@ {
            Some(if version <= SCREENCAST_VERSION { version } else { SCREENCAST_VERSION })
        } else {
            None
        },
{
    let letters = text::chars_of(interface);
    if text::spells(letters.as_slice(), "zkde_screencast_unstable_v1") {
        if version <= SCREENCAST_VERSION {
            Some(version)
        } else {
            Some(SCREENCAST_VERSION)
        }
    } else {
        None
    }
}

/// How a poll of the compositor socket ended.
pub enum PollOutcome {
    /// So many descriptors are ready; `readable` tells of ours.
    Ready { count: i32, readable: bool },
    /// A signal interrupted it.
    Interrupted,
    /// It failed.
    Failed,
}

/// What the connection thread does after a poll.
#[derive(Debug, Clone, Copy, PartialEq, Eq)]
pub enum PollAction {
    /// Read and dispatch compositor events, then turn to the commands.
    Dispatch,
    /// Turn to the commands.
    Commands,
    /// Poll again.
    Again,
    /// Give up.
    Exit,
}

/// What the connection thread does after a poll.
pub fn after_poll(outcome: PollOutcome) -> (action: PollAction)
    ensures
        action == match outcome {
            PollOutcome::Ready { count, readable } => if count > 0 && readable {
                PollAction::Dispatch
            } else {
                PollAction::Commands
            },
            PollOutcome::Interrupted => PollAction::Again,
            PollOutcome::Failed => PollAction::Exit,
        },
{
    match outcome {
        PollOutcome::Ready { count, readable } => {
            if count > 0 && readable {
                PollAction::Dispatch
            } else {
                PollAction::Commands
            }
        },
        PollOutcome::Interrupted => PollAction::Again,
        PollOutcome::Failed => PollAction::Exit,
    }
}

/// What can end the connection thread.
#[derive(Debug, Clone, Copy, PartialEq, Eq)]
pub enum ThreadFault {
    Connect,
    Poll,
    Read,
    Dispatch,
}

/// How an error message for a fault begins.
pub open spec fn fault_prefix(fault: ThreadFault) -> Seq<char> {
    match fault {
        ThreadFault::Connect => "wayland connection failed: "@,
        ThreadFault::Poll => "poll failed: "@,
        ThreadFault::Read => "wayland read failed: "@,
        ThreadFault::Dispatch => "dispatch failed: "@,
    }
}

/// The error that a request is answered with when the thread ends.
pub fn fault_message(fault: ThreadFault, detail: &str) -> (message: String)
    ensures
        message@ == fault_prefix(fault) + detail@,
        message@ == match fault {
            ThreadFault::Connect => "wayland connection failed: "@,
            ThreadFault::Poll => "poll failed: "@,
            ThreadFault::Read => "wayland read failed: "@,
            ThreadFault::Dispatch => "dispatch failed: "@,
        } + detail@,
{
    let prefix = match fault {
        ThreadFault::Connect => "wayland connection failed: ",
        ThreadFault::Poll => "poll failed: ",
        ThreadFault::Read => "wayland read failed: ",
        ThreadFault::Dispatch => "dispatch failed: ",
    };
    prefix.to_owned().concat(detail)
}

// ---------------------------------------------------------------------------
// What the steps keep and change
// ---------------------------------------------------------------------------

/// Once the screencast global is bound it stays bound, whatever happens to
/// the streams.
pub proof fn law_bound_global_stays_bound<S, R>(
    state: SwapState<S, R>,
    event: StreamEvent,
    now: u64,
    stream: S,
    reply: R,
)
    ensures
        state.after_event(event, now).bound == state.bound,
        state.after_begin().bound == state.bound,
        state.after_install(stream, reply).bound == state.bound,
        state.after_settle(now).bound == state.bound,
        state.after_release().bound == state.bound,
{
}

/// A release is not the end: the next create starts from nothing, with nobody
/// waiting but who asks now, and its outcome is open.
pub proof fn law_create_after_release_starts_afresh<S, R>(
    state: SwapState<S, R>,
    stream: S,
    reply: R,
    node: u32,
    now: u64,
)
    ensures
        ({
            let released = state.after_release();
            let created = released.after_begin().after_install(stream, reply);
            let live = created.after_event(StreamEvent::Created { node }, now);
            &&& released.bound == state.bound
            &&& released.pending is None
            &&& released.retiring is None
            &&& released.closing.len() == 0
            &&& created.bound == state.bound
            &&& created.pending == Some((stream, Some(reply)))
            &&& created.retiring is None
            &&& created.closing.len() == 0
            &&& !created.done
            &&& live.bound == state.bound
            &&& live.pending == Some((stream, None::<R>))
            &&& live.retiring is None
            &&& live.closing.len() == 0
            &&& live.done
        }),
{
}

/// A create keeps the stream there was, and adds the new one: the one stands
/// behind as retiring, the other is pending with who asked for it, and the
/// parked streams are left alone.
pub proof fn law_create_keeps_the_previous_stream<S, R>(
    state: SwapState<S, R>,
    stream: S,
    reply: R,
)
    ensures
        ({
            let created = state.after_begin().after_install(stream, reply);
            &&& created.pending == Some((stream, Some(reply)))
            &&& match state.pending {
                Some((previous, _)) => created.retiring == Some(previous),
                None => created.retiring is None,
            }
            &&& created.closing == state.closing
            &&& !created.done
        }),
{
}

/// A created replacement becomes the only live stream: nobody waits for it
/// any more, and the previous one is parked behind those parked before, for
/// 750 milliseconds from now. Without a previous one nothing is parked.
pub proof fn law_created_parks_the_previous_stream<S, R>(
    state: SwapState<S, R>,
    node: u32,
    now: u64,
)
    requires
        !state.done,
        now + 750 <= u64::MAX,
    ensures
        ({
            let after = state.after_event(StreamEvent::Created { node }, now);
            &&& after.done
            &&& after.retiring is None
            &&& match state.pending {
                Some((stream, _)) => after.pending == Some((stream, None::<R>)),
                None => after.pending is None,
            }
            &&& match state.retiring {
                Some(previous) => after.closing == state.closing.push(
                    (previous, (now + 750) as u64),
                ),
                None => after.closing == state.closing,
            }
            &&& state.discarded_by(StreamEvent::Created { node }) is None
        }),
{
}

/// A replacement that fails or is closed gives way to the previous stream, and
/// is itself handed out; without a previous one it stays, for a later close.
/// Nothing is parked on its account.
pub proof fn law_failed_replacement_gives_way<S, R>(
    state: SwapState<S, R>,
    event: StreamEvent,
    now: u64,
)
    requires
        !state.done,
        event is Failed || event is Closed,
    ensures
        ({
            let after = state.after_event(event, now);
            &&& after.done
            &&& after.retiring is None
            &&& after.closing == state.closing
            &&& match (state.retiring, state.pending) {
                (Some(previous), Some((stream, _))) => after.pending == Some((previous, None::<R>))
                    && state.discarded_by(event) == Some(stream),
                (Some(previous), None) => after.pending == Some((previous, None::<R>))
                    && state.discarded_by(event) is None,
                (None, Some((stream, _))) => after.pending == Some((stream, None::<R>))
                    && state.discarded_by(event) is None,
                (None, None) => after.pending is None && state.discarded_by(event) is None,
            }
        }),
{
}

/// Any other event, and any event once the outcome is known, changes nothing
/// and hands out nothing.
pub proof fn law_other_events_change_nothing<S, R>(
    state: SwapState<S, R>,
    event: StreamEvent,
    now: u64,
)
    requires
        state.done || event is Other,
    ensures
        state.after_event(event, now) == state,
        state.discarded_by(event) is None,
{
}

/// A release hands out the pending stream, the retiring one and the parked
/// ones, in this order, and re-arms for the next request if there was any.
pub proof fn law_release_hands_out_everything<S, R>(state: SwapState<S, R>)
    ensures
        state.released().len() == (if state.pending is Some { 1int } else { 0 }) + (
        if state.retiring is Some { 1int } else { 0 }) + state.closing.len(),
        state.pending matches Some((stream, _)) ==> state.released()[0] == stream,
        state.retiring matches Some(previous) ==> state.released()[if state.pending is Some {
            1int
        } else {
            0
        }] == previous,
        forall|i: int|
            0 <= i < state.closing.len() ==> state.released()[state.released().len()
                - state.closing.len() + i] == (#[trigger] state.closing[i]).0,
        (state.pending is Some || state.retiring is Some || state.closing.len() > 0)
            ==> !state.after_release().done,
        (state.pending is None && state.retiring is None && state.closing.len() == 0)
            ==> state.after_release() == state,
{
    let parked = parked_streams(state.closing);
    let first = as_seq(state.pending_stream()) + as_seq(state.retiring);
    assert forall|i: int| 0 <= i < state.closing.len() implies state.released()[first.len() + i]
        == (#[trigger] state.closing[i]).0 by {
        assert(parked[i] == state.closing[i].0);
    }
    if state.pending is None && state.retiring is None && state.closing.len() == 0 {
        assert(state.closing =~= Seq::empty());
        assert(state.after_release() == state);
    }
}

/// A settle looks at the parked streams one by one, in order: one whose
/// deadline has passed is due, another stays. It touches nothing else.
pub proof fn law_settle_goes_stream_by_stream<S, R>(
    state: SwapState<S, R>,
    entry: (S, u64),
    now: u64,
)
    ensures
        ({
            let more = SwapState { closing: state.closing.push(entry), ..state };
            &&& more.due_at(now) == if now >= entry.1 {
                state.due_at(now).push(entry.0)
            } else {
                state.due_at(now)
            }
            &&& more.after_settle(now).closing == if now >= entry.1 {
                state.after_settle(now).closing
            } else {
                state.after_settle(now).closing.push(entry)
            }
        }),
        state.closing.len() == 0 ==> state.due_at(now).len() == 0,
        state.after_settle(now).closing.len() <= state.closing.len(),
        state.after_settle(now).pending == state.pending,
        state.after_settle(now).retiring == state.retiring,
        state.after_settle(now).done == state.done,
{
    lemma_due_push(state.closing, entry, now);
    lemma_parked_push(state.closing, entry, now);
    lemma_parked_len(state.closing, now);
}

proof fn lemma_parked_len<S>(parked: Seq<(S, u64)>, now: u64)
    ensures
        parked_past(parked, now).len() <= parked.len(),
    decreases parked.len(),
{
    if parked.len() > 0 {
        lemma_parked_len(parked.drop_first(), now);
    }
}

proof fn lemma_parked_push<S>(parked: Seq<(S, u64)>, entry: (S, u64), now: u64)
    ensures
        parked_past(parked.push(entry), now) == if now >= entry.1 {
            parked_past(parked, now)
        } else {
            parked_past(parked, now).push(entry)
        },
    decreases parked.len(),
{
    let grown = parked.push(entry);
    if parked.len() == 0 {
        assert(grown.drop_first() =~= Seq::empty());
        assert(parked_past(grown.drop_first(), now) =~= Seq::empty());
        assert(seq![entry] + Seq::<(S, u64)>::empty() =~= Seq::<(S, u64)>::empty().push(entry));
    } else {
        let rest = parked.drop_first();
        lemma_parked_push(rest, entry, now);
        assert(grown.drop_first() =~= rest.push(entry));
        assert(grown[0] == parked[0]);
        assert(seq![parked[0]] + parked_past(rest, now).push(entry) =~= (seq![parked[0]]
            + parked_past(rest, now)).push(entry));
    }
}

/// Who waits is who asked for the pending stream and was not answered yet, and
/// the stream they wait for is the pending one.
pub proof fn law_waiting_is_who_asked<S, R>(state: SwapState<S, R>, reply: R)
    ensures
        state.waiting() == Some(reply) <==> (state.pending matches Some((_, Some(asked))) && asked
            == reply),
        state.waiting() is None <==> !(state.pending matches Some((_, Some(_)))),
        state.pending_stream() is Some <==> state.pending is Some,
        state.pending matches Some((stream, _)) ==> state.pending_stream() == Some(stream),
{
}

} // verus!
