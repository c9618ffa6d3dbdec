//! The output layout guard: while a virtual-output session is live, the
//! physical outputs are disabled so the virtual output becomes the primary
//! at the origin; afterwards they are enabled again.
//!
//! Listing, enabling and disabling outputs happens outside. [`EngageFlow`]
//! and [`RestoreFlow`] say which step comes next and what the listings mean;
//! [`OutputLayoutGuard`] remembers what is to be restored.

use vstd::prelude::*;

use super::config::VirtualOutputConfig;
use super::kscreen;

verus! {

/// Settle window, in milliseconds, before the physical outputs are disabled
/// and after they have been restored: clients bind a newly announced output
/// asynchronously, and must have done so before another one goes away.
pub const ENGAGE_SETTLE_MS: u64 = 750;

/// How long, in milliseconds, a change of the layout is given before it is
/// verified.
pub const VERIFY_SETTLE_MS: u64 = 300;

// ---------------------------------------------------------------------------
// Lists of names
// ---------------------------------------------------------------------------

/// The names that are in `others` (with `wanted`) or are not in it (without),
/// in order.
pub open spec fn select(names: Seq<Seq<char>>, others: Seq<Seq<char>>, wanted: bool) -> Seq<
    Seq<char>,
>
    decreases names.len(),
{
    if names.len() == 0 {
        Seq::empty()
    } else {
        let so_far = select(names.drop_last(), others, wanted);
        if others.contains(names.last()) == wanted {
            so_far.push(names.last())
        } else {
            so_far
        }
    }
}

/// A name is selected exactly if it is among the names and its membership in
/// the other list is the wanted one.
pub proof fn lemma_select(names: Seq<Seq<char>>, others: Seq<Seq<char>>, wanted: bool)
    ensures
        select(names, others, wanted).len() <= names.len(),
        forall|name: Seq<char>| #[trigger]
            select(names, others, wanted).contains(name) <==> names.contains(name)
                && others.contains(name) == wanted,
    decreases names.len(),
{
    if names.len() > 0 {
        let front = names.drop_last();
        let last = names.last();
        let so_far = select(front, others, wanted);
        let out = select(names, others, wanted);
        lemma_select(front, others, wanted);
        assert forall|name: Seq<char>| #[trigger] out.contains(name) <==> names.contains(name)
            && others.contains(name) == wanted by {
            if out.contains(name) {
                let k = choose|k: int| 0 <= k < out.len() && out[k] == name;
                if k < so_far.len() {
                    assert(so_far[k] == name);
                    assert(so_far.contains(name));
                    let m = choose|m: int| 0 <= m < front.len() && front[m] == name;
                    assert(names[m] == name);
                } else {
                    assert(names[names.len() - 1] == name);
                }
            }
            if names.contains(name) && others.contains(name) == wanted {
                let m = choose|m: int| 0 <= m < names.len() && names[m] == name;
                if m < front.len() {
                    assert(front[m] == name);
                    assert(so_far.contains(name));
                    let k = choose|k: int| 0 <= k < so_far.len() && so_far[k] == name;
                    assert(out[k] == name);
                } else {
                    assert(out[out.len() - 1] == name);
                }
            }
        }
    }
}

/// Whether `name` is in `names`.
fn has_name(names: &Vec<String>, name: &String) -> (found: bool)
    ensures
        found == kscreen::texts(names@).contains(name@),
{
    for i in 0..names.len()
        invariant
            forall|k: int| 0 <= k < i ==> (#[trigger] names@[k])@ != name@,
    {
        if names[i] == *name {
            assert(kscreen::texts(names@)[i as int] == name@);
            return true;
        }
    }
    assert forall|k: int| 0 <= k < names@.len() implies kscreen::texts(names@)[k] != name@ by {
        assert(names@[k]@ != name@);
    }
    false
}

/// The names that are in `others`, or those that are not.
fn select_names(names: &Vec<String>, others: &Vec<String>, wanted: bool) -> (out: Vec<String>)
    ensures
        kscreen::texts(out@) == select(kscreen::texts(names@), kscreen::texts(others@), wanted),
{
    let mut out: Vec<String> = Vec::new();
    let ghost all = kscreen::texts(names@);
    assert(kscreen::texts(out@) =~= Seq::empty());
    for i in 0..names.len()
        invariant
            all == kscreen::texts(names@),
            kscreen::texts(out@) == select(all.take(i as int), kscreen::texts(others@), wanted),
    {
        assert(all.take(i + 1).drop_last() =~= all.take(i as int));
        assert(all.take(i + 1).last() == names@[i as int]@);
        if has_name(others, &names[i]) == wanted {
            let name = names[i].clone();
            proof {
                kscreen::lemma_texts_push(out@, name);
            }
            out.push(name);
        }
    }
    assert(all.take(names@.len() as int) =~= all);
    out
}

/// Another list of the same names.
fn copy_names(names: &Vec<String>) -> (copy: Vec<String>)
    ensures
        kscreen::texts(copy@) == kscreen::texts(names@),
{
    let mut copy: Vec<String> = Vec::new();
    for i in 0..names.len()
        invariant
            copy@ == names@.take(i as int),
    {
        copy.push(names[i].clone());
        assert(copy@ =~= names@.take(i + 1));
    }
    assert(names@.take(names@.len() as int) =~= names@);
    copy
}

// ---------------------------------------------------------------------------
// The guard
// ---------------------------------------------------------------------------

/// Which physical outputs a virtual-output session has to restore.
///
/// Both directions are best-effort: if they fail, the session still works
/// (the virtual output is usable as a secondary screen, just with the panel
/// elsewhere).
pub struct OutputLayoutGuard {
    /// Connector names to be enabled again.
    disabled: Vec<String>,
    /// The virtual output's kscreen name (the same name the guard engaged
    /// with), for the exclusion when the restore is verified.
    exclude: String,
}

impl OutputLayoutGuard {
    /// The connector names to be enabled again.
    pub closed spec fn names(&self) -> Seq<Seq<char>> {
        kscreen::texts(self.disabled@)
    }

    /// The virtual output's kscreen name.
    pub closed spec fn excluded(&self) -> Seq<char> {
        self.exclude@
    }

    /// The connector names this guard disabled (for diagnostics).
    pub fn disabled_outputs(&self) -> (outputs: &[String])
        ensures
            kscreen::texts(outputs@) == self.names(),
    {
        self.disabled.as_slice()
    }

    /// The virtual output's kscreen name.
    pub fn exclude(&self) -> (name: &str)
        ensures
            name@ == self.excluded(),
    {
        self.exclude.as_str()
    }

    /// Begin to restore the physical outputs, if there are any. Afterwards
    /// the guard holds nothing, so doing it again does nothing.
    pub fn begin_restore(&mut self) -> (flow: Option<RestoreFlow>)
        ensures
            final(self).names() == Seq::<Seq<char>>::empty(),
            final(self).excluded() == old(self).excluded(),
            match flow {
                Some(flow) => old(self).names().len() > 0 && flow@ == (RestoreState::Enabling {
                    names: old(self).names(),
                }),
                None => old(self).names().len() == 0,
            },
    {
        let mut names: Vec<String> = Vec::new();
        std::mem::swap(&mut names, &mut self.disabled);
        assert(self.names() =~= Seq::empty());
        if names.len() == 0 {
            None
        } else {
            Some(RestoreFlow { stage: RestoreStage::Enabling { names } })
        }
    }
}

// ---------------------------------------------------------------------------
// Engaging
// ---------------------------------------------------------------------------

/// Where an engage stands.
pub enum EngageState {
    /// The enabled outputs are to be listed.
    Listing,
    /// None is enabled: the recoverable ones are to be listed.
    Adopting,
    /// `names` are to be disabled.
    Disabling { names: Seq<Seq<char>> },
    /// The enabled outputs are to be listed again.
    Verifying { names: Seq<Seq<char>> },
    /// Of `names`, those in `bounced` are to be disabled once more.
    Retrying { names: Seq<Seq<char>>, bounced: Seq<Seq<char>> },
    /// The enabled outputs are to be listed a last time.
    Rechecking { names: Seq<Seq<char>> },
    /// The virtual output is to be moved to the origin.
    Normalizing { names: Seq<Seq<char>> },
    /// Done; `names` are to be restored at release.
    Engaged { names: Seq<Seq<char>> },
}

/// What became of a step of an engage.
pub enum EngageEvent {
    /// The outputs that were listed; none where listing failed.
    Listed(Vec<String>),
    /// Disabling was tried.
    Disabled,
    /// The move to the origin was tried.
    Normalized,
}

/// The step of an engage to take next.
pub enum EngageAction {
    /// List the enabled physical outputs.
    ListEnabled,
    /// List the enabled and the connected physical outputs.
    ListRecoverable,
    /// Wait, disable the outputs one by one, wait.
    Disable { before_ms: u64, names: Vec<String>, after_ms: u64 },
    /// Move the virtual output to the origin.
    Normalize,
    /// The guard is engaged.
    Done,
}

/// The state that an event leads to. An event that does not belong to the
/// step at hand leads nowhere.
pub open spec fn next_engage_state(state: EngageState, event: EngageEvent) -> EngageState {
    match (state, event) {
        (EngageState::Listing, EngageEvent::Listed(found)) => if found@.len() == 0 {
            EngageState::Adopting
        } else {
            EngageState::Disabling { names: kscreen::texts(found@) }
        },
        (EngageState::Adopting, EngageEvent::Listed(found)) => EngageState::Engaged {
            names: kscreen::texts(found@),
        },
        (EngageState::Disabling { names }, EngageEvent::Disabled) => EngageState::Verifying {
            names,
        },
        (EngageState::Verifying { names }, EngageEvent::Listed(found)) => {
            let bounced = select(names, kscreen::texts(found@), true);
            if bounced.len() == 0 {
                EngageState::Normalizing { names }
            } else {
                EngageState::Retrying { names, bounced }
            }
        },
        (EngageState::Retrying { names, .. }, EngageEvent::Disabled) => EngageState::Rechecking {
            names,
        },
        (EngageState::Rechecking { names }, EngageEvent::Listed(found)) => EngageState::Normalizing {
            names: select(names, kscreen::texts(found@), false),
        },
        (EngageState::Normalizing { names }, EngageEvent::Normalized) => EngageState::Engaged {
            names,
        },
        (state, _) => state,
    }
}

/// `action` is the step that `state` asks for.
pub open spec fn is_engage_action(state: EngageState, action: EngageAction) -> bool {
    match state {
        EngageState::Listing => action is ListEnabled,
        EngageState::Adopting => action is ListRecoverable,
        EngageState::Disabling { names } => action matches EngageAction::Disable {
            before_ms,
            names: given,
            after_ms,
        } && before_ms == ENGAGE_SETTLE_MS && kscreen::texts(given@) == names && after_ms
            == VERIFY_SETTLE_MS,
        EngageState::Verifying { .. } => action is ListEnabled,
        EngageState::Retrying { bounced, .. } => action matches EngageAction::Disable {
            before_ms,
            names: given,
            after_ms,
        } && before_ms == 0 && kscreen::texts(given@) == bounced && after_ms == VERIFY_SETTLE_MS,
        EngageState::Rechecking { .. } => action is ListEnabled,
        EngageState::Normalizing { .. } => action is Normalize,
        EngageState::Engaged { .. } => action is Done,
    }
}

enum EngageStage {
    Listing,
    Adopting,
    Disabling { names: Vec<String> },
    Verifying { names: Vec<String> },
    Retrying { names: Vec<String>, bounced: Vec<String> },
    Rechecking { names: Vec<String> },
    Normalizing { names: Vec<String> },
    Engaged { names: Vec<String> },
}

impl EngageStage {
    spec fn view(self) -> EngageState {
        match self {
            EngageStage::Listing => EngageState::Listing,
            EngageStage::Adopting => EngageState::Adopting,
            EngageStage::Disabling { names } => EngageState::Disabling {
                names: kscreen::texts(names@),
            },
            EngageStage::Verifying { names } => EngageState::Verifying {
                names: kscreen::texts(names@),
            },
            EngageStage::Retrying { names, bounced } => EngageState::Retrying {
                names: kscreen::texts(names@),
                bounced: kscreen::texts(bounced@),
            },
            EngageStage::Rechecking { names } => EngageState::Rechecking {
                names: kscreen::texts(names@),
            },
            EngageStage::Normalizing { names } => EngageState::Normalizing {
                names: kscreen::texts(names@),
            },
            EngageStage::Engaged { names } => EngageState::Engaged {
                names: kscreen::texts(names@),
            },
        }
    }
}

/// Snapshot the enabled non-virtual outputs, then disable them.
///
/// The virtual output must have been created FIRST so a disable leaves a
/// valid layout: KWin refuses to disable the ONLY enabled output, which
/// bounces back silently. A disable that bounced is retried once after the
/// compositor settles; an output that bounces again is not remembered.
///
/// An already headless layout has nothing to disable. The connected but
/// disabled physical outputs are adopted anyway: they must be enabled at
/// release even when the guard engaged a machine that was already blind.
pub struct EngageFlow {
    exclude: String,
    stage: EngageStage,
}

impl EngageFlow {
    pub closed spec fn view(&self) -> EngageState {
        self.stage@
    }

    /// The virtual output's kscreen name.
    pub closed spec fn excluded(&self) -> Seq<char> {
        self.exclude@
    }

    /// An engage that has not begun, for the given virtual-output identity.
    pub fn new(config: &VirtualOutputConfig) -> (flow: Self)
        ensures
            flow@ == EngageState::Listing,
            flow.excluded() == config.kscreen_name@,
    {
        EngageFlow { exclude: config.kscreen_name.clone(), stage: EngageStage::Listing }
    }

    /// The step to take next.
    pub fn action(&self) -> (action: EngageAction)
        ensures
            is_engage_action(self@, action),
    {
        match &self.stage {
            EngageStage::Listing => EngageAction::ListEnabled,
            EngageStage::Adopting => EngageAction::ListRecoverable,
            EngageStage::Disabling { names } => EngageAction::Disable {
                before_ms: ENGAGE_SETTLE_MS,
                names: copy_names(names),
                after_ms: VERIFY_SETTLE_MS,
            },
            EngageStage::Verifying { .. } => EngageAction::ListEnabled,
            EngageStage::Retrying { bounced, .. } => EngageAction::Disable {
                before_ms: 0,
                names: copy_names(bounced),
                after_ms: VERIFY_SETTLE_MS,
            },
            EngageStage::Rechecking { .. } => EngageAction::ListEnabled,
            EngageStage::Normalizing { .. } => EngageAction::Normalize,
            EngageStage::Engaged { .. } => EngageAction::Done,
        }
    }

    /// Take note of what became of the step.
    pub fn advance(self, event: EngageEvent) -> (next: Self)
        ensures
            next@ == next_engage_state(self@, event),
            next.excluded() == self.excluded(),
    {
        let stage = match (self.stage, event) {
            (EngageStage::Listing, EngageEvent::Listed(found)) => {
                if found.len() == 0 {
                    EngageStage::Adopting
                } else {
                    EngageStage::Disabling { names: found }
                }
            },
            (EngageStage::Adopting, EngageEvent::Listed(found)) => EngageStage::Engaged {
                names: found,
            },
            (EngageStage::Disabling { names }, EngageEvent::Disabled) => EngageStage::Verifying {
                names,
            },
            (EngageStage::Verifying { names }, EngageEvent::Listed(found)) => {
                let bounced = select_names(&names, &found, true);
                assert(bounced@.len() == kscreen::texts(bounced@).len());
                if bounced.len() == 0 {
                    EngageStage::Normalizing { names }
                } else {
                    EngageStage::Retrying { names, bounced }
                }
            },
            (EngageStage::Retrying { names, .. }, EngageEvent::Disabled) => EngageStage::Rechecking {
                names,
            },
            (EngageStage::Rechecking { names }, EngageEvent::Listed(found)) => {
                // Only bookkeep the ones that actually disabled.
                EngageStage::Normalizing { names: select_names(&names, &found, false) }
            },
            (EngageStage::Normalizing { names }, EngageEvent::Normalized) => EngageStage::Engaged {
                names,
            },
            (stage, _) => stage,
        };
        EngageFlow { exclude: self.exclude, stage }
    }

    /// The guard, once the engage is done.
    pub fn finish(self) -> (guard: Option<OutputLayoutGuard>)
        ensures
            match guard {
                Some(guard) => self@ == (EngageState::Engaged { names: guard.names() })
                    && guard.excluded() == self.excluded(),
                None => !(self@ is Engaged),
            },
    {
        match self.stage {
            EngageStage::Engaged { names } => Some(
                OutputLayoutGuard { disabled: names, exclude: self.exclude },
            ),
            _ => None,
        }
    }
}

/// The outputs that an engage remembers: those adopted where none was
/// enabled; else those enabled at first, without those that were still
/// enabled at the last listing where a retry was needed.
pub open spec fn engaged_names(
    first: Seq<Seq<char>>,
    adopted: Seq<Seq<char>>,
    verified: Seq<Seq<char>>,
    rechecked: Seq<Seq<char>>,
) -> Seq<Seq<char>> {
    if first.len() == 0 {
        adopted
    } else if select(first, verified, true).len() == 0 {
        first
    } else {
        select(first, rechecked, false)
    }
}

/// An engage runs to its end, and remembers just `engaged_names`.
pub proof fn law_engage_outcome(
    first: Vec<String>,
    adopted: Vec<String>,
    verified: Vec<String>,
    rechecked: Vec<String>,
)
    ensures
        ({
            let names = engaged_names(
                kscreen::texts(first@),
                kscreen::texts(adopted@),
                kscreen::texts(verified@),
                kscreen::texts(rechecked@),
            );
            let listed = next_engage_state(EngageState::Listing, EngageEvent::Listed(first));
            if first@.len() == 0 {
                next_engage_state(listed, EngageEvent::Listed(adopted)) == (EngageState::Engaged {
                    names,
                })
            } else {
                let checked = next_engage_state(
                    next_engage_state(listed, EngageEvent::Disabled),
                    EngageEvent::Listed(verified),
                );
                let settled = if checked is Retrying {
                    next_engage_state(
                        next_engage_state(checked, EngageEvent::Disabled),
                        EngageEvent::Listed(rechecked),
                    )
                } else {
                    checked
                };
                next_engage_state(settled, EngageEvent::Normalized) == (EngageState::Engaged {
                    names,
                })
            }
        }),
{
    assert(kscreen::texts(first@).len() == first@.len());
}

/// All names that a state holds come from `listed`.
pub open spec fn engages_only(state: EngageState, listed: Seq<Seq<char>>) -> bool {
    match state {
        EngageState::Listing | EngageState::Adopting => true,
        EngageState::Disabling { names } | EngageState::Verifying { names }
        | EngageState::Rechecking { names } | EngageState::Normalizing { names }
        | EngageState::Engaged { names } => among(names, listed),
        EngageState::Retrying { names, bounced } => among(names, listed) && among(bounced, listed),
    }
}

pub open spec fn among(names: Seq<Seq<char>>, listed: Seq<Seq<char>>) -> bool {
    forall|name: Seq<char>| #[trigger] names.contains(name) ==> listed.contains(name)
}

/// Nothing but a physical output is ever disabled or remembered: as long as
/// the listings hold only names from `physical`, so does every state, and
/// with it every disable that it asks for.
pub proof fn law_engage_touches_only_listed_outputs(
    state: EngageState,
    event: EngageEvent,
    physical: Seq<Seq<char>>,
)
    requires
        engages_only(state, physical),
        event matches EngageEvent::Listed(found) ==> among(kscreen::texts(found@), physical),
    ensures
        engages_only(next_engage_state(state, event), physical),
{
    match (state, event) {
        (EngageState::Verifying { names }, EngageEvent::Listed(found)) => {
            lemma_select(names, kscreen::texts(found@), true);
        },
        (EngageState::Rechecking { names }, EngageEvent::Listed(found)) => {
            lemma_select(names, kscreen::texts(found@), false);
        },
        _ => {},
    }
}

// ---------------------------------------------------------------------------
// Restoring
// ---------------------------------------------------------------------------

/// Where a restore stands.
pub enum RestoreState {
    /// `names` are to be enabled.
    Enabling { names: Seq<Seq<char>> },
    /// The enabled outputs are to be listed.
    Verifying { names: Seq<Seq<char>> },
    /// Of `names`, those in `missing` are to be enabled once more.
    Retrying { names: Seq<Seq<char>>, missing: Seq<Seq<char>> },
    /// The enabled outputs are to be listed a last time.
    Rechecking { names: Seq<Seq<char>> },
    /// Done: these came back, and these did not.
    Restored { restored: Seq<Seq<char>>, stuck: Seq<Seq<char>> },
}

/// What became of a step of a restore.
pub enum RestoreEvent {
    /// Enabling was tried.
    Enabled,
    /// The enabled outputs that were listed.
    Listed(Vec<String>),
}

/// The step of a restore to take next.
pub enum RestoreAction {
    /// Enable the outputs one by one, then wait.
    Enable { names: Vec<String>, after_ms: u64 },
    /// List the enabled physical outputs.
    ListEnabled,
    /// Done: these came back, and these did not.
    Done { restored: Vec<String>, stuck: Vec<String> },
}

/// The state that an event leads to. An event that does not belong to the
/// step at hand leads nowhere.
pub open spec fn next_restore_state(state: RestoreState, event: RestoreEvent) -> RestoreState {
    match (state, event) {
        (RestoreState::Enabling { names }, RestoreEvent::Enabled) => RestoreState::Verifying {
            names,
        },
        (RestoreState::Verifying { names }, RestoreEvent::Listed(found)) => {
            let missing = select(names, kscreen::texts(found@), false);
            if missing.len() == 0 {
                RestoreState::Restored { restored: names, stuck: Seq::empty() }
            } else {
                RestoreState::Retrying { names, missing }
            }
        },
        (RestoreState::Retrying { names, .. }, RestoreEvent::Enabled) => RestoreState::Rechecking {
            names,
        },
        (RestoreState::Rechecking { names }, RestoreEvent::Listed(found)) => RestoreState::Restored {
            restored: select(names, kscreen::texts(found@), true),
            stuck: select(names, kscreen::texts(found@), false),
        },
        (state, _) => state,
    }
}

/// `action` is the step that `state` asks for.
pub open spec fn is_restore_action(state: RestoreState, action: RestoreAction) -> bool {
    match state {
        RestoreState::Enabling { names } => action matches RestoreAction::Enable {
            names: given,
            after_ms,
        } && kscreen::texts(given@) == names && after_ms == VERIFY_SETTLE_MS,
        RestoreState::Verifying { .. } => action is ListEnabled,
        RestoreState::Retrying { missing, .. } => action matches RestoreAction::Enable {
            names: given,
            after_ms,
        } && kscreen::texts(given@) == missing && after_ms == VERIFY_SETTLE_MS,
        RestoreState::Rechecking { .. } => action is ListEnabled,
        RestoreState::Restored { restored, stuck } => action matches RestoreAction::Done {
            restored: back,
            stuck: lost,
        } && kscreen::texts(back@) == restored && kscreen::texts(lost@) == stuck,
    }
}

enum RestoreStage {
    Enabling { names: Vec<String> },
    Verifying { names: Vec<String> },
    Retrying { names: Vec<String>, missing: Vec<String> },
    Rechecking { names: Vec<String> },
    Restored { restored: Vec<String>, stuck: Vec<String> },
}

impl RestoreStage {
    spec fn view(self) -> RestoreState {
        match self {
            RestoreStage::Enabling { names } => RestoreState::Enabling {
                names: kscreen::texts(names@),
            },
            RestoreStage::Verifying { names } => RestoreState::Verifying {
                names: kscreen::texts(names@),
            },
            RestoreStage::Retrying { names, missing } => RestoreState::Retrying {
                names: kscreen::texts(names@),
                missing: kscreen::texts(missing@),
            },
            RestoreStage::Rechecking { names } => RestoreState::Rechecking {
                names: kscreen::texts(names@),
            },
            RestoreStage::Restored { restored, stuck } => RestoreState::Restored {
                restored: kscreen::texts(restored@),
                stuck: kscreen::texts(stuck@),
            },
        }
    }
}

/// Verified restore: enable, settle, verify, retry once.
///
/// A bounced enable is not cosmetic: it leaves the machine headless and
/// plasmashell falls to its placeholder screen, NEVER re-latching onto later
/// outputs.
pub struct RestoreFlow {
    stage: RestoreStage,
}

impl RestoreFlow {
    pub closed spec fn view(&self) -> RestoreState {
        self.stage@
    }

    /// The step to take next.
    pub fn action(&self) -> (action: RestoreAction)
        ensures
            is_restore_action(self@, action),
    {
        match &self.stage {
            RestoreStage::Enabling { names } => RestoreAction::Enable {
                names: copy_names(names),
                after_ms: VERIFY_SETTLE_MS,
            },
            RestoreStage::Verifying { .. } => RestoreAction::ListEnabled,
            RestoreStage::Retrying { missing, .. } => RestoreAction::Enable {
                names: copy_names(missing),
                after_ms: VERIFY_SETTLE_MS,
            },
            RestoreStage::Rechecking { .. } => RestoreAction::ListEnabled,
            RestoreStage::Restored { restored, stuck } => RestoreAction::Done {
                restored: copy_names(restored),
                stuck: copy_names(stuck),
            },
        }
    }

    /// Take note of what became of the step.
    pub fn advance(self, event: RestoreEvent) -> (next: Self)
        ensures
            next@ == next_restore_state(self@, event),
    {
        let stage = match (self.stage, event) {
            (RestoreStage::Enabling { names }, RestoreEvent::Enabled) => RestoreStage::Verifying {
                names,
            },
            (RestoreStage::Verifying { names }, RestoreEvent::Listed(found)) => {
                let missing = select_names(&names, &found, false);
                assert(missing@.len() == kscreen::texts(missing@).len());
                if missing.len() == 0 {
                    let stuck: Vec<String> = Vec::new();
                    assert(kscreen::texts(stuck@) =~= Seq::empty());
                    RestoreStage::Restored { restored: names, stuck }
                } else {
                    RestoreStage::Retrying { names, missing }
                }
            },
            (RestoreStage::Retrying { names, .. }, RestoreEvent::Enabled) =>
                RestoreStage::Rechecking { names },
            (RestoreStage::Rechecking { names }, RestoreEvent::Listed(found)) => {
                RestoreStage::Restored {
                    restored: select_names(&names, &found, true),
                    stuck: select_names(&names, &found, false),
                }
            },
            (stage, _) => stage,
        };
        RestoreFlow { stage }
    }
}

/// A restore runs to its end and leaves nothing out: every output that was
/// to be restored is reported either as restored, and then the last listing
/// shows it enabled, or as stuck, and then it does not.
pub proof fn law_restore_accounts_for_every_output(
    names: Seq<Seq<char>>,
    verified: Vec<String>,
    rechecked: Vec<String>,
    name: Seq<char>,
)
    requires
        names.contains(name),
    ensures
        ({
            let checked = next_restore_state(
                next_restore_state(RestoreState::Enabling { names }, RestoreEvent::Enabled),
                RestoreEvent::Listed(verified),
            );
            let (settled, enabled) = if checked is Retrying {
                (
                    next_restore_state(
                        next_restore_state(checked, RestoreEvent::Enabled),
                        RestoreEvent::Listed(rechecked),
                    ),
                    kscreen::texts(rechecked@),
                )
            } else {
                (checked, kscreen::texts(verified@))
            };
            &&& settled matches RestoreState::Restored { restored, stuck }
            &&& restored.contains(name) == enabled.contains(name)
            &&& stuck.contains(name) == !enabled.contains(name)
        }),
{
    lemma_select(names, kscreen::texts(verified@), false);
    lemma_select(names, kscreen::texts(rechecked@), true);
    lemma_select(names, kscreen::texts(rechecked@), false);
    let missing = select(names, kscreen::texts(verified@), false);
    if missing.len() == 0 {
        assert(!missing.contains(name));
    }
}

// ---------------------------------------------------------------------------
// What is asked for, and what comes of it
// ---------------------------------------------------------------------------

/// Selecting goes name by name, in order: one more name is added at the end
/// exactly if its membership in the other list is the wanted one.
pub proof fn law_selecting_goes_name_by_name(
    names: Seq<Seq<char>>,
    name: Seq<char>,
    others: Seq<Seq<char>>,
    wanted: bool,
)
    ensures
        select(Seq::empty(), others, wanted) == Seq::<Seq<char>>::empty(),
        select(names.push(name), others, wanted) == if others.contains(name) == wanted {
            select(names, others, wanted).push(name)
        } else {
            select(names, others, wanted)
        },
{
    assert(names.push(name).drop_last() =~= names);
}

/// An engage begins by listing what is enabled. Every output of a listing that
/// is not empty is then asked to be disabled, whether it is one or many: just
/// these, in order, after the clients had 750 milliseconds to bind the virtual
/// output. With an empty listing nothing is disabled; what can be recovered is
/// listed instead.
pub proof fn law_engage_disables_every_listed_output(
    found: Vec<String>,
    begin: EngageAction,
    action: EngageAction,
)
    requires
        is_engage_action(EngageState::Listing, begin),
        is_engage_action(
            next_engage_state(EngageState::Listing, EngageEvent::Listed(found)),
            action,
        ),
    ensures
        begin is ListEnabled,
        found@.len() == 0 ==> action is ListRecoverable,
        found@.len() > 0 ==> {
            &&& action matches EngageAction::Disable { before_ms, names, after_ms }
            &&& before_ms == 750
            &&& after_ms == 300
            &&& names@.len() == found@.len()
            &&& forall|i: int| 0 <= i < found@.len() ==> (#[trigger] names@[i])@ == found@[i]@
        },
{
    if found@.len() > 0 {
        let names = action->names;
        assert(kscreen::texts(names@) == kscreen::texts(found@));
        assert(kscreen::texts(names@).len() == names@.len());
        assert(kscreen::texts(found@).len() == found@.len());
        assert forall|i: int| 0 <= i < found@.len() implies (#[trigger] names@[i])@ == found@[i]@ by {
            assert(kscreen::texts(names@)[i] == names@[i]@);
            assert(kscreen::texts(found@)[i] == found@[i]@);
        }
    }
}

/// After the disables the layout is listed again. Where none of the outputs is
/// still enabled, the virtual output is moved to the origin and the guard
/// remembers them all. Else those that are, and only those, are asked to be
/// disabled once more, at once; after another listing the guard remembers the
/// outputs that it does not show, and those alone.
pub proof fn law_engage_retries_what_bounced(
    names: Seq<Seq<char>>,
    verified: Vec<String>,
    rechecked: Vec<String>,
    listing: EngageAction,
    action: EngageAction,
    name: Seq<char>,
)
    requires
        is_engage_action(
            next_engage_state(EngageState::Disabling { names }, EngageEvent::Disabled),
            listing,
        ),
        is_engage_action(
            next_engage_state(
                next_engage_state(EngageState::Disabling { names }, EngageEvent::Disabled),
                EngageEvent::Listed(verified),
            ),
            action,
        ),
    ensures
        listing is ListEnabled,
        ({
            let checked = next_engage_state(
                next_engage_state(EngageState::Disabling { names }, EngageEvent::Disabled),
                EngageEvent::Listed(verified),
            );
            let bounced = exists|k: int|
                0 <= k < names.len() && kscreen::texts(verified@).contains(#[trigger] names[k]);
            &&& !bounced ==> action is Normalize && next_engage_state(
                checked,
                EngageEvent::Normalized,
            ) == (EngageState::Engaged { names })
            &&& bounced ==> {
                let settled = next_engage_state(
                    next_engage_state(
                        next_engage_state(checked, EngageEvent::Disabled),
                        EngageEvent::Listed(rechecked),
                    ),
                    EngageEvent::Normalized,
                );
                &&& action matches EngageAction::Disable { before_ms, names: given, after_ms }
                &&& before_ms == 0
                &&& after_ms == 300
                &&& kscreen::texts(given@) == select(names, kscreen::texts(verified@), true)
                &&& kscreen::texts(given@).contains(name) <==> names.contains(name)
                    && kscreen::texts(verified@).contains(name)
                &&& settled matches EngageState::Engaged { names: kept }
                &&& kept == select(names, kscreen::texts(rechecked@), false)
                &&& kept.contains(name) <==> names.contains(name) && !kscreen::texts(
                    rechecked@,
                ).contains(name)
            }
        }),
{
    let listed = kscreen::texts(verified@);
    let again = select(names, listed, true);
    lemma_select(names, listed, true);
    lemma_select(names, kscreen::texts(rechecked@), false);
    if exists|k: int| 0 <= k < names.len() && listed.contains(#[trigger] names[k]) {
        let k = choose|k: int| 0 <= k < names.len() && listed.contains(#[trigger] names[k]);
        assert(names.contains(names[k]));
        assert(again.contains(names[k]));
        assert(again.len() > 0);
    } else if again.len() > 0 {
        assert(again.contains(again[0]));
        let k = choose|k: int| 0 <= k < names.len() && names[k] == again[0];
        assert(listed.contains(names[k]));
    }
}

/// An engage that found nothing enabled adopts what was listed as
/// recoverable, disables nothing, and is done.
pub proof fn law_engage_adopts_a_headless_layout(adopted: Vec<String>, action: EngageAction)
    requires
        is_engage_action(
            next_engage_state(EngageState::Adopting, EngageEvent::Listed(adopted)),
            action,
        ),
    ensures
        action is Done,
        next_engage_state(EngageState::Adopting, EngageEvent::Listed(adopted)) matches
            EngageState::Engaged { names } && names.len() == adopted@.len() && forall|i: int|
            0 <= i < names.len() ==> #[trigger] names[i] == adopted@[i]@,
{
}

/// A restore asks every output to be enabled, then, 300 milliseconds later,
/// lists. Where one of them is missing, those that are, and only those, are
/// asked to be enabled once more; else it is done, and all of them came back.
pub proof fn law_restore_retries_what_is_missing(
    names: Seq<Seq<char>>,
    verified: Vec<String>,
    first: RestoreAction,
    listing: RestoreAction,
    second: RestoreAction,
    name: Seq<char>,
)
    requires
        is_restore_action(RestoreState::Enabling { names }, first),
        is_restore_action(
            next_restore_state(RestoreState::Enabling { names }, RestoreEvent::Enabled),
            listing,
        ),
        is_restore_action(
            next_restore_state(
                next_restore_state(RestoreState::Enabling { names }, RestoreEvent::Enabled),
                RestoreEvent::Listed(verified),
            ),
            second,
        ),
    ensures
        first matches RestoreAction::Enable { names: given, after_ms } && after_ms == 300
            && kscreen::texts(given@) == names,
        listing is ListEnabled,
        ({
            let missing = exists|k: int|
                0 <= k < names.len() && !kscreen::texts(verified@).contains(#[trigger] names[k]);
            &&& missing ==> {
                &&& second matches RestoreAction::Enable { names: given, after_ms }
                &&& after_ms == 300
                &&& kscreen::texts(given@) == select(names, kscreen::texts(verified@), false)
                &&& kscreen::texts(given@).contains(name) <==> names.contains(name)
                    && !kscreen::texts(verified@).contains(name)
            }
            &&& !missing ==> {
                &&& second matches RestoreAction::Done { restored, stuck }
                &&& kscreen::texts(restored@) == names
                &&& stuck@.len() == 0
            }
        }),
{
    let listed = kscreen::texts(verified@);
    let again = select(names, listed, false);
    lemma_select(names, listed, false);
    if exists|k: int| 0 <= k < names.len() && !listed.contains(#[trigger] names[k]) {
        let k = choose|k: int| 0 <= k < names.len() && !listed.contains(#[trigger] names[k]);
        assert(names.contains(names[k]));
        assert(again.contains(names[k]));
        assert(again.len() > 0);
    } else {
        if again.len() > 0 {
            assert(again.contains(again[0]));
            let k = choose|k: int| 0 <= k < names.len() && names[k] == again[0];
            assert(!listed.contains(names[k]));
        }
        let stuck = second->stuck;
        assert(kscreen::texts(stuck@).len() == stuck@.len());
    }
}

/// After the second try a restore lists once more and is done: it reports, in
/// order, the outputs that the listing shows as restored and the others as
/// stuck.
pub proof fn law_restore_ends_with_the_second_listing(
    names: Seq<Seq<char>>,
    missing: Seq<Seq<char>>,
    rechecked: Vec<String>,
    listing: RestoreAction,
    last: RestoreAction,
)
    requires
        is_restore_action(
            next_restore_state(RestoreState::Retrying { names, missing }, RestoreEvent::Enabled),
            listing,
        ),
        is_restore_action(
            next_restore_state(
                next_restore_state(
                    RestoreState::Retrying { names, missing },
                    RestoreEvent::Enabled,
                ),
                RestoreEvent::Listed(rechecked),
            ),
            last,
        ),
    ensures
        listing is ListEnabled,
        last matches RestoreAction::Done { restored, stuck } && kscreen::texts(restored@) == select(
            names,
            kscreen::texts(rechecked@),
            true,
        ) && kscreen::texts(stuck@) == select(names, kscreen::texts(rechecked@), false),
{
}

/// An event that does not answer the step at hand leaves an engage and a
/// restore where they are.
pub proof fn law_flows_ignore_events_out_of_turn(
    engage: EngageState,
    engage_event: EngageEvent,
    engage_action: EngageAction,
    restore: RestoreState,
    restore_event: RestoreEvent,
    restore_action: RestoreAction,
)
    requires
        is_engage_action(engage, engage_action),
        is_restore_action(restore, restore_action),
    ensures
        match engage_action {
            EngageAction::ListEnabled | EngageAction::ListRecoverable => !(engage_event is Listed),
            EngageAction::Disable { .. } => !(engage_event is Disabled),
            EngageAction::Normalize => !(engage_event is Normalized),
            EngageAction::Done => true,
        } ==> next_engage_state(engage, engage_event) == engage,
        match restore_action {
            RestoreAction::Enable { .. } => !(restore_event is Enabled),
            RestoreAction::ListEnabled => !(restore_event is Listed),
            RestoreAction::Done { .. } => true,
        } ==> next_restore_state(restore, restore_event) == restore,
{
}

/// The other steps of an engage: what can be recovered is listed where nothing
/// was enabled, the layout is listed after a second round of disables, the
/// virtual output is moved to the origin before the guard is engaged, and then
/// there is nothing left to do.
pub proof fn law_engage_steps(
    names: Seq<Seq<char>>,
    bounced: Seq<Seq<char>>,
    adopting: EngageAction,
    rechecking: EngageAction,
    normalizing: EngageAction,
    engaged: EngageAction,
)
    requires
        is_engage_action(EngageState::Adopting, adopting),
        is_engage_action(
            next_engage_state(EngageState::Retrying { names, bounced }, EngageEvent::Disabled),
            rechecking,
        ),
        is_engage_action(EngageState::Normalizing { names }, normalizing),
        is_engage_action(
            next_engage_state(EngageState::Normalizing { names }, EngageEvent::Normalized),
            engaged,
        ),
    ensures
        adopting is ListRecoverable,
        rechecking is ListEnabled,
        normalizing is Normalize,
        engaged is Done,
        next_engage_state(EngageState::Normalizing { names }, EngageEvent::Normalized) == (
        EngageState::Engaged { names }),
{
}

} // verus!
