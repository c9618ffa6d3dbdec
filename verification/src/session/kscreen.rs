//! `kscreen-doctor`: what its output report says, and the commands that
//! change the layout.
//!
//! A report is a sequence of blocks:
//!
//! ```text
//! Output: 1 Virtual-1
//!     enabled
//!     connected
//!     priority 1
//!     Geometry: 0,0 1920x1080
//! ```
//!
//! A block opens with an "Output: N \<name\>" line. The tool colorizes its
//! report unconditionally, so control sequences are stripped before any line
//! is looked at.

use vstd::prelude::*;

use super::text;

verus! {

// ---------------------------------------------------------------------------
// Reports
// ---------------------------------------------------------------------------

/// One output's entry in a report: what follows "Output: " in its title
/// line, and the lines up to the next title.
pub struct Block {
    pub title: Seq<char>,
    pub body: Seq<Seq<char>>,
}

/// The lines of a report, control sequences and outer white space removed.
pub open spec fn report_lines(report: Seq<char>) -> Seq<Seq<char>> {
    text::trimmed_lines(text::stripped(report))
}

/// The blocks that a sequence of lines makes up. Lines before the first
/// title belong to none.
pub open spec fn blocks(lines: Seq<Seq<char>>) -> Seq<Block>
    decreases lines.len(),
{
    if lines.len() == 0 {
        Seq::empty()
    } else {
        let so_far = blocks(lines.drop_last());
        let line = lines.last();
        match text::after_prefix(line, "Output: "@) {
            Some(title) => so_far.push(Block { title, body: Seq::empty() }),
            None => if so_far.len() == 0 {
                so_far
            } else {
                let open = so_far.last();
                so_far.drop_last().push(Block { title: open.title, body: open.body.push(line) })
            },
        }
    }
}

/// The connector name in a title: the token after the index. Newer
/// compositors append the output's UUID, which is no part of the name.
pub open spec fn title_name(title: Seq<char>) -> Option<Seq<char>> {
    match text::after_char(title, ' ') {
        Some(rest) => Some(text::before_char(rest, ' ')),
        None => None,
    }
}

/// Whether the last of the lines "enabled" and "disabled" is "enabled".
pub open spec fn is_enabled(body: Seq<Seq<char>>) -> bool
    decreases body.len(),
{
    if body.len() == 0 {
        false
    } else if body.last() == "enabled"@ {
        true
    } else if body.last() == "disabled"@ {
        false
    } else {
        is_enabled(body.drop_last())
    }
}

/// Whether the block has the line "connected".
pub open spec fn is_connected(body: Seq<Seq<char>>) -> bool {
    body.contains("connected"@)
}

/// Whether the block counts as a physical output to manage: enabled, or,
/// where disabled outputs are wanted too, connected; and not named
/// `exclude`.
pub open spec fn is_listed(block: Block, exclude: Seq<char>, include_disabled: bool) -> bool {
    &&& title_name(block.title) is Some
    &&& title_name(block.title) != Some(exclude)
    &&& is_enabled(block.body) || (include_disabled && is_connected(block.body))
}

/// The names of the listed blocks, in order.
pub open spec fn listed_names(
    entries: Seq<Block>,
    exclude: Seq<char>,
    include_disabled: bool,
) -> Seq<Seq<char>>
    decreases entries.len(),
{
    if entries.len() == 0 {
        Seq::empty()
    } else {
        let so_far = listed_names(entries.drop_last(), exclude, include_disabled);
        if is_listed(entries.last(), exclude, include_disabled) {
            so_far.push(title_name(entries.last().title)->0)
        } else {
            so_far
        }
    }
}

/// The enabled physical outputs of a report, or with `include_disabled` also
/// those that are connected but disabled, other than `exclude`.
pub open spec fn physical_outputs(
    report: Seq<char>,
    exclude: Seq<char>,
    include_disabled: bool,
) -> Seq<Seq<char>> {
    listed_names(blocks(report_lines(report)), exclude, include_disabled)
}

/// The contents of a list of strings.
pub open spec fn texts(strings: Seq<String>) -> Seq<Seq<char>> {
    strings.map_values(|s: String| s@)
}

pub proof fn lemma_texts_push(strings: Seq<String>, s: String)
    ensures
        texts(strings.push(s)) == texts(strings).push(s@),
{
    assert(texts(strings.push(s)) =~= texts(strings).push(s@));
}

/// The connector name in a title.
fn read_name(title: &[char]) -> (name: Option<String>)
    ensures
        match name {
            Some(name) => title_name(title@) == Some(name@),
            None => title_name(title@) is None,
        },
{
    let (_, rest) = text::split_at_char(title, ' ');
    match rest {
        Some(rest) => {
            let (token, _) = text::split_at_char(rest, ' ');
            Some(text::string_of(token))
        },
        None => None,
    }
}

/// Whether two strings hold the same text.
fn same_text(a: &str, b: &str) -> (same: bool)
    ensures
        same == (a@ == b@),
{
    text::spells(text::chars_of(a).as_slice(), b)
}

/// The lines of a report.
fn read_lines(report: &str) -> (lines: Vec<Vec<char>>)
    ensures
        lines@.map_values(|line: Vec<char>| line@) == report_lines(report@),
{
    let plain = text::strip_sequences(text::chars_of(report).as_slice());
    text::read_trimmed_lines(plain.as_slice())
}

/// What a scan over the lines of a report holds of the block it is in.
struct Entry {
    name: Option<String>,
    enabled: bool,
    connected: bool,
}

impl Entry {
    spec fn describes(self, block: Block) -> bool {
        &&& match self.name {
            Some(name) => title_name(block.title) == Some(name@),
            None => title_name(block.title) is None,
        }
        &&& self.enabled == is_enabled(block.body)
        &&& self.connected == is_connected(block.body)
    }

    /// Append the name of a finished block, if it is listed.
    fn flush(self, names: &mut Vec<String>, exclude: &str, include_disabled: bool, block: Ghost<
        Block,
    >)
        requires
            self.describes(block@),
        ensures
            texts(final(names)@) == if is_listed(block@, exclude@, include_disabled) {
                texts(old(names)@).push(title_name(block@.title)->0)
            } else {
                texts(old(names)@)
            },
    {
        // Enabled always qualifies; disabled only in the recoverable variant
        // and only when the connector is still connected (an absent display
        // can't be re-enabled into anything useful).
        if self.enabled || (include_disabled && self.connected) {
            if let Some(name) = self.name {
                if !same_text(name.as_str(), exclude) {
                    proof {
                        lemma_texts_push(names@, name);
                    }
                    names.push(name);
                }
            }
        }
    }
}

fn parse_physical_outputs(report: &str, exclude: &str, include_disabled: bool) -> (names: Vec<
    String,
>)
    ensures
        texts(names@) == physical_outputs(report@, exclude@, include_disabled),
{
    let lines = read_lines(report);
    let ghost all = lines@.map_values(|line: Vec<char>| line@);
    let mut names: Vec<String> = Vec::new();
    let mut current: Option<Entry> = None;
    assert(texts(names@) =~= Seq::empty());
    for i in 0..lines.len()
        invariant
            all == lines@.map_values(|line: Vec<char>| line@),
            match current {
                Some(entry) => {
                    let seen = blocks(all.take(i as int));
                    &&& seen.len() > 0
                    &&& entry.describes(seen.last())
                    &&& texts(names@) == listed_names(seen.drop_last(), exclude@, include_disabled)
                },
                None => blocks(all.take(i as int)).len() == 0 && texts(names@).len() == 0,
            },
    {
        let ghost before = blocks(all.take(i as int));
        let ghost after = blocks(all.take(i + 1));
        let line = lines[i].as_slice();
        assert(all.take(i + 1).drop_last() =~= all.take(i as int));
        assert(all.take(i + 1).last() == line@);
        match text::strip_prefix(line, "Output: ") {
            Some(title) => {
                let finished = current.take();
                if let Some(entry) = finished {
                    entry.flush(&mut names, exclude, include_disabled, Ghost(before.last()));
                }
                assert(after.drop_last() =~= before);
                current = Some(
                    Entry { name: read_name(title), enabled: false, connected: false },
                );
            },
            None => {
                let open = current.take();
                if let Some(entry) = open {
                    let mut entry = entry;
                    proof {
                        let body = before.last().body;
                        let grown = after.last().body;
                        assert(grown == body.push(line@));
                        assert(grown.drop_last() =~= body);
                        assert(grown.last() == line@);
                        if body.contains("connected"@) {
                            let k = choose|k: int| 0 <= k < body.len() && body[k] == "connected"@;
                            assert(grown[k] == "connected"@);
                        }
                        if line@ == "connected"@ {
                            assert(grown[body.len() as int] == "connected"@);
                        }
                        assert(grown.contains("connected"@) <==> body.contains("connected"@)
                            || line@ == "connected"@);
                        assert(after.drop_last() =~= before.drop_last());
                        lemma_words_differ();
                    }
                    if text::spells(line, "enabled") {
                        entry.enabled = true;
                    } else if text::spells(line, "disabled") {
                        entry.enabled = false;
                    } else if text::spells(line, "connected") {
                        entry.connected = true;
                    }
                    current = Some(entry);
                }
            },
        }
    }
    assert(all.take(lines@.len() as int) =~= all);
    if let Some(entry) = current {
        entry.flush(&mut names, exclude, include_disabled, Ghost(blocks(all).last()));
    }
    names
}

/// The state words of a report are different words.
proof fn lemma_words_differ()
    ensures
        "enabled"@ != "connected"@,
        "disabled"@ != "connected"@,
        "enabled"@ != "disabled"@,
{
    reveal_strlit("enabled");
    reveal_strlit("disabled");
    reveal_strlit("connected");
    assert("enabled"@.len() == 7);
    assert("disabled"@.len() == 8);
    assert("connected"@.len() == 9);
}

/// Given `kscreen-doctor -o` text, return enabled output names excluding
/// `exclude_kscreen_name` (our own virtual output's full kscreen connector
/// name), in order.
///
/// The exclusion is EXACT-match: a DRM virtual connector (e.g. Hyper-V's
/// `Virtual-1`) is itself a physical output the layout guard must manage, so
/// the match may never be a `"Virtual-"` prefix.
pub fn parse_enabled_physical_outputs(kscreen_text: &str, exclude_kscreen_name: &str) -> (names:
    Vec<String>)
    ensures
        texts(names@) == physical_outputs(kscreen_text@, exclude_kscreen_name@, false),
{
    parse_physical_outputs(kscreen_text, exclude_kscreen_name, false)
}

/// Enabled AND connected-but-disabled physical outputs. Used by the layout
/// guard when it engages an already-headless layout: adopting the disabled
/// physical outputs lets them be re-enabled at release.
pub fn parse_recoverable_physical_outputs(kscreen_text: &str, exclude_kscreen_name: &str) -> (names:
    Vec<String>)
    ensures
        texts(names@) == physical_outputs(kscreen_text@, exclude_kscreen_name@, true),
{
    parse_physical_outputs(kscreen_text, exclude_kscreen_name, true)
}

// ---------------------------------------------------------------------------
// Geometries
// ---------------------------------------------------------------------------

/// A single output's kscreen geometry: position + mode size, and whether
/// kscreen reports it enabled.
#[derive(Debug, Clone, PartialEq, Eq)]
pub struct OutputGeometry {
    /// Connector name (first token after the index; newer compositors append
    /// a UUID which is NOT part of the name).
    pub name: String,
    /// Enabled per kscreen.
    pub enabled: bool,
    /// Output position in the compositor's global layout space.
    pub x: i32,
    pub y: i32,
    /// Mode size in pixels.
    pub width: i32,
    pub height: i32,
}

/// The numbers on either side of the first `separator`; zeros where there is
/// no separator, zero for a side that spells no number.
pub open spec fn number_pair(token: Seq<char>, separator: char) -> (int, int) {
    match text::after_char(token, separator) {
        Some(second) => (
            text::signed_or_zero(text::before_char(token, separator)),
            text::signed_or_zero(second),
        ),
        None => (0, 0),
    }
}

/// What follows "Geometry: " in the last geometry line of a block; nothing
/// if it has none.
pub open spec fn geometry_text(body: Seq<Seq<char>>) -> Seq<char>
    decreases body.len(),
{
    if body.len() == 0 {
        Seq::empty()
    } else {
        match text::after_prefix(body.last(), "Geometry: "@) {
            Some(rest) => rest,
            None => geometry_text(body.drop_last()),
        }
    }
}

/// The position that a geometry line such as `1920,0 1366x768` gives.
pub open spec fn position_in(geometry: Seq<char>) -> (int, int) {
    number_pair(text::first_token(geometry), ',')
}

/// The size that a geometry line such as `1920,0 1366x768` gives.
pub open spec fn size_in(geometry: Seq<char>) -> (int, int) {
    number_pair(text::second_token(geometry), 'x')
}

impl OutputGeometry {
    /// `self` is what `block` says of its output.
    pub open spec fn describes(self, block: Block) -> bool {
        &&& self.name@ == match title_name(block.title) {
            Some(name) => name,
            None => Seq::empty(),
        }
        &&& self.enabled == block.body.contains("enabled"@)
        &&& (self.x as int, self.y as int) == position_in(geometry_text(block.body))
        &&& (self.width as int, self.height as int) == size_in(geometry_text(block.body))
    }
}

/// Entry by entry, what a report says of its outputs.
pub open spec fn describe_all(geometries: Seq<OutputGeometry>, entries: Seq<Block>) -> bool {
    &&& geometries.len() == entries.len()
    &&& forall|i: int| 0 <= i < entries.len() ==> (#[trigger] geometries[i]).describes(entries[i])
}

/// The numbers on either side of the first `separator`.
fn read_pair(token: &[char], separator: char) -> (pair: (i32, i32))
    ensures
        (pair.0 as int, pair.1 as int) == number_pair(token@, separator),
{
    let (first, rest) = text::split_at_char(token, separator);
    match rest {
        Some(second) => (text::read_signed(first), text::read_signed(second)),
        None => (0, 0),
    }
}

/// The geometry of an output of which only the title was read.
fn untold_geometry(title: &[char]) -> (geometry: OutputGeometry)
    ensures
        geometry.describes((Block { title: title@, body: Seq::empty() })),
{
    let name = match read_name(title) {
        Some(name) => name,
        None => String::new(),
    };
    proof {
        lemma_no_geometry();
    }
    OutputGeometry { name, enabled: false, x: 0, y: 0, width: 0, height: 0 }
}

proof fn lemma_no_geometry()
    ensures
        position_in(Seq::empty()) == (0int, 0int),
        size_in(Seq::empty()) == (0int, 0int),
{
    let none = Seq::<char>::empty();
    assert(text::first_token(none) =~= none);
    assert(text::second_token(none) =~= none);
}

/// Extract every output's geometry from `kscreen-doctor -o` text
/// (ANSI-stripped first). Blocks look like:
///
/// ```text
/// Output: 1 Virtual-lamco be96cb63-...
///     enabled
///     connected
///     ...
///     Geometry: 1920,0 1366x768
/// ```
///
/// Outputs without a Geometry line keep a zeroed geometry (they stay listed;
/// callers match by name and never mistake them for ours).
pub fn parse_output_geometries(kscreen_text: &str) -> (geometries: Vec<OutputGeometry>)
    ensures
        describe_all(geometries@, blocks(report_lines(kscreen_text@))),
        geometries@.len() == blocks(report_lines(kscreen_text@)).len(),
        forall|i: int|
            0 <= i < geometries@.len() ==> (#[trigger] geometries@[i]).describes(
                blocks(report_lines(kscreen_text@))[i],
            ),
{
    let lines = read_lines(kscreen_text);
    let ghost all = lines@.map_values(|line: Vec<char>| line@);
    let mut result: Vec<OutputGeometry> = Vec::new();
    let mut current: Option<OutputGeometry> = None;
    for i in 0..lines.len()
        invariant
            all == lines@.map_values(|line: Vec<char>| line@),
            match current {
                Some(geometry) => {
                    let seen = blocks(all.take(i as int));
                    &&& seen.len() > 0
                    &&& geometry.describes(seen.last())
                    &&& describe_all(result@, seen.drop_last())
                },
                None => blocks(all.take(i as int)).len() == 0 && result@.len() == 0,
            },
    {
        let ghost before = blocks(all.take(i as int));
        let ghost after = blocks(all.take(i + 1));
        let line = lines[i].as_slice();
        assert(all.take(i + 1).drop_last() =~= all.take(i as int));
        assert(all.take(i + 1).last() == line@);
        match text::strip_prefix(line, "Output: ") {
            Some(title) => {
                let finished = current.take();
                if let Some(geometry) = finished {
                    result.push(geometry);
                }
                assert(after.drop_last() =~= before);
                assert(describe_all(result@, before));
                current = Some(untold_geometry(title));
            },
            None => {
                let open = current.take();
                if let Some(geometry) = open {
                    let mut geometry = geometry;
                    let ghost body = before.last().body;
                    let ghost grown = after.last().body;
                    proof {
                        assert(grown == body.push(line@));
                        assert(grown.drop_last() =~= body);
                        assert(grown.last() == line@);
                        if body.contains("enabled"@) {
                            let k = choose|k: int| 0 <= k < body.len() && body[k] == "enabled"@;
                            assert(grown[k] == "enabled"@);
                        }
                        if line@ == "enabled"@ {
                            assert(grown[body.len() as int] == "enabled"@);
                        }
                        assert(grown.contains("enabled"@) <==> body.contains("enabled"@) || line@
                            == "enabled"@);
                        assert(after.drop_last() =~= before.drop_last());
                        lemma_enabled_is_no_geometry();
                    }
                    if text::spells(line, "enabled") {
                        geometry.enabled = true;
                    } else {
                        match text::strip_prefix(line, "Geometry: ") {
                            Some(rest) => {
                                let (position, size) = text::first_two_tokens(rest);
                                let (x, y) = read_pair(position, ',');
                                let (width, height) = read_pair(size, 'x');
                                geometry.x = x;
                                geometry.y = y;
                                geometry.width = width;
                                geometry.height = height;
                            },
                            None => {},
                        }
                    }
                    current = Some(geometry);
                }
            },
        }
    }
    assert(all.take(lines@.len() as int) =~= all);
    if let Some(geometry) = current {
        result.push(geometry);
    }
    result
}

proof fn lemma_enabled_is_no_geometry()
    ensures
        text::after_prefix("enabled"@, "Geometry: "@) is None,
{
    reveal_strlit("enabled");
    reveal_strlit("Geometry: ");
    assert("enabled"@.len() < "Geometry: "@.len());
}

/// The first output named `name` that is enabled.
pub open spec fn find_enabled(geometries: Seq<OutputGeometry>, name: Seq<char>) -> Option<
    OutputGeometry,
>
    decreases geometries.len(),
{
    if geometries.len() == 0 {
        None
    } else if geometries[0].name@ == name && geometries[0].enabled {
        Some(geometries[0])
    } else {
        find_enabled(geometries.skip(1), name)
    }
}

/// The position of the first output named `name` that is enabled, if there
/// is one.
pub fn enabled_position(geometries: &[OutputGeometry], name: &str) -> (position: Option<(i32, i32)>)
    ensures
        position == match find_enabled(geometries@, name@) {
            Some(found) => Some((found.x, found.y)),
            None => None,
        },
        match position {
            Some(at) => exists|i: int|
                #![trigger geometries@[i]]
                0 <= i < geometries@.len() && geometries@[i].name@ == name@ && geometries@[i].enabled
                    && at == (geometries@[i].x, geometries@[i].y) && forall|j: int|
                    0 <= j < i ==> !((#[trigger] geometries@[j]).name@ == name@
                        && geometries@[j].enabled),
            None => forall|j: int|
                0 <= j < geometries@.len() ==> !((#[trigger] geometries@[j]).name@ == name@
                    && geometries@[j].enabled),
        },
{
    assert(geometries@.skip(0) =~= geometries@);
    for i in 0..geometries.len()
        invariant
            find_enabled(geometries@.skip(i as int), name@) == find_enabled(geometries@, name@),
            forall|j: int|
                0 <= j < i ==> !((#[trigger] geometries@[j]).name@ == name@
                    && geometries@[j].enabled),
    {
        let geometry = &geometries[i];
        assert(geometries@.skip(i as int)[0] == geometry);
        assert(geometries@.skip(i as int).skip(1) =~= geometries@.skip(i + 1));
        if geometry.enabled && same_text(geometry.name.as_str(), name) {
            assert(geometries@[i as int].enabled);
            return Some((geometry.x, geometry.y));
        }
    }
    None
}

// ---------------------------------------------------------------------------
// What holds of every report
// ---------------------------------------------------------------------------

proof fn lemma_listed_names(entries: Seq<Block>, exclude: Seq<char>, include_disabled: bool)
    ensures
        forall|name: Seq<char>| #[trigger]
            listed_names(entries, exclude, include_disabled).contains(name) <==> exists|i: int|
                0 <= i < entries.len() && is_listed(
                    #[trigger] entries[i],
                    exclude,
                    include_disabled,
                ) && title_name(entries[i].title) == Some(name),
    decreases entries.len(),
{
    let names = listed_names(entries, exclude, include_disabled);
    if entries.len() > 0 {
        let front = entries.drop_last();
        let last = entries.last();
        let so_far = listed_names(front, exclude, include_disabled);
        lemma_listed_names(front, exclude, include_disabled);
        assert forall|name: Seq<char>| #[trigger] names.contains(name) <==> exists|i: int|
            0 <= i < entries.len() && is_listed(#[trigger] entries[i], exclude, include_disabled)
                && title_name(entries[i].title) == Some(name) by {
            if names.contains(name) {
                let k = choose|k: int| 0 <= k < names.len() && names[k] == name;
                if k < so_far.len() {
                    assert(so_far.contains(name)) by {
                        assert(so_far[k] == name);
                    }
                    let i = choose|i: int|
                        0 <= i < front.len() && is_listed(
                            #[trigger] front[i],
                            exclude,
                            include_disabled,
                        ) && title_name(front[i].title) == Some(name);
                    assert(entries[i] == front[i]);
                } else {
                    assert(entries[entries.len() - 1] == last);
                }
            }
            if exists|i: int|
                0 <= i < entries.len() && is_listed(
                    #[trigger] entries[i],
                    exclude,
                    include_disabled,
                ) && title_name(entries[i].title) == Some(name) {
                let i = choose|i: int|
                    0 <= i < entries.len() && is_listed(
                        #[trigger] entries[i],
                        exclude,
                        include_disabled,
                    ) && title_name(entries[i].title) == Some(name);
                if i < front.len() {
                    assert(front[i] == entries[i]);
                    assert(so_far.contains(name));
                    let k = choose|k: int| 0 <= k < so_far.len() && so_far[k] == name;
                    assert(names[k] == name);
                } else {
                    assert(names[names.len() - 1] == name);
                }
            }
        }
    }
}

/// A name is listed exactly if it names a block of the report that
/// qualifies: one that is enabled, or also one that is connected where
/// disabled outputs are wanted. The excluded name never is.
pub proof fn law_listed_outputs(
    report: Seq<char>,
    exclude: Seq<char>,
    include_disabled: bool,
    name: Seq<char>,
)
    ensures
        physical_outputs(report, exclude, include_disabled).contains(name) <==> name != exclude
            && exists|i: int|
            0 <= i < blocks(report_lines(report)).len() && title_name(
                (#[trigger] blocks(report_lines(report))[i]).title,
            ) == Some(name) && (is_enabled(blocks(report_lines(report))[i].body) || (
            include_disabled && is_connected(blocks(report_lines(report))[i].body))),
{
    let entries = blocks(report_lines(report));
    lemma_listed_names(entries, exclude, include_disabled);
    let names = listed_names(entries, exclude, include_disabled);
    if names.contains(name) {
        let i = choose|i: int|
            0 <= i < entries.len() && is_listed(#[trigger] entries[i], exclude, include_disabled)
                && title_name(entries[i].title) == Some(name);
        assert(title_name(entries[i].title) == Some(name));
    }
    if name != exclude && exists|i: int|
        0 <= i < entries.len() && title_name((#[trigger] entries[i]).title) == Some(name) && (
        is_enabled(entries[i].body) || (include_disabled && is_connected(entries[i].body))) {
        let i = choose|i: int|
            0 <= i < entries.len() && title_name((#[trigger] entries[i]).title) == Some(name) && (
            is_enabled(entries[i].body) || (include_disabled && is_connected(entries[i].body)));
        assert(is_listed(entries[i], exclude, include_disabled));
    }
}

/// Our own virtual output is never listed, so never disabled or adopted.
pub proof fn law_own_output_is_never_listed(
    report: Seq<char>,
    exclude: Seq<char>,
    include_disabled: bool,
)
    ensures
        !physical_outputs(report, exclude, include_disabled).contains(exclude),
{
    law_listed_outputs(report, exclude, include_disabled, exclude);
}

/// `part` is what is left of `whole` when some entries are struck out: the
/// order is kept.
pub open spec fn is_subsequence(part: Seq<Seq<char>>, whole: Seq<Seq<char>>) -> bool
    decreases whole.len(),
{
    if whole.len() == 0 {
        part.len() == 0
    } else {
        ||| is_subsequence(part, whole.drop_last())
        ||| part.len() > 0 && part.last() == whole.last() && is_subsequence(
            part.drop_last(),
            whole.drop_last(),
        )
    }
}

/// Every enabled output is also a recoverable one, and the two lists have
/// their outputs in the same order.
pub proof fn law_enabled_outputs_are_recoverable(report: Seq<char>, exclude: Seq<char>)
    ensures
        is_subsequence(
            physical_outputs(report, exclude, false),
            physical_outputs(report, exclude, true),
        ),
        forall|name: Seq<char>| #[trigger]
            physical_outputs(report, exclude, false).contains(name) ==> physical_outputs(
                report,
                exclude,
                true,
            ).contains(name),
{
    lemma_enabled_is_subsequence(blocks(report_lines(report)), exclude);
    assert forall|name: Seq<char>| #[trigger]
        physical_outputs(report, exclude, false).contains(name) implies physical_outputs(
        report,
        exclude,
        true,
    ).contains(name) by {
        law_listed_outputs(report, exclude, false, name);
        law_listed_outputs(report, exclude, true, name);
    }
}

proof fn lemma_enabled_is_subsequence(entries: Seq<Block>, exclude: Seq<char>)
    ensures
        is_subsequence(
            listed_names(entries, exclude, false),
            listed_names(entries, exclude, true),
        ),
    decreases entries.len(),
{
    if entries.len() > 0 {
        let front = entries.drop_last();
        let part = listed_names(front, exclude, false);
        let whole = listed_names(front, exclude, true);
        lemma_enabled_is_subsequence(front, exclude);
        if is_listed(entries.last(), exclude, true) {
            let name = title_name(entries.last().title)->0;
            assert(whole.push(name).drop_last() =~= whole);
            assert(part.push(name).drop_last() =~= part);
        }
    }
}

/// Control sequences make no difference: a report reads as it does once they
/// are stripped.
pub proof fn law_colors_do_not_matter(report: Seq<char>, exclude: Seq<char>, include_disabled: bool)
    ensures
        blocks(report_lines(text::stripped(report))) == blocks(report_lines(report)),
        physical_outputs(text::stripped(report), exclude, include_disabled) == physical_outputs(
            report,
            exclude,
            include_disabled,
        ),
{
    text::law_stripping_is_idempotent(report);
}

/// An output without a geometry line stays listed, with a zeroed geometry.
pub proof fn law_missing_geometry_reads_as_zero(geometry: OutputGeometry, block: Block)
    requires
        geometry.describes(block),
        forall|i: int|
            0 <= i < block.body.len() ==> text::after_prefix(
                #[trigger] block.body[i],
                "Geometry: "@,
            ) is None,
    ensures
        geometry.x == 0,
        geometry.y == 0,
        geometry.width == 0,
        geometry.height == 0,
{
    lemma_no_geometry_line(block.body);
    lemma_no_geometry();
}

proof fn lemma_no_geometry_line(body: Seq<Seq<char>>)
    requires
        forall|i: int|
            0 <= i < body.len() ==> text::after_prefix(#[trigger] body[i], "Geometry: "@) is None,
    ensures
        geometry_text(body) == Seq::<char>::empty(),
    decreases body.len(),
{
    if body.len() > 0 {
        let front = body.drop_last();
        assert forall|i: int| 0 <= i < front.len() implies text::after_prefix(
            #[trigger] front[i],
            "Geometry: "@,
        ) is None by {
            assert(front[i] == body[i]);
        }
        lemma_no_geometry_line(front);
        assert(body[body.len() - 1] == body.last());
    }
}

/// The connector name is the token after the index; whatever follows it,
/// such as the UUID that newer compositors append, is no part of it.
pub proof fn law_name_is_the_token_after_the_index(
    index: Seq<char>,
    name: Seq<char>,
    metadata: Seq<char>,
)
    requires
        !index.contains(' '),
        !name.contains(' '),
    ensures
        title_name(index + seq![' '] + name) == Some(name),
        title_name(index + seq![' '] + name + seq![' '] + metadata) == Some(name),
{
    text::lemma_cut(index, ' ', name);
    text::lemma_no_cut(name, ' ');
    let rest = name + seq![' '] + metadata;
    text::lemma_cut(index, ' ', rest);
    text::lemma_cut(name, ' ', metadata);
    assert(index + seq![' '] + name + seq![' '] + metadata =~= index + seq![' '] + rest);
}

// ---------------------------------------------------------------------------
// Commands
// ---------------------------------------------------------------------------

/// How the run of a command that prints a report ended.
pub enum CommandReport {
    /// It ran; `success` tells a zero exit status.
    Finished { success: bool, stdout: Vec<u8> },
    /// It could not be started.
    NotRun,
}

/// The text that a byte string stands for, replacement characters put in
/// for what is no UTF-8.
pub uninterp spec fn lossy_text(bytes: Seq<u8>) -> Seq<char>;

/// `String::from_utf8_lossy`: the result is a function of the bytes alone,
/// and the decoded text itself where they are valid UTF-8. Which invalid
/// bytes give how many replacement characters is left unsaid.
#[verifier::external_body]
fn decode_lossy(bytes: &[u8]) -> (text: String)
    ensures
        text@ == lossy_text(bytes@),
        vstd::utf8::valid_utf8(bytes@) ==> text@ == vstd::utf8::decode_utf8(bytes@),
{
    String::from_utf8_lossy(bytes).into_owned()
}

impl CommandReport {
    /// The report text, if the command succeeded.
    pub open spec fn text(self) -> Option<Seq<char>> {
        match self {
            CommandReport::Finished { success: true, stdout } => Some(lossy_text(stdout@)),
            _ => None,
        }
    }

    /// The report text, if the command succeeded.
    pub fn read(&self) -> (text: Option<String>)
        ensures
            match text {
                Some(text) => self.text() == Some(text@),
                None => self.text() is None,
            },
            match (*self, text) {
                (CommandReport::Finished { success, stdout }, Some(text)) => success && text@
                    == lossy_text(stdout@),
                (CommandReport::Finished { success, .. }, None) => !success,
                (CommandReport::NotRun, text) => text is None,
            },
    {
        match self {
            CommandReport::Finished { success, stdout } => {
                if *success {
                    Some(decode_lossy(stdout.as_slice()))
                } else {
                    None
                }
            },
            CommandReport::NotRun => None,
        }
    }

    /// Names of the ENABLED outputs that are not our virtual one.
    /// Best-effort: empty on any failure.
    pub fn enabled_physical_outputs(&self, exclude_kscreen_name: &str) -> (names: Vec<String>)
        ensures
            texts(names@) == match self.text() {
                Some(text) => physical_outputs(text, exclude_kscreen_name@, false),
                None => Seq::empty(),
            },
    {
        match self.read() {
            Some(text) => parse_enabled_physical_outputs(text.as_str(), exclude_kscreen_name),
            None => {
                let names: Vec<String> = Vec::new();
                assert(texts(names@) =~= Seq::empty());
                names
            },
        }
    }

    /// Like [`enabled_physical_outputs`](Self::enabled_physical_outputs) but
    /// ALSO returns connected-but-disabled outputs.
    pub fn recoverable_physical_outputs(&self, exclude_kscreen_name: &str) -> (names: Vec<String>)
        ensures
            texts(names@) == match self.text() {
                Some(text) => physical_outputs(text, exclude_kscreen_name@, true),
                None => Seq::empty(),
            },
    {
        match self.read() {
            Some(text) => parse_recoverable_physical_outputs(text.as_str(), exclude_kscreen_name),
            None => {
                let names: Vec<String> = Vec::new();
                assert(texts(names@) =~= Seq::empty());
                names
            },
        }
    }

    /// Every output's geometry; empty on any failure.
    pub fn output_geometries(&self) -> (geometries: Vec<OutputGeometry>)
        ensures
            match self.text() {
                Some(text) => describe_all(geometries@, blocks(report_lines(text))),
                None => geometries@.len() == 0,
            },
    {
        match self.read() {
            Some(text) => parse_output_geometries(text.as_str()),
            None => Vec::new(),
        }
    }
}

/// The `kscreen-doctor` argument that enables an output.
pub fn enable_argument(name: &str) -> (argument: String)
    ensures
        argument@ == "output."@ + name@ + ".enable"@,
{
    "output.".to_owned().concat(name).concat(".enable")
}

/// The `kscreen-doctor` argument that disables an output.
pub fn disable_argument(name: &str) -> (argument: String)
    ensures
        argument@ == "output."@ + name@ + ".disable"@,
{
    "output.".to_owned().concat(name).concat(".disable")
}

/// The `kscreen-doctor` argument that moves an output.
pub fn position_argument(name: &str, x: i32, y: i32) -> (argument: String)
    ensures
        argument@ == "output."@ + name@ + ".position."@ + text::decimal(x as int) + ","@
            + text::decimal(y as int),
{
    let column = text::write_signed(x);
    let row = text::write_signed(y);
    "output.".to_owned().concat(name).concat(".position.").concat(column.as_str()).concat(
        ",",
    ).concat(row.as_str())
}

// ---------------------------------------------------------------------------
// What a report means
// ---------------------------------------------------------------------------

/// The contents of a list of strings are those of its strings, one by one.
pub proof fn law_texts(strings: Seq<String>)
    ensures
        texts(strings).len() == strings.len(),
        forall|i: int| 0 <= i < strings.len() ==> #[trigger] texts(strings)[i] == strings[i]@,
{
}

/// A report is read line by line; white space around a line does not count.
pub proof fn law_report_lines(line: Seq<char>, rest: Seq<char>)
    requires
        !line.contains('\n'),
        !line.contains('\u{1b}'),
        !rest.contains('\u{1b}'),
    ensures
        report_lines(line + seq!['\n'] + rest) == seq![text::trimmed(line)] + report_lines(rest),
        line.len() > 0 ==> report_lines(line) == seq![text::trimmed(line)],
        report_lines(Seq::empty()) == Seq::<Seq<char>>::empty(),
{
    let all = line + seq!['\n'] + rest;
    assert(!all.contains('\u{1b}')) by {
        if all.contains('\u{1b}') {
            let k = choose|k: int| 0 <= k < all.len() && all[k] == '\u{1b}';
            if k < line.len() {
                assert(line[k] == '\u{1b}');
            } else if k > line.len() {
                assert(rest[k - line.len() - 1] == '\u{1b}');
            }
        }
    }
    text::law_plain_text_is_kept(all);
    text::law_plain_text_is_kept(line);
    text::law_plain_text_is_kept(rest);
    text::law_plain_text_is_kept(Seq::empty());
    text::law_lines(line, rest);
}

/// A title line opens a block, and the lines up to the next title make up its
/// body. Lines before the first title belong to no block.
pub proof fn law_blocks(lines: Seq<Seq<char>>, title: Seq<char>, body: Seq<Seq<char>>)
    requires
        forall|i: int, rest: Seq<char>|
            0 <= i < body.len() ==> #[trigger] body[i] != #[trigger] ("Output: "@ + rest),
    ensures
        blocks(lines + seq!["Output: "@ + title] + body) == blocks(lines).push(
            Block { title, body },
        ),
        blocks(body) == Seq::<Block>::empty(),
    decreases body.len(),
{
    let opened = lines + seq!["Output: "@ + title];
    let all = opened + body;
    if body.len() == 0 {
        assert(all =~= opened);
        assert(opened.drop_last() =~= lines);
        text::law_prefix("Output: "@, title, Seq::empty());
        assert(body =~= Seq::empty());
        assert(blocks(body) =~= Seq::empty());
    } else {
        let front = body.drop_last();
        let last = body.last();
        assert(body[body.len() - 1] == last);
        assert forall|i: int, rest: Seq<char>| 0 <= i < front.len() implies #[trigger] front[i]
            != #[trigger] ("Output: "@ + rest) by {
            assert(front[i] == body[i]);
        }
        law_blocks(lines, title, front);
        text::law_prefix("Output: "@, Seq::empty(), last);
        assert(text::after_prefix(last, "Output: "@) is None);
        assert(all.drop_last() =~= opened + front);
        assert(all.last() == last);
        let before = blocks(lines).push(Block { title, body: front });
        assert(before.last() == (Block { title, body: front }));
        assert(front.push(last) =~= body);
        assert(before.drop_last().push(Block { title, body }) =~= blocks(lines).push(
            Block { title, body },
        ));
    }
}

/// A block is enabled exactly if it has the line "enabled" and no line
/// "disabled" after it, whatever other lines it has.
pub proof fn law_enabled_blocks(body: Seq<Seq<char>>)
    ensures
        is_enabled(body) <==> exists|i: int|
            0 <= i < body.len() && #[trigger] body[i] == "enabled"@ && forall|j: int|
                i < j < body.len() ==> #[trigger] body[j] != "disabled"@,
    decreases body.len(),
{
    lemma_words_differ();
    if body.len() > 0 {
        let front = body.drop_last();
        let last = body.last();
        assert(body[body.len() - 1] == last);
        law_enabled_blocks(front);
        if last == "enabled"@ {
            assert(body[body.len() - 1] == "enabled"@ && forall|j: int|
                body.len() - 1 < j < body.len() ==> #[trigger] body[j] != "disabled"@);
        } else if last == "disabled"@ {
            assert forall|i: int| 0 <= i < body.len() && #[trigger] body[i] == "enabled"@ implies !(
            forall|j: int| i < j < body.len() ==> #[trigger] body[j] != "disabled"@) by {
                assert(body[body.len() - 1] == "disabled"@);
            }
        } else {
            if is_enabled(front) {
                let i = choose|i: int|
                    0 <= i < front.len() && #[trigger] front[i] == "enabled"@ && forall|j: int|
                        i < j < front.len() ==> #[trigger] front[j] != "disabled"@;
                assert(body[i] == "enabled"@);
                assert forall|j: int| i < j < body.len() implies #[trigger] body[j]
                    != "disabled"@ by {
                    if j < front.len() {
                        assert(front[j] == body[j]);
                    }
                }
            }
            if exists|i: int|
                0 <= i < body.len() && #[trigger] body[i] == "enabled"@ && forall|j: int|
                    i < j < body.len() ==> #[trigger] body[j] != "disabled"@ {
                let i = choose|i: int|
                    0 <= i < body.len() && #[trigger] body[i] == "enabled"@ && forall|j: int|
                        i < j < body.len() ==> #[trigger] body[j] != "disabled"@;
                assert(front[i] == "enabled"@);
                assert forall|j: int| i < j < front.len() implies #[trigger] front[j]
                    != "disabled"@ by {
                    assert(front[j] == body[j]);
                }
            }
        }
    }
}

/// One more block adds its name to the end of the list exactly if it is not
/// the excluded one and the block has the line "enabled" with no "disabled"
/// after it or, where disabled outputs are wanted, the line "connected". It
/// changes nothing else.
pub proof fn law_listing_goes_block_by_block(
    report: Seq<char>,
    longer: Seq<char>,
    index: Seq<char>,
    name: Seq<char>,
    metadata: Seq<char>,
    block: Block,
    exclude: Seq<char>,
    include_disabled: bool,
)
    requires
        !index.contains(' '),
        !name.contains(' '),
        block.title == index + seq![' '] + name || block.title == index + seq![' '] + name + seq![
            ' ',
        ] + metadata,
        blocks(report_lines(longer)) == blocks(report_lines(report)).push(block),
    ensures
        ({
            let enabled = exists|i: int|
                0 <= i < block.body.len() && #[trigger] block.body[i] == "enabled"@ && forall|j: int|
                    i < j < block.body.len() ==> #[trigger] block.body[j] != "disabled"@;
            let connected = exists|i: int|
                0 <= i < block.body.len() && #[trigger] block.body[i] == "connected"@;
            physical_outputs(longer, exclude, include_disabled) == if name != exclude && (enabled
                || (include_disabled && connected)) {
                physical_outputs(report, exclude, include_disabled).push(name)
            } else {
                physical_outputs(report, exclude, include_disabled)
            }
        }),
{
    let entries = blocks(report_lines(longer));
    assert(entries.drop_last() =~= blocks(report_lines(report)));
    assert(entries.last() == block);
    law_enabled_blocks(block.body);
    law_name_is_the_token_after_the_index(index, name, metadata);
    assert(title_name(block.title) == Some(name));
    assert(is_connected(block.body) <==> exists|i: int|
        0 <= i < block.body.len() && #[trigger] block.body[i] == "connected"@);
}

/// A report without blocks lists nothing.
pub proof fn law_empty_report_lists_nothing(
    report: Seq<char>,
    exclude: Seq<char>,
    include_disabled: bool,
)
    requires
        blocks(report_lines(report)).len() == 0,
    ensures
        physical_outputs(report, exclude, include_disabled) == Seq::<Seq<char>>::empty(),
{
}

/// What is said of an output: its name, whether any line says "enabled", and
/// the numbers of its last geometry line, `x,y widthxheight`.
pub proof fn law_geometry_is_what_the_block_says(
    geometry: OutputGeometry,
    block: Block,
    at: int,
    x: i32,
    y: i32,
    width: i32,
    height: i32,
)
    requires
        geometry.describes(block),
        0 <= at < block.body.len(),
        block.body[at] == "Geometry: "@ + (text::decimal(x as int) + seq![','] + text::decimal(
            y as int,
        ) + seq![' '] + text::decimal(width as int) + seq!['x'] + text::decimal(height as int)),
        forall|i: int, rest: Seq<char>|
            at < i < block.body.len() ==> #[trigger] block.body[i] != #[trigger] ("Geometry: "@
                + rest),
    ensures
        geometry.x == x,
        geometry.y == y,
        geometry.width == width,
        geometry.height == height,
        geometry.enabled <==> exists|i: int|
            0 <= i < block.body.len() && #[trigger] block.body[i] == "enabled"@,
{
    let position = text::decimal(x as int) + seq![','] + text::decimal(y as int);
    let size = text::decimal(width as int) + seq!['x'] + text::decimal(height as int);
    let line = text::decimal(x as int) + seq![','] + text::decimal(y as int) + seq![' ']
        + text::decimal(width as int) + seq!['x'] + text::decimal(height as int);
    lemma_last_geometry(block.body, at, line);
    lemma_decimal_chars(x as int);
    lemma_decimal_chars(y as int);
    lemma_decimal_chars(width as int);
    lemma_decimal_chars(height as int);
    assert forall|i: int| 0 <= i < position.len() implies !text::is_white_space(
        #[trigger] position[i],
    ) by {
        lemma_pair_chars(text::decimal(x as int), ',', text::decimal(y as int), i);
    }
    assert forall|i: int| 0 <= i < size.len() implies !text::is_white_space(#[trigger] size[i]) by {
        lemma_pair_chars(text::decimal(width as int), 'x', text::decimal(height as int), i);
    }
    let none = Seq::<char>::empty();
    text::law_tokens(none, position, seq![' '] + size);
    assert(none + position + (seq![' '] + size) =~= line);
    text::law_tokens(seq![' '], size, none);
    assert(seq![' '] + size + none =~= seq![' '] + size);
    text::lemma_cut(text::decimal(x as int), ',', text::decimal(y as int));
    text::lemma_cut(text::decimal(width as int), 'x', text::decimal(height as int));
    text::law_written_numbers_read_back(x as int);
    text::law_written_numbers_read_back(y as int);
    text::law_written_numbers_read_back(width as int);
    text::law_written_numbers_read_back(height as int);
}

proof fn lemma_last_geometry(body: Seq<Seq<char>>, at: int, line: Seq<char>)
    requires
        0 <= at < body.len(),
        body[at] == "Geometry: "@ + line,
        forall|i: int, rest: Seq<char>|
            at < i < body.len() ==> #[trigger] body[i] != #[trigger] ("Geometry: "@ + rest),
    ensures
        geometry_text(body) == line,
    decreases body.len(),
{
    text::law_prefix("Geometry: "@, line, body.last());
    if at < body.len() - 1 {
        let front = body.drop_last();
        assert(body[body.len() - 1] == body.last());
        assert(text::after_prefix(body.last(), "Geometry: "@) is None);
        assert forall|i: int, rest: Seq<char>| at < i < front.len() implies #[trigger] front[i]
            != #[trigger] ("Geometry: "@ + rest) by {
            assert(front[i] == body[i]);
        }
        lemma_last_geometry(front, at, line);
    }
}

proof fn lemma_decimal_chars(n: int)
    ensures
        forall|i: int|
            0 <= i < text::decimal(n).len() ==> (#[trigger] text::decimal(n)[i] == '-' || ('0'
                <= text::decimal(n)[i] && text::decimal(n)[i] <= '9')),
        !text::decimal(n).contains(','),
        !text::decimal(n).contains('x'),
        text::decimal(n).len() > 0,
{
    text::law_written_numbers_are_plain(n);
    text::law_written_numbers_are_plain(-n);
    let word = text::decimal(n);
    if n < 0 {
        let digits = text::decimal(-n);
        assert forall|i: int| 0 <= i < word.len() implies (#[trigger] word[i] == '-' || ('0'
            <= word[i] && word[i] <= '9')) by {
            if i > 0 {
                assert(text::is_digit(digits[i - 1]));
            }
        }
    } else {
        assert forall|i: int| 0 <= i < word.len() implies (#[trigger] word[i] == '-' || ('0'
            <= word[i] && word[i] <= '9')) by {
            assert(text::is_digit(word[i]));
        }
    }
}

proof fn lemma_pair_chars(a: Seq<char>, separator: char, b: Seq<char>, i: int)
    requires
        0 <= i < (a + seq![separator] + b).len(),
        forall|k: int|
            0 <= k < a.len() ==> (#[trigger] a[k] == '-' || ('0' <= a[k] && a[k] <= '9')),
        forall|k: int|
            0 <= k < b.len() ==> (#[trigger] b[k] == '-' || ('0' <= b[k] && b[k] <= '9')),
        separator == ',' || separator == 'x',
    ensures
        !text::is_white_space((a + seq![separator] + b)[i]),
{
    let all = a + seq![separator] + b;
    if i < a.len() {
        assert(all[i] == a[i]);
    } else if i > a.len() {
        assert(all[i] == b[i - a.len() - 1]);
    }
}

/// The name of an output is the token after the index of its block's title.
pub proof fn law_geometry_has_the_name_of_its_block(
    geometry: OutputGeometry,
    block: Block,
    index: Seq<char>,
    name: Seq<char>,
    metadata: Seq<char>,
)
    requires
        geometry.describes(block),
        !index.contains(' '),
        !name.contains(' '),
        block.title == index + seq![' '] + name || block.title == index + seq![' '] + name + seq![
            ' ',
        ] + metadata,
    ensures
        geometry.name@ == name,
{
    law_name_is_the_token_after_the_index(index, name, metadata);
}

} // verus!
