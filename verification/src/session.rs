//! KWin virtual-output sessions (KDE Plasma 6+).
//!
//! A session creates a KWin **virtual output** at an arbitrary resolution and
//! streams it via the private `zkde_screencast_unstable_v1` protocol. One
//! request creates the output AND its PipeWire stream; capture size equals
//! desktop size, so nothing is scaled or remapped between the stream and an
//! encoder. While a session is live the physical outputs are disabled, so the
//! virtual output becomes the primary at the origin; at release they are
//! enabled again.
//!
//! Nothing here talks to the compositor or runs a command. Each procedure is
//! a machine that says which step comes next and is told what became of it:
//!
//! - [`stream`]: one stream request, and the swap from a stream to its
//!   replacement.
//! - [`manager`]: creating a stream, from the connection thread to the
//!   enabled output.
//! - [`layout`]: disabling the physical outputs and restoring them.
//! - [`origin`]: moving the virtual output to the origin, and healing a
//!   layout.
//! - [`shell`]: restarting plasmashell, and what its scripting interface
//!   answers.
//! - [`kscreen`]: what a `kscreen-doctor` report says.
//! - [`text`]: the text handling that reading it takes.

pub mod config;
pub mod kscreen;
pub mod layout;
pub mod manager;
pub mod origin;
pub mod shell;
pub mod stream;
pub mod text;

pub use config::VirtualOutputConfig;
pub use kscreen::{
    OutputGeometry, parse_enabled_physical_outputs, parse_output_geometries,
    parse_recoverable_physical_outputs,
};
pub use layout::OutputLayoutGuard;
pub use stream::{
    SETTLE_CLOSE_MS, STREAM_CREATE_TIMEOUT_MS, StreamOutcome, StreamRequestMachine,
    outcome_to_reply, take_due_settle_close,
};
pub use text::strip_ansi;
