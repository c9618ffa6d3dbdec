//! The identity of the virtual output.

use vstd::prelude::*;

verus! {

/// Configuration for the virtual-output machinery: the name KWin will
/// assign/connect (`Virtual-<name>` in kscreen) and the full kscreen
/// connector name to exclude from physical-output management.
///
/// The exclusion used by the kscreen parser is EXACT-match against
/// `kscreen_name` (see
/// [`parse_enabled_physical_outputs`](super::kscreen::parse_enabled_physical_outputs)):
/// a DRM virtual connector (e.g. Hyper-V's `Virtual-1`) is itself a physical
/// output that the layout guard must manage, so the match may never be a
/// `"Virtual-"` prefix.
#[derive(Debug, Clone)]
pub struct VirtualOutputConfig {
    /// The name passed to `stream_virtual_output`; KWin lists the output
    /// as `Virtual-{name}` in kscreen.
    pub name: String,
    /// The full kscreen connector name to exclude from physical-output
    /// management. Must equal `Virtual-{name}` for the exclusion to hit.
    pub kscreen_name: String,
}

impl VirtualOutputConfig {
    /// Build a config from the output name; derives the kscreen connector
    /// name (`Virtual-{name}`) the way KWin does.
    #[must_use]
    pub fn new(name: &str) -> (config: Self)
        ensures
            config.name@ == name@,
            config.kscreen_name@ == "Virtual-"@ + name@,
    {
        VirtualOutputConfig {
            name: name.to_owned(),
            kscreen_name: "Virtual-".to_owned().concat(name),
        }
    }
}

impl Default for VirtualOutputConfig {
    /// The neutral default identity (`Virtual-rdp`).
    fn default() -> (config: Self)
        ensures
            config.name@ == "rdp"@,
            config.kscreen_name@ == "Virtual-rdp"@,
    {
        proof {
            reveal_strlit("Virtual-");
            reveal_strlit("rdp");
            reveal_strlit("Virtual-rdp");
            assert("Virtual-"@ + "rdp"@ =~= "Virtual-rdp"@);
        }
        Self::new("rdp")
    }
}

} // verus!
