//! The choice of the directory walker.
use crate::fs_query::response::{Capabilities, Platform, WalkerTier};
use vstd::prelude::*;

verus! {

/// The directory walkers.
#[derive(Debug, Clone, Copy, PartialEq, Eq, Structural)]
pub enum WalkerKind {
    LinuxStatx,
    MacosBulk,
    Legacy,
}

/// The walker that fits a platform: its own where it was detected, else the portable
/// one.
pub open spec fn walker_for(caps: Capabilities) -> WalkerKind {
    if caps.platform == Platform::Linux && (caps.walker_tier == WalkerTier::LinuxStatx
        || caps.walker_tier == WalkerTier::LinuxIouring || caps.walker_tier
        == WalkerTier::LinuxLegacy) {
        WalkerKind::LinuxStatx
    } else if caps.platform == Platform::Macos && (caps.walker_tier == WalkerTier::MacosBulk
        || caps.walker_tier == WalkerTier::MacosLegacy) {
        WalkerKind::MacosBulk
    } else {
        WalkerKind::Legacy
    }
}

/// The name of a walker's tier.
pub open spec fn walker_label(kind: WalkerKind) -> Seq<char> {
    match kind {
        WalkerKind::LinuxStatx => "linux-statx"@,
        WalkerKind::MacosBulk => "macos-bulk"@,
        WalkerKind::Legacy => "legacy"@,
    }
}

/// Chooses the directory walker.
#[derive(Debug)]
pub struct WalkerFactory {
    chosen: Option<&'static str>,
}

impl View for WalkerFactory {
    type V = Option<Seq<char>>;

    closed spec fn view(&self) -> Option<Seq<char>> {
        match self.chosen {
            Some(name) => Some(name@),
            None => None,
        }
    }
}

impl Default for WalkerFactory {
    fn default() -> (r: WalkerFactory)
        ensures
            r@ is None,
    {
        WalkerFactory { chosen: None }
    }
}

impl WalkerFactory {
    /// A factory that has chosen nothing.
    pub fn new() -> (r: WalkerFactory)
        ensures
            r@ is None,
    {
        WalkerFactory { chosen: None }
    }

    /// Chooses a walker. The tier of the first call stays the chosen one.
    pub fn build(&mut self, caps: &Capabilities) -> (r: WalkerKind)
        ensures
            r == walker_for(*caps),
            r is LinuxStatx <==> caps.platform == Platform::Linux && (caps.walker_tier is LinuxStatx
                || caps.walker_tier is LinuxIouring || caps.walker_tier is LinuxLegacy),
            r is MacosBulk <==> caps.platform == Platform::Macos && (caps.walker_tier is MacosBulk
                || caps.walker_tier is MacosLegacy),
            old(self)@ is None ==> final(self)@ == Some(
                match r {
                    WalkerKind::LinuxStatx => "linux-statx"@,
                    WalkerKind::MacosBulk => "macos-bulk"@,
                    WalkerKind::Legacy => "legacy"@,
                },
            ),
            old(self)@ is Some ==> final(self)@ == old(self)@,
            final(self)@ == (match old(self)@ {
                Some(name) => Some(name),
                None => Some(walker_label(walker_for(*caps))),
            }),
    {
        let linux_tier = caps.walker_tier == WalkerTier::LinuxStatx || caps.walker_tier
            == WalkerTier::LinuxIouring || caps.walker_tier == WalkerTier::LinuxLegacy;
        let macos_tier = caps.walker_tier == WalkerTier::MacosBulk || caps.walker_tier
            == WalkerTier::MacosLegacy;
        let (kind, name): (WalkerKind, &'static str) = if caps.platform == Platform::Linux
            && linux_tier {
            (WalkerKind::LinuxStatx, "linux-statx")
        } else if caps.platform == Platform::Macos && macos_tier {
            (WalkerKind::MacosBulk, "macos-bulk")
        } else {
            (WalkerKind::Legacy, "legacy")
        };
        if self.chosen.is_none() {
            self.chosen = Some(name);
        }
        kind
    }

    /// The tier that was chosen; the portable one where none was.
    pub fn chosen_tier(&self) -> (r: &'static str)
        ensures
            r@ == (match self@ {
                Some(name) => name,
                None => "legacy"@,
            }),
    {
        match self.chosen {
            Some(name) => name,
            None => "legacy",
        }
    }
}

} // verus!
