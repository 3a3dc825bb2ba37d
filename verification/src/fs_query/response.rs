//! What every file-system tool answers with, and what the platform offers.
use vstd::prelude::*;

verus! {

/// The operating system that the program runs on.
#[derive(Debug, Clone, Copy, PartialEq, Eq, Structural)]
pub enum Platform {
    Linux,
    Macos,
    Other,
}

/// The vector instructions that were detected.
#[derive(Debug, Clone, Copy, PartialEq, Eq, Structural)]
pub enum SimdTier {
    Avx512,
    Avx2,
    Neon,
    Sse2,
    Scalar,
}

impl SimdTier {
    /// The tier's name in hints.
    pub open spec fn label(self) -> Seq<char> {
        match self {
            SimdTier::Avx512 => "avx512"@,
            SimdTier::Avx2 => "avx2"@,
            SimdTier::Neon => "neon"@,
            SimdTier::Sse2 => "sse2"@,
            SimdTier::Scalar => "scalar"@,
        }
    }

    /// The tier's name in hints, in lower case.
    pub fn name(&self) -> (r: &'static str)
        ensures
            r@ == self.label(),
            match self {
                SimdTier::Avx512 => r@ == "avx512"@,
                SimdTier::Avx2 => r@ == "avx2"@,
                SimdTier::Neon => r@ == "neon"@,
                SimdTier::Sse2 => r@ == "sse2"@,
                SimdTier::Scalar => r@ == "scalar"@,
            },
    {
        match self {
            SimdTier::Avx512 => "avx512",
            SimdTier::Avx2 => "avx2",
            SimdTier::Neon => "neon",
            SimdTier::Sse2 => "sse2",
            SimdTier::Scalar => "scalar",
        }
    }
}

/// The ways to walk a directory tree.
#[derive(Debug, Clone, Copy, PartialEq, Eq, Structural)]
pub enum WalkerTier {
    LinuxIouring,
    LinuxStatx,
    LinuxLegacy,
    MacosBulk,
    MacosLegacy,
}

impl WalkerTier {
    /// The tier's name in hints.
    pub open spec fn label(self) -> Seq<char> {
        match self {
            WalkerTier::LinuxIouring => "linuxiouring"@,
            WalkerTier::LinuxStatx => "linuxstatx"@,
            WalkerTier::LinuxLegacy => "linuxlegacy"@,
            WalkerTier::MacosBulk => "macosbulk"@,
            WalkerTier::MacosLegacy => "macoslegacy"@,
        }
    }

    /// The tier's name in hints, in lower case.
    pub fn name(&self) -> (r: &'static str)
        ensures
            r@ == self.label(),
            match self {
                WalkerTier::LinuxIouring => r@ == "linuxiouring"@,
                WalkerTier::LinuxStatx => r@ == "linuxstatx"@,
                WalkerTier::LinuxLegacy => r@ == "linuxlegacy"@,
                WalkerTier::MacosBulk => r@ == "macosbulk"@,
                WalkerTier::MacosLegacy => r@ == "macoslegacy"@,
            },
    {
        match self {
            WalkerTier::LinuxIouring => "linuxiouring",
            WalkerTier::LinuxStatx => "linuxstatx",
            WalkerTier::LinuxLegacy => "linuxlegacy",
            WalkerTier::MacosBulk => "macosbulk",
            WalkerTier::MacosLegacy => "macoslegacy",
        }
    }
}

/// The ways to compute a BLAKE3 digest.
#[derive(Debug, Clone, Copy, PartialEq, Eq, Structural)]
pub enum HashTier {
    Blake3Avx512,
    Blake3Avx2,
    Blake3Neon,
    Blake3Sse2,
    Blake3Portable,
}

/// The ways to read file metadata.
#[derive(Debug, Clone, Copy, PartialEq, Eq, Structural)]
pub enum StatTier {
    LinuxStatx,
    LinuxFstatat,
    MacosGetattrlist,
    MacosFstatat,
    PortableMetadata,
}

/// What the platform was found to offer.
#[derive(Debug, Clone, Copy)]
pub struct Capabilities {
    pub platform: Platform,
    pub simd_tier: SimdTier,
    pub walker_tier: WalkerTier,
    pub hash_tier: HashTier,
    pub stat_tier: StatTier,
}

impl Default for Capabilities {
    fn default() -> (r: Capabilities)
        ensures
            r == (Capabilities {
                platform: Platform::Linux,
                simd_tier: SimdTier::Scalar,
                walker_tier: WalkerTier::LinuxLegacy,
                hash_tier: HashTier::Blake3Portable,
                stat_tier: StatTier::LinuxFstatat,
            }),
    {
        Capabilities {
            platform: Platform::Linux,
            simd_tier: SimdTier::Scalar,
            walker_tier: WalkerTier::LinuxLegacy,
            hash_tier: HashTier::Blake3Portable,
            stat_tier: StatTier::LinuxFstatat,
        }
    }
}

/// What a client may do next, and how the answer was made.
#[derive(Debug)]
pub struct Hints {
    pub next_action_suggested: Option<String>,
    pub alternative_tool: Option<String>,
    pub error_recovery: Option<String>,
    pub confirm_destructive: Option<bool>,
    pub simd_tier_used: Option<String>,
    pub walker_tier_used: Option<String>,
}

/// What contracts say of [`Hints`].
#[verifier::ext_equal]
pub struct HintsView {
    pub next_action_suggested: Option<Seq<char>>,
    pub alternative_tool: Option<Seq<char>>,
    pub error_recovery: Option<Seq<char>>,
    pub confirm_destructive: Option<bool>,
    pub simd_tier_used: Option<Seq<char>>,
    pub walker_tier_used: Option<Seq<char>>,
}

/// The characters of an optional string.
pub open spec fn text_of(s: Option<String>) -> Option<Seq<char>> {
    match s {
        Some(x) => Some(x@),
        None => None,
    }
}

/// The characters of an optional string slice.
pub open spec fn str_of(s: Option<&str>) -> Option<Seq<char>> {
    match s {
        Some(x) => Some(x@),
        None => None,
    }
}

impl View for Hints {
    type V = HintsView;

    open spec fn view(&self) -> HintsView {
        HintsView {
            next_action_suggested: text_of(self.next_action_suggested),
            alternative_tool: text_of(self.alternative_tool),
            error_recovery: text_of(self.error_recovery),
            confirm_destructive: self.confirm_destructive,
            simd_tier_used: text_of(self.simd_tier_used),
            walker_tier_used: text_of(self.walker_tier_used),
        }
    }
}

/// What is said of hints is what its fields hold.
pub proof fn hints_are_seen_as_given(h: Hints)
    ensures
        match h.next_action_suggested {
            Some(x) => h@.next_action_suggested == Some(x@),
            None => h@.next_action_suggested is None,
        },
        match h.alternative_tool {
            Some(x) => h@.alternative_tool == Some(x@),
            None => h@.alternative_tool is None,
        },
        match h.error_recovery {
            Some(x) => h@.error_recovery == Some(x@),
            None => h@.error_recovery is None,
        },
        h@.confirm_destructive == h.confirm_destructive,
        match h.simd_tier_used {
            Some(x) => h@.simd_tier_used == Some(x@),
            None => h@.simd_tier_used is None,
        },
        match h.walker_tier_used {
            Some(x) => h@.walker_tier_used == Some(x@),
            None => h@.walker_tier_used is None,
        },
{
}

impl HintsView {
    /// No hint at all.
    pub open spec fn blank() -> HintsView {
        HintsView {
            next_action_suggested: None,
            alternative_tool: None,
            error_recovery: None,
            confirm_destructive: None,
            simd_tier_used: None,
            walker_tier_used: None,
        }
    }
}

impl Default for Hints {
    fn default() -> (r: Hints)
        ensures
            r@ == HintsView::blank(),
            r@.next_action_suggested is None && r@.alternative_tool is None,
            r@.error_recovery is None && r@.confirm_destructive is None,
            r@.simd_tier_used is None && r@.walker_tier_used is None,
    {
        Hints {
            next_action_suggested: None,
            alternative_tool: None,
            error_recovery: None,
            confirm_destructive: None,
            simd_tier_used: None,
            walker_tier_used: None,
        }
    }
}

/// The answer of a tool: text for the model, a payload for programs, and hints.
#[derive(Debug)]
pub struct ToolResponse<P> {
    pub content: String,
    pub structured_content: P,
    pub hints: Hints,
}

impl<P> ToolResponse<P> {
    /// An answer without hints.
    pub fn ok(content: String, structured_content: P) -> (r: ToolResponse<P>)
        ensures
            r.content == content,
            r.structured_content == structured_content,
            r.hints@ == HintsView::blank(),
    {
        ToolResponse { content, structured_content, hints: Hints::default() }
    }

    /// An answer with hints.
    pub fn with_hints(content: String, structured_content: P, hints: Hints) -> (r: ToolResponse<P>)
        ensures
            r == (ToolResponse { content, structured_content, hints }),
    {
        ToolResponse { content, structured_content, hints }
    }
}

} // verus!
