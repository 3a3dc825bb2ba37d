//! The hints that go with an answer.
use crate::fs_query::response::{str_of, Capabilities, Hints, HintsView};
use vstd::prelude::*;

verus! {

/// The hints of a successful read.
pub open spec fn read_hints(
    next_action: Option<Seq<char>>,
    alternative: Option<Seq<char>>,
    error_recovery: Option<Seq<char>>,
    caps: Capabilities,
    record_walker_tier: bool,
) -> HintsView {
    HintsView {
        next_action_suggested: next_action,
        alternative_tool: alternative,
        error_recovery,
        confirm_destructive: Some(false),
        simd_tier_used: Some(caps.simd_tier.label()),
        walker_tier_used: if record_walker_tier {
            Some(caps.walker_tier.label())
        } else {
            None
        },
    }
}

/// Copies an optional string slice.
fn owned(s: Option<&str>) -> (r: Option<String>)
    ensures
        crate::fs_query::response::text_of(r) == str_of(s),
{
    match s {
        Some(x) => Some(x.to_owned()),
        None => None,
    }
}

/// Builds the hints of a successful read. The tiers are for diagnosis only.
pub fn build_hints(
    next_action: Option<&str>,
    alternative: Option<&str>,
    error_recovery: Option<&str>,
    caps: &Capabilities,
    record_walker_tier: bool,
) -> (r: Hints)
    ensures
        r@ == read_hints(
            str_of(next_action),
            str_of(alternative),
            str_of(error_recovery),
            *caps,
            record_walker_tier,
        ),
        r@.next_action_suggested == str_of(next_action),
        r@.alternative_tool == str_of(alternative),
        r@.error_recovery == str_of(error_recovery),
        r@.confirm_destructive == Some(false),
        r@.simd_tier_used == Some(caps.simd_tier.label()),
        r@.walker_tier_used is Some <==> record_walker_tier,
        record_walker_tier ==> r@.walker_tier_used == Some(caps.walker_tier.label()),
{
    Hints {
        next_action_suggested: owned(next_action),
        alternative_tool: owned(alternative),
        error_recovery: owned(error_recovery),
        confirm_destructive: Some(false),
        simd_tier_used: Some(caps.simd_tier.name().to_owned()),
        walker_tier_used: if record_walker_tier {
            Some(caps.walker_tier.name().to_owned())
        } else {
            None
        },
    }
}

/// Builds the hints of an error: how to recover from it, and nothing else.
pub fn build_error_hints(recovery: &str) -> (r: Hints)
    ensures
        r@ == (HintsView {
            error_recovery: Some(recovery@),
            confirm_destructive: Some(false),
            ..HintsView::blank()
        }),
        r@.next_action_suggested is None && r@.alternative_tool is None,
        r@.simd_tier_used is None && r@.walker_tier_used is None,
{
    Hints {
        next_action_suggested: None,
        alternative_tool: None,
        error_recovery: Some(recovery.to_owned()),
        confirm_destructive: Some(false),
        simd_tier_used: None,
        walker_tier_used: None,
    }
}

} // verus!
