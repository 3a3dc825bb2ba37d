//! Symbolic links, followed one hop at a time: whether a chain of them stays within
//! the allowed roots.
use crate::errors::{ErrorView, SubstrateError};
use crate::paths;
use vstd::prelude::*;

verus! {

/// How many hops a chain may have before it counts as an escape.
pub const MAX_SYMLINK_HOPS: u8 = 40;

/// Where a chain of symbolic links leads.
#[derive(Debug)]
pub enum SymlinkDisposition {
    /// The end does not exist.
    Broken,
    /// The end exists and every hop is allowed.
    Internal {
        /// The end of the chain.
        resolved: Vec<u8>,
    },
    /// A hop leaves the allowed roots, or there are too many of them.
    Escape,
}

/// What contracts say of a [`SymlinkDisposition`].
#[verifier::ext_equal]
pub enum DispositionView {
    Broken,
    Internal { resolved: Seq<u8> },
    Escape,
}

impl View for SymlinkDisposition {
    type V = DispositionView;

    open spec fn view(&self) -> DispositionView {
        match self {
            SymlinkDisposition::Broken => DispositionView::Broken,
            SymlinkDisposition::Internal { resolved } => DispositionView::Internal {
                resolved: resolved@,
            },
            SymlinkDisposition::Escape => DispositionView::Escape,
        }
    }
}

/// What is said of the end of a link is what it holds.
pub proof fn ends_of_links_are_seen_as_found(d: SymlinkDisposition)
    ensures
        match d {
            SymlinkDisposition::Broken => d@ == (DispositionView::Broken),
            SymlinkDisposition::Internal { resolved } => d@ == (DispositionView::Internal {
                resolved: resolved@,
            }),
            SymlinkDisposition::Escape => d@ == (DispositionView::Escape),
        },
{
}

/// What the end of a hop is, without following it.
#[derive(Debug, Clone, Copy, PartialEq, Eq, Structural)]
pub enum HopEnd {
    Missing,
    Link,
    Other,
}

/// What is found at a place of a chain.
#[derive(Debug)]
pub enum Hop {
    /// The place holds no link that can be read.
    NotALink {
        /// Whether anything is there.
        exists: bool,
    },
    /// The place holds a link.
    Link {
        /// What the link says.
        target: Vec<u8>,
        /// Why the jail refuses the target, where it does.
        refused: Option<SubstrateError>,
        /// What the target is.
        end: HopEnd,
    },
}

/// Whether a refusal of the jail says only that the target is absent. Any other
/// refusal means that the target crosses the boundary.
pub open spec fn merely_absent(e: ErrorView) -> bool {
    e is NotFound || e is IoError
}

/// Whether a refusal of the jail says only that the target is absent.
fn is_merely_absent(e: &SubstrateError) -> (r: bool)
    ensures
        r == merely_absent(e@),
{
    match e {
        SubstrateError::NotFound { .. } => true,
        SubstrateError::IoError { .. } => true,
        _ => false,
    }
}

/// Where a link at `path` that says `target` leads: a relative target starts from
/// the directory that holds the link.
pub open spec fn link_target(path: Seq<u8>, target: Seq<u8>) -> Seq<u8> {
    if paths::absolute(target) {
        target
    } else {
        match paths::parent_of(path) {
            Some(dir) => paths::joined(dir, target),
            None => target,
        }
    }
}

/// Where a link at `path` that says `target` leads.
pub fn resolve_target(path: &[u8], target: &[u8]) -> (r: Vec<u8>)
    ensures
        r@ == link_target(path@, target@),
        target@.len() > 0 && target@[0] == 47 ==> r@ == target@,
        !(target@.len() > 0 && target@[0] == 47) ==> match paths::parent_of(path@) {
            Some(dir) => r@ == paths::joined(dir, target@),
            None => r@ == target@,
        },
{
    if paths::is_absolute(target) {
        return vstd::slice::slice_to_vec(target);
    }
    match paths::parent(path) {
        Some(dir) => paths::join(&dir, target),
        None => vstd::slice::slice_to_vec(target),
    }
}

/// A place of a chain.
#[verifier::ext_equal]
pub struct ChainView {
    pub path: Seq<u8>,
    /// How many hops lie before the place.
    pub hops: u8,
}

/// How a chain goes on from a place: to its end, or to the next place.
#[verifier::ext_equal]
pub enum ChainStep {
    Done(DispositionView),
    Next(ChainView),
}

/// How a chain goes on from `at`, where `hop` is found.
pub open spec fn chain_step(at: ChainView, hop: Hop) -> ChainStep {
    match hop {
        Hop::NotALink { exists } => if exists {
            ChainStep::Done(DispositionView::Internal { resolved: at.path })
        } else {
            ChainStep::Done(DispositionView::Broken)
        },
        Hop::Link { target, refused, end } => {
            let next = link_target(at.path, target@);
            if refused is Some && !merely_absent(refused->0@) {
                ChainStep::Done(DispositionView::Escape)
            } else {
                match end {
                    HopEnd::Missing => ChainStep::Done(DispositionView::Broken),
                    HopEnd::Other => ChainStep::Done(DispositionView::Internal { resolved: next }),
                    HopEnd::Link => if at.hops + 1 >= MAX_SYMLINK_HOPS {
                        ChainStep::Done(DispositionView::Escape)
                    } else {
                        ChainStep::Next(ChainView { path: next, hops: (at.hops + 1) as u8 })
                    },
                }
            }
        },
    }
}

/// A chain of symbolic links while it is followed.
#[derive(Debug)]
pub struct LinkChain {
    path: Vec<u8>,
    hops: u8,
}

impl View for LinkChain {
    type V = ChainView;

    closed spec fn view(&self) -> ChainView {
        ChainView { path: self.path@, hops: self.hops }
    }
}

impl LinkChain {
    /// A chain that is followed has not used up its hops.
    pub open spec fn wf(&self) -> bool {
        self@.hops < MAX_SYMLINK_HOPS
    }

    /// Starts at a link.
    pub fn new(path: Vec<u8>) -> (r: LinkChain)
        ensures
            r.wf(),
            r@ == (ChainView { path: path@, hops: 0 }),
    {
        LinkChain { path, hops: 0 }
    }

    /// The place that is to be looked at.
    pub fn path(&self) -> (r: &Vec<u8>)
        ensures
            r@ == self@.path,
    {
        &self.path
    }

    /// Takes what was found at the place. The result is where the chain leads, once
    /// that is known; until then the chain moves on to the next place.
    pub fn advance(&mut self, hop: Hop) -> (r: Option<SymlinkDisposition>)
        requires
            old(self).wf(),
        ensures
            final(self).wf(),
            match chain_step(old(self)@, hop) {
                ChainStep::Done(d) => r matches Some(x) && x@ == d && final(self)@ == old(self)@,
                ChainStep::Next(at) => r is None && final(self)@ == at,
            },
            hop is NotALink ==> (r matches Some(d) && (d is Broken || d@
                == (DispositionView::Internal { resolved: old(self)@.path }))),
            hop is Link ==> match r {
                Some(d) => match d@ {
                    DispositionView::Escape => {
                        ||| hop->refused is Some
                        ||| hop->end is Link && old(self)@.hops >= 39
                    },
                    DispositionView::Broken => hop->end is Missing,
                    DispositionView::Internal { resolved } => hop->end is Other && resolved
                        == link_target(old(self)@.path, hop->target@),
                },
                None => {
                    &&& hop->end is Link
                    &&& final(self)@.path == link_target(old(self)@.path, hop->target@)
                    &&& final(self)@.hops == old(self)@.hops + 1
                },
            },
    {
        match hop {
            Hop::NotALink { exists } => {
                if exists {
                    Some(
                        SymlinkDisposition::Internal {
                            resolved: vstd::slice::slice_to_vec(self.path.as_slice()),
                        },
                    )
                } else {
                    Some(SymlinkDisposition::Broken)
                }
            },
            Hop::Link { target, refused, end } => {
                let next = resolve_target(&self.path, &target);
                match refused {
                    Some(e) => {
                        if !is_merely_absent(&e) {
                            return Some(SymlinkDisposition::Escape);
                        }
                    },
                    None => {},
                }
                match end {
                    HopEnd::Missing => Some(SymlinkDisposition::Broken),
                    HopEnd::Other => Some(SymlinkDisposition::Internal { resolved: next }),
                    HopEnd::Link => {
                        if self.hops + 1 >= MAX_SYMLINK_HOPS {
                            Some(SymlinkDisposition::Escape)
                        } else {
                            self.path = next;
                            self.hops = self.hops + 1;
                            None
                        }
                    },
                }
            },
        }
    }
}

/// Where a chain leads that shows the given places one after the other, starting
/// from `at`; nothing where the places do not reach its end.
pub open spec fn followed(at: ChainView, hops: Seq<Hop>) -> Option<DispositionView>
    decreases hops.len(),
{
    if hops.len() == 0 {
        None
    } else {
        match chain_step(at, hops[0]) {
            ChainStep::Done(d) => Some(d),
            ChainStep::Next(next) => followed(next, hops.drop_first()),
        }
    }
}

/// A link within a directory leads from that directory: a relative target is looked up beside the
/// link, and an absolute one where it says.
pub proof fn links_lead_from_their_directory(dir: Seq<u8>, name: Seq<u8>, target: Seq<u8>)
    requires
        dir.len() > 0,
        name.len() > 0 && name != seq![46u8] && name != seq![46u8, 46u8],
        forall|i: int| 0 <= i < name.len() ==> name[i] != 47,
        forall|i: int| 0 <= i < target.len() ==> target[i] != 47,
        target.len() > 0 && target != seq![46u8] && target != seq![46u8, 46u8],
        dir.last() != 47,
    ensures
        link_target(dir + seq![47u8] + name, seq![47u8] + target) == seq![47u8] + target,
        paths::final_name(link_target(dir + seq![47u8] + name, target)) == Some(target),
        paths::under(link_target(dir + seq![47u8] + name, target), dir),
        paths::parts(link_target(dir + seq![47u8] + name, target)) == paths::parts(dir).push(
            paths::Part::Normal(target),
        ),
{
    let link = dir + seq![47u8] + name;
    paths::names_lie_in_the_path_before_them(dir, name);
    paths::single_pieces_are_components(target);
    let d = paths::parent_of(link)->0;
    let to = link_target(link, target);
    if d.len() == 0 {
        assert(to =~= target);
        assert(d =~= Seq::<u8>::empty());
        assert(paths::parts(dir) =~= Seq::<paths::Part>::empty());
        assert(paths::parts(to) =~= paths::parts(dir).push(paths::Part::Normal(target)));
    } else if d.last() == 47 {
        let e = d.drop_last();
        assert(d =~= e.push(paths::SLASH));
        assert(to =~= e + seq![47u8] + target);
        if e.len() > 0 {
            paths::pieces_add_components(e, target);
            paths::pieces_add_components(e, Seq::empty());
            assert(e + seq![47u8] + Seq::<u8>::empty() =~= d);
        } else {
            assert(to =~= seq![47u8] + target);
            paths::single_pieces_are_components(Seq::empty());
            assert(seq![47u8] + Seq::<u8>::empty() =~= d);
            assert(paths::parts(to) =~= paths::parts(d).push(paths::Part::Normal(target)));
        }
    } else {
        assert(to =~= d + seq![47u8] + target);
        paths::pieces_add_components(d, target);
    }
    let p = paths::parts(dir);
    assert(paths::parts(to).take(p.len() as int) =~= p);
}

/// A link that the jail refuses for another reason than that nothing is there escapes, wherever
/// it stands in a chain; so does a chain of forty links.
pub proof fn refused_links_escape(at: ChainView, hop: Hop, rest: Seq<Hop>)
    requires
        hop is Link,
    ensures
        (hop->refused matches Some(e) && !(e is NotFound) && !(e is IoError)) ==> followed(
            at,
            seq![hop] + rest,
        ) == Some(DispositionView::Escape),
        (hop->refused is None || hop->refused->0 is NotFound || hop->refused->0 is IoError)
            && hop->end is Missing ==> followed(at, seq![hop] + rest) == Some(
            DispositionView::Broken,
        ),
        (hop->refused is None || hop->refused->0 is NotFound || hop->refused->0 is IoError)
            && hop->end is Other ==> followed(at, seq![hop] + rest) == Some(
            DispositionView::Internal { resolved: link_target(at.path, hop->target@) },
        ),
        (hop->refused is None || hop->refused->0 is NotFound || hop->refused->0 is IoError)
            && hop->end is Link && at.hops < 39 ==> followed(at, seq![hop] + rest) == followed(
            ChainView { path: link_target(at.path, hop->target@), hops: (at.hops + 1) as u8 },
            rest,
        ),
        (hop->refused is None || hop->refused->0 is NotFound || hop->refused->0 is IoError)
            && hop->end is Link && at.hops >= 39 ==> followed(at, seq![hop] + rest) == Some(
            DispositionView::Escape,
        ),
{
    assert((seq![hop] + rest).drop_first() =~= rest);
}

/// A place that holds no link ends a chain: the chain leads there where something is there, and
/// nowhere otherwise.
pub proof fn chains_end_where_no_link_is(at: ChainView, rest: Seq<Hop>)
    ensures
        followed(at, seq![(Hop::NotALink { exists: true })] + rest) == Some(
            DispositionView::Internal { resolved: at.path },
        ),
        followed(at, seq![(Hop::NotALink { exists: false })] + rest) == Some(
            DispositionView::Broken,
        ),
{
}

/// Every chain comes to an end: after at most [`MAX_SYMLINK_HOPS`] places it is known
/// where it leads.
pub proof fn every_chain_ends(at: ChainView, hops: Seq<Hop>)
    requires
        at.hops < MAX_SYMLINK_HOPS,
        hops.len() + at.hops >= MAX_SYMLINK_HOPS,
    ensures
        followed(at, hops) is Some,
    decreases hops.len(),
{
    match chain_step(at, hops[0]) {
        ChainStep::Done(_) => {},
        ChainStep::Next(next) => {
            every_chain_ends(next, hops.drop_first());
        },
    }
}

/// A chain that leads to a place within the roots never passed a place that the jail
/// refuses as out of bounds.
pub proof fn internal_chain_was_allowed(at: ChainView, hops: Seq<Hop>, i: int)
    requires
        followed(at, hops) matches Some(d) && d is Internal,
        0 <= i < hops.len(),
        forall|j: int| 0 <= j <= i ==> (#[trigger] hops[j]) is Link,
        followed(at, hops.take(i)) is None,
    ensures
        hops[i]->refused matches Some(e) ==> merely_absent(e@),
    decreases hops.len(),
{
    assert(hops[0] is Link);
    if i > 0 {
        assert(hops.take(i)[0] == hops[0]);
        let next = chain_step(at, hops[0])->Next_0;
        let rest = hops.drop_first();
        assert(hops.take(i).drop_first() =~= rest.take(i - 1));
        assert forall|j: int| 0 <= j <= i - 1 implies (#[trigger] rest[j]) is Link by {
            assert(rest[j] == hops[j + 1]);
        }
        internal_chain_was_allowed(next, rest, i - 1);
    }
}

} // verus!
