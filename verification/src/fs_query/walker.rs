//! Directory walks: what is emitted for each directory, and in which order the
//! directories are opened.
pub mod legacy;
pub mod macos;

use crate::codec::{lossy, lossy_text};
use crate::errors::{ErrorView, SubstrateError};
use crate::paths;
use vstd::prelude::*;

verus! {

/// How many entries are handled between two looks at the cancellation.
pub const CANCEL_CHECK_INTERVAL: u64 = 256;

/// An entry that a walk emits.
#[derive(Debug)]
pub struct DirEntry {
    pub path: Vec<u8>,
    pub is_dir: bool,
    /// The size in bytes, of regular files.
    pub size_bytes: Option<u64>,
}

/// What contracts say of a [`DirEntry`].
#[verifier::ext_equal]
pub struct WalkedView {
    pub path: Seq<u8>,
    pub is_dir: bool,
    pub size_bytes: Option<u64>,
}

impl View for DirEntry {
    type V = WalkedView;

    open spec fn view(&self) -> WalkedView {
        WalkedView { path: self.path@, is_dir: self.is_dir, size_bytes: self.size_bytes }
    }
}

/// What is said of a child is what its fields hold.
pub proof fn children_are_seen_as_walked(e: DirEntry)
    ensures
        e@.path == e.path@,
        e@.is_dir == e.is_dir,
        e@.size_bytes == e.size_bytes,
{
}

/// What the operating system says of a child: its metadata, or at least whether the
/// directory lists it as a directory.
#[derive(Debug, Clone, Copy)]
pub enum ChildReport {
    Metadata { is_dir: bool, is_file: bool, size: u64 },
    TypeOnly { is_dir: bool },
}

/// A child of a directory, or a failure to read it.
#[derive(Debug)]
pub enum Child {
    Found { name: Vec<u8>, report: ChildReport },
    Unreadable,
}

/// Whether a child is a directory.
pub open spec fn report_is_dir(report: ChildReport) -> bool {
    match report {
        ChildReport::Metadata { is_dir, .. } => is_dir,
        ChildReport::TypeOnly { is_dir } => is_dir,
    }
}

/// What is emitted for a child of the directory `dir`.
pub open spec fn emitted(dir: Seq<u8>, child: Child) -> Result<WalkedView, ErrorView> {
    match child {
        Child::Found { name, report } => Ok(
            WalkedView {
                path: paths::joined(dir, name@),
                is_dir: report_is_dir(report),
                size_bytes: match report {
                    ChildReport::Metadata { is_file, size, .. } => if is_file {
                        Some(size)
                    } else {
                        None
                    },
                    ChildReport::TypeOnly { .. } => None,
                },
            },
        ),
        Child::Unreadable => Err(unreadable(dir)),
    }
}

/// What a directory that cannot be read is answered with.
pub open spec fn unreadable(dir: Seq<u8>) -> ErrorView {
    ErrorView::IoError { path: lossy_text(dir), tagged: false }
}

/// The value of an emitted item.
pub open spec fn item_view(item: Result<DirEntry, SubstrateError>) -> Result<WalkedView, ErrorView> {
    match item {
        Ok(e) => Ok(e@),
        Err(e) => Err(e@),
    }
}

/// The answer to a directory that cannot be opened or read. The walk goes on.
pub fn unreadable_dir(dir: &[u8]) -> (r: SubstrateError)
    ensures
        r@ == unreadable(dir@),
        r@ == (ErrorView::IoError { path: lossy_text(dir@), tagged: false }),
{
    SubstrateError::IoError { path: lossy(dir), correlation_id: None }
}

/// What is emitted for a child of the directory `dir`.
pub fn emit_child(dir: &[u8], child: &Child) -> (r: Result<DirEntry, SubstrateError>)
    ensures
        item_view(r) == emitted(dir@, *child),
        child is Unreadable ==> (r matches Err(e) && e@ == (ErrorView::IoError {
            path: lossy_text(dir@),
            tagged: false,
        })),
        child matches Child::Found { name, report } ==> r matches Ok(e) && {
            &&& e.path@ == paths::joined(dir@, name@)
            &&& match report {
                ChildReport::Metadata { is_dir, is_file, size } => e.is_dir == is_dir
                    && e.size_bytes == if *is_file {
                    Some(*size)
                } else {
                    None
                },
                ChildReport::TypeOnly { is_dir } => e.is_dir == is_dir && e.size_bytes is None,
            }
        },
{
    match child {
        Child::Found { name, report } => {
            let (is_dir, size_bytes) = match report {
                ChildReport::Metadata { is_dir, is_file, size } => (
                    *is_dir,
                    if *is_file {
                        Some(*size)
                    } else {
                        None
                    },
                ),
                ChildReport::TypeOnly { is_dir } => (*is_dir, None),
            };
            Ok(DirEntry { path: paths::join(dir, name), is_dir, size_bytes })
        },
        Child::Unreadable => Err(unreadable_dir(dir)),
    }
}

/// A directory that is still to be opened.
#[verifier::ext_equal]
pub struct PendingView {
    pub path: Seq<u8>,
    pub depth: nat,
}

/// The directories among the children of a directory, in order.
pub open spec fn subdirs(dir: Seq<u8>, depth: nat, children: Seq<Child>) -> Seq<PendingView>
    decreases children.len(),
{
    if children.len() == 0 {
        Seq::empty()
    } else {
        let front = subdirs(dir, depth, children.drop_last());
        match children.last() {
            Child::Found { name, report } => if report_is_dir(report) {
                front.push(PendingView { path: paths::joined(dir, name@), depth })
            } else {
                front
            },
            Child::Unreadable => front,
        }
    }
}

#[derive(Debug)]
struct Pending {
    path: Vec<u8>,
    depth: usize,
}

/// A walk through a tree of directories: all children of a directory come before
/// those of its subdirectories, and a subdirectory is walked to its end before the
/// next one.
#[derive(Debug)]
pub struct TreeWalk {
    max_depth: Option<usize>,
    /// What is to be opened, the next one last.
    stack: Vec<Pending>,
    /// The directory whose children are being read.
    current: Option<Pending>,
    counter: u64,
}

/// Whether a walk goes as deep as `depth`.
pub open spec fn within_depth(max_depth: Option<usize>, depth: nat) -> bool {
    match max_depth {
        Some(limit) => depth <= limit,
        None => true,
    }
}

impl TreeWalk {
    /// The directories that are still to be opened, the next one first.
    pub closed spec fn pending(&self) -> Seq<PendingView> {
        Seq::new(
            self.stack@.len(),
            |i: int|
                PendingView {
                    path: self.stack@[self.stack@.len() - 1 - i].path@,
                    depth: self.stack@[self.stack@.len() - 1 - i].depth as nat,
                },
        )
    }

    /// The directory whose children are being read.
    pub closed spec fn current(&self) -> Option<PendingView> {
        match self.current {
            Some(p) => Some(PendingView { path: p.path@, depth: p.depth as nat }),
            None => None,
        }
    }

    /// How deep the walk goes.
    pub closed spec fn limit(&self) -> Option<usize> {
        self.max_depth
    }

    /// How many entries were counted, wrapping around.
    pub closed spec fn count(&self) -> u64 {
        self.counter
    }

    /// No directory that is to be opened, or open, lies too deep.
    pub open spec fn wf(&self) -> bool {
        &&& forall|i: int|
            0 <= i < self.pending().len() ==> within_depth(
                self.limit(),
                (#[trigger] self.pending()[i]).depth,
            )
        &&& self.current() matches Some(p) ==> within_depth(self.limit(), p.depth)
    }

    /// Starts a walk at `root`.
    pub fn new(root: Vec<u8>, max_depth: Option<usize>) -> (r: TreeWalk)
        ensures
            r.wf(),
            r.limit() == max_depth,
            r.pending() == seq![PendingView { path: root@, depth: 0 }],
            r.current() is None,
            r.count() == 0,
    {
        let mut stack: Vec<Pending> = Vec::new();
        stack.push(Pending { path: root, depth: 0 });
        let r = TreeWalk { max_depth, stack, current: None, counter: 0 };
        assert(r.pending() =~= seq![PendingView { path: root@, depth: 0 }]);
        r
    }

    /// The directory that is to be opened next; none at the end of the walk.
    pub fn next_dir(&mut self) -> (r: Option<Vec<u8>>)
        requires
            old(self).wf(),
        ensures
            final(self).wf(),
            final(self).limit() == old(self).limit(),
            final(self).count() == old(self).count(),
            old(self).pending().len() == 0 ==> {
                &&& r is None
                &&& final(self).pending() == old(self).pending()
                &&& final(self).current() is None
            },
            old(self).pending().len() > 0 ==> {
                &&& r matches Some(path)
                &&& path@ == old(self).pending()[0].path
                &&& final(self).current() == Some(old(self).pending()[0])
                &&& final(self).pending() == old(self).pending().drop_first()
            },
    {
        let ghost before = self.pending();
        match self.stack.pop() {
            Some(p) => {
                let path = vstd::slice::slice_to_vec(p.path.as_slice());
                self.current = Some(p);
                proof {
                    assert(self.pending() =~= before.drop_first());
                    assert forall|i: int| 0 <= i < self.pending().len() implies within_depth(
                        self.limit(),
                        (#[trigger] self.pending()[i]).depth,
                    ) by {
                        assert(self.pending()[i] == before[i + 1]);
                    }
                    assert(before[0].depth == p.depth);
                }
                Some(path)
            },
            None => {
                self.current = None;
                assert(self.pending() =~= before);
                None
            },
        }
    }

    /// Counts one more entry. The result says whether the cancellation is to be looked
    /// at: after every [`CANCEL_CHECK_INTERVAL`] entries of the whole walk.
    pub fn tick(&mut self) -> (check: bool)
        requires
            old(self).wf(),
        ensures
            final(self).wf(),
            final(self).limit() == old(self).limit(),
            final(self).pending() == old(self).pending(),
            final(self).current() == old(self).current(),
            final(self).count() == (if old(self).count() == u64::MAX {
                0
            } else {
                (old(self).count() + 1) as u64
            }),
            check == (final(self).count() % CANCEL_CHECK_INTERVAL == 0),
            check <==> final(self).count() % 256 == 0,
    {
        self.counter = if self.counter == u64::MAX {
            0
        } else {
            self.counter + 1
        };
        assert(self.pending() =~= old(self).pending());
        self.counter % CANCEL_CHECK_INTERVAL == 0
    }

    /// Ends the directory that is open: its subdirectories are opened next, in their
    /// order, unless they lie too deep.
    pub fn descend(&mut self, children: &Vec<Child>)
        requires
            old(self).wf(),
            old(self).current() is Some,
            old(self).current()->0.depth < usize::MAX,
        ensures
            final(self).wf(),
            final(self).limit() == old(self).limit(),
            final(self).count() == old(self).count(),
            final(self).current() is None,
            ({
                let dir = old(self).current()->0;
                final(self).pending() == (if within_depth(old(self).limit(), dir.depth + 1) {
                    subdirs(dir.path, dir.depth + 1, children@) + old(self).pending()
                } else {
                    old(self).pending()
                })
            }),
            old(self).limit() matches Some(n) ==> (old(self).current()->0.depth >= n ==> final(self).pending() == old(self).pending()),
            (old(self).limit() matches Some(n) ==> old(self).current()->0.depth < n) ==> final(self).pending() == subdirs(
                old(self).current()->0.path,
                old(self).current()->0.depth + 1,
                children@,
            ) + old(self).pending(),
    {
        let ghost old_pending = self.pending();
        let ghost dir = self.current()->0;
        let dir_now = match self.current.take() {
            Some(p) => p,
            None => {
                return;
            },
        };
        let depth: usize = dir_now.depth + 1;
        let deeper = match self.max_depth {
            Some(limit) => depth <= limit,
            None => true,
        };
        if !deeper {
            assert(self.pending() =~= old_pending);
            return;
        }
        let mut i: usize = children.len();
        let ghost all = children@;
        let ghost limit = self.max_depth;
        proof {
            assert(all.take(i as int) =~= all);
            assert(self.pending() =~= old_pending);
            assert(subdirs(dir.path, depth as nat, all) + old_pending =~= subdirs(
                dir.path,
                depth as nat,
                all.take(i as int),
            ) + self.pending());
        }
        while i > 0
            invariant
                i <= children@.len(),
                all == children@,
                dir.path == dir_now.path@,
                depth == dir_now.depth + 1,
                self.max_depth == limit,
                self.counter == old(self).counter,
                self.current is None,
                within_depth(limit, depth as nat),
                forall|k: int|
                    0 <= k < self.pending().len() ==> within_depth(
                        limit,
                        (#[trigger] self.pending()[k]).depth,
                    ),
                subdirs(dir.path, depth as nat, all) + old_pending == subdirs(
                    dir.path,
                    depth as nat,
                    all.take(i as int),
                ) + self.pending(),
            decreases i,
        {
            let ghost before = self.pending();
            let ghost front = all.take(i as int);
            i = i - 1;
            proof {
                assert(front.drop_last() =~= all.take(i as int));
                assert(front.last() == all[i as int]);
            }
            match &children[i] {
                Child::Found { name, report } => {
                    let is_dir = match report {
                        ChildReport::Metadata { is_dir, .. } => *is_dir,
                        ChildReport::TypeOnly { is_dir } => *is_dir,
                    };
                    if is_dir {
                        let path = paths::join(&dir_now.path, name);
                        let ghost p = PendingView { path: path@, depth: depth as nat };
                        self.stack.push(Pending { path, depth });
                        proof {
                            assert(self.pending() =~= seq![p] + before);
                            let less = subdirs(dir.path, depth as nat, all.take(i as int));
                            assert(less.push(p) + before =~= less + (seq![p] + before));
                            assert forall|k: int| 0 <= k < self.pending().len() implies within_depth(
                                limit,
                                (#[trigger] self.pending()[k]).depth,
                            ) by {
                                if k > 0 {
                                    assert(self.pending()[k] == before[k - 1]);
                                }
                            }
                        }
                    }
                },
                Child::Unreadable => {},
            }
        }
        proof {
            assert(all.take(0) =~= Seq::<Child>::empty());
            assert(Seq::<PendingView>::empty() + self.pending() =~= self.pending());
        }
    }
}

// ---- What holds of walks -----------------------------------------------------

/// What a directory holds, by its path.
pub type Listing = spec_fn(Seq<u8>) -> Seq<Child>;

/// The directories that are opened after `dir` because of it: its subdirectories, unless
/// they lie too deep.
pub open spec fn opened_by(tree: Listing, limit: Option<usize>, dir: PendingView) -> Seq<
    PendingView,
> {
    if within_depth(limit, dir.depth + 1) {
        subdirs(dir.path, dir.depth + 1, tree(dir.path))
    } else {
        Seq::empty()
    }
}

/// The directories still to be opened after a walk has handed out the next one and read
/// its children.
pub open spec fn after_next(tree: Listing, limit: Option<usize>, pending: Seq<PendingView>) -> Seq<
    PendingView,
> {
    opened_by(tree, limit, pending[0]) + pending.drop_first()
}

/// The directories that a walk hands out in its next `steps` steps.
pub open spec fn handed_out(
    tree: Listing,
    limit: Option<usize>,
    pending: Seq<PendingView>,
    steps: nat,
) -> Seq<PendingView>
    decreases steps,
{
    if steps == 0 || pending.len() == 0 {
        Seq::empty()
    } else {
        seq![pending[0]] + handed_out(
            tree,
            limit,
            after_next(tree, limit, pending),
            (steps - 1) as nat,
        )
    }
}

/// The directories still to be opened after `steps` steps.
pub open spec fn left_over(
    tree: Listing,
    limit: Option<usize>,
    pending: Seq<PendingView>,
    steps: nat,
) -> Seq<PendingView>
    decreases steps,
{
    if steps == 0 || pending.len() == 0 {
        pending
    } else {
        left_over(tree, limit, after_next(tree, limit, pending), (steps - 1) as nat)
    }
}

/// The directories of a tree within the depth of a walk, those of `dirs` and below them down
/// to the depth `bottom`: each directory, then all below it, then the next one.
pub open spec fn within_tree(
    tree: Listing,
    limit: Option<usize>,
    dirs: Seq<PendingView>,
    depth: nat,
    bottom: nat,
) -> Seq<PendingView>
    decreases bottom + 1 - depth, dirs.len(),
{
    if dirs.len() == 0 || depth > bottom {
        Seq::empty()
    } else {
        (seq![dirs[0]] + within_tree(
            tree,
            limit,
            opened_by(tree, limit, dirs[0]),
            depth + 1,
            bottom,
        )) + within_tree(tree, limit, dirs.drop_first(), depth, bottom)
    }
}

/// Whether directories at the depth `depth` have nothing to open below the depth `bottom`.
pub open spec fn ends_by(
    tree: Listing,
    limit: Option<usize>,
    dirs: Seq<PendingView>,
    depth: nat,
    bottom: nat,
) -> bool
    decreases bottom + 1 - depth, dirs.len(),
{
    if dirs.len() == 0 {
        true
    } else if depth > bottom {
        false
    } else {
        &&& ends_by(tree, limit, opened_by(tree, limit, dirs[0]), depth + 1, bottom)
        &&& ends_by(tree, limit, dirs.drop_first(), depth, bottom)
    }
}

proof fn lemma_walk_on(
    tree: Listing,
    limit: Option<usize>,
    dirs: Seq<PendingView>,
    rest: Seq<PendingView>,
    depth: nat,
    bottom: nat,
    steps: nat,
)
    requires
        ends_by(tree, limit, dirs, depth, bottom),
    ensures
        ({
            let part = within_tree(tree, limit, dirs, depth, bottom);
            &&& handed_out(tree, limit, dirs + rest, part.len() + steps) == part + handed_out(
                tree,
                limit,
                rest,
                steps,
            )
            &&& left_over(tree, limit, dirs + rest, part.len() + steps) == left_over(
                tree,
                limit,
                rest,
                steps,
            )
        }),
    decreases bottom + 1 - depth, dirs.len(),
{
    let part = within_tree(tree, limit, dirs, depth, bottom);
    if dirs.len() == 0 {
        assert(dirs + rest =~= rest);
        assert(part + handed_out(tree, limit, rest, steps) =~= handed_out(tree, limit, rest, steps));
    } else {
        let below = opened_by(tree, limit, dirs[0]);
        let others = dirs.drop_first();
        let deep = within_tree(tree, limit, below, depth + 1, bottom);
        let wide = within_tree(tree, limit, others, depth, bottom);
        lemma_walk_on(tree, limit, below, others + rest, depth + 1, bottom, wide.len() + steps);
        lemma_walk_on(tree, limit, others, rest, depth, bottom, steps);
        let all = dirs + rest;
        let n = part.len() + steps;
        assert(part.len() == 1 + deep.len() + wide.len());
        assert(all[0] == dirs[0]);
        assert(all.drop_first() =~= others + rest);
        assert(after_next(tree, limit, all) =~= below + (others + rest));
        assert((n - 1) as nat == deep.len() + (wide.len() + steps));
        let tail = handed_out(tree, limit, rest, steps);
        assert(seq![dirs[0]] + (deep + (wide + tail)) =~= ((seq![dirs[0]] + deep) + wide) + tail);
    }
}

/// A walk hands out every directory of the tree within its depth, each at its place in the
/// tree and at no other time, and then ends: the root first, after each directory all those
/// below it, and then the next one beside it. The tree must have an end, which a depth limit
/// gives it too.
pub proof fn walks_hand_out_every_directory_once(
    tree: Listing,
    limit: Option<usize>,
    root: PendingView,
    bottom: nat,
)
    requires
        root.depth == 0,
        ends_by(tree, limit, seq![root], 0, bottom),
    ensures
        ({
            let dirs = within_tree(tree, limit, seq![root], 0, bottom);
            &&& handed_out(tree, limit, seq![root], dirs.len()) == dirs
            &&& left_over(tree, limit, seq![root], dirs.len()) == Seq::<PendingView>::empty()
        }),
{
    let none = Seq::<PendingView>::empty();
    let dirs = within_tree(tree, limit, seq![root], 0, bottom);
    lemma_walk_on(tree, limit, seq![root], none, 0, bottom, 0);
    assert(seq![root] + none =~= seq![root]);
    assert(dirs + handed_out(tree, limit, none, 0) =~= dirs);
}

proof fn lemma_limit_ends(
    tree: Listing,
    limit: usize,
    dirs: Seq<PendingView>,
    depth: nat,
)
    requires
        forall|i: int| 0 <= i < dirs.len() ==> (#[trigger] dirs[i]).depth == depth,
        dirs.len() > 0 ==> depth <= limit,
    ensures
        ends_by(tree, Some(limit), dirs, depth, limit as nat),
    decreases limit + 1 - depth, dirs.len(),
{
    if dirs.len() > 0 {
        let below = opened_by(tree, Some(limit), dirs[0]);
        lemma_subdirs_depth(dirs[0].path, depth + 1, tree(dirs[0].path));
        lemma_limit_ends(tree, limit, below, depth + 1);
        lemma_limit_ends(tree, limit, dirs.drop_first(), depth);
    }
}

proof fn lemma_subdirs_depth(dir: Seq<u8>, depth: nat, children: Seq<Child>)
    ensures
        forall|i: int|
            0 <= i < subdirs(dir, depth, children).len() ==> (#[trigger] subdirs(
                dir,
                depth,
                children,
            )[i]).depth == depth,
    decreases children.len(),
{
    if children.len() > 0 {
        lemma_subdirs_depth(dir, depth, children.drop_last());
        let front = subdirs(dir, depth, children.drop_last());
        let all = subdirs(dir, depth, children);
        assert forall|i: int| 0 <= i < all.len() implies (#[trigger] all[i]).depth == depth by {
            if i < front.len() {
                assert(all[i] == front[i]);
            }
        }
    }
}

/// A walk with a depth limit always ends.
pub proof fn limited_walks_end(tree: Listing, limit: usize, root: PendingView)
    requires
        root.depth == 0,
    ensures
        ends_by(tree, Some(limit), seq![root], 0, limit as nat),
{
    lemma_limit_ends(tree, limit, seq![root], 0);
}

/// Whether a name is that of one entry: it is not empty and holds no separator.
pub open spec fn plain_name(name: Seq<u8>) -> bool {
    name.len() > 0 && !name.contains(paths::SLASH)
}

/// Whether the children of every directory are listed as a system lists them: under plain
/// names, and each name once.
pub open spec fn well_listed(tree: Listing) -> bool {
    &&& forall|dir: Seq<u8>, i: int|
        0 <= i < tree(dir).len() ==> ((#[trigger] tree(dir)[i]) matches Child::Found { name, .. }
            ==> plain_name(name@))
    &&& forall|dir: Seq<u8>, i: int, j: int|
        0 <= i < j < tree(dir).len() ==> !same_name(#[trigger] tree(dir)[i], #[trigger] tree(dir)[j])
}

/// Whether two children have the same name.
pub open spec fn same_name(a: Child, b: Child) -> bool {
    match (a, b) {
        (Child::Found { name: x, .. }, Child::Found { name: y, .. }) => x@ == y@,
        _ => false,
    }
}

/// Whether `p` is the directory `d` or lies below it.
spec fn under(d: Seq<u8>, p: Seq<u8>) -> bool {
    p == d || (p.len() > d.len() && p.take(d.len() as int) == d && p[d.len() as int]
        == paths::SLASH)
}

/// Whether nothing lies below two directories at once.
spec fn apart(a: Seq<u8>, b: Seq<u8>) -> bool {
    forall|p: Seq<u8>| !(#[trigger] under(a, p) && #[trigger] under(b, p))
}

/// Whether no directory of a list lies below another, and each ends with a name.
spec fn separate(dirs: Seq<PendingView>) -> bool {
    &&& forall|i: int|
        0 <= i < dirs.len() ==> (#[trigger] dirs[i]).path.len() > 0 && dirs[i].path.last()
            != paths::SLASH
    &&& forall|i: int, j: int|
        0 <= i < j < dirs.len() ==> apart((#[trigger] dirs[i]).path, (#[trigger] dirs[j]).path)
}

/// What the path of a directory is followed by in the paths of its children.
spec fn stem(dir: Seq<u8>) -> Seq<u8> {
    if dir.len() == 0 || dir.last() == paths::SLASH {
        dir
    } else {
        dir.push(paths::SLASH)
    }
}

proof fn lemma_names_apart(head: Seq<u8>, a: Seq<u8>, b: Seq<u8>)
    requires
        plain_name(a),
        plain_name(b),
        a != b,
    ensures
        apart(head + a, head + b),
{
    assert forall|p: Seq<u8>| !(#[trigger] under(head + a, p) && #[trigger] under(head + b, p)) by {
        if under(head + a, p) && under(head + b, p) {
            let n = head.len() as int;
            assert(p.take((head + a).len() as int) =~= head + a);
            assert(p.take((head + b).len() as int) =~= head + b);
            assert forall|i: int| 0 <= i < a.len() implies p[n + i] == a[i] by {
                assert(p.take((head + a).len() as int)[n + i] == a[i]);
            }
            assert forall|i: int| 0 <= i < b.len() implies p[n + i] == b[i] by {
                assert(p.take((head + b).len() as int)[n + i] == b[i]);
            }
            if a.len() < b.len() {
                assert(p[n + a.len()] == b[a.len() as int]);
                assert(b.contains(b[a.len() as int]));
            } else if b.len() < a.len() {
                assert(p[n + b.len()] == a[b.len() as int]);
                assert(a.contains(a[b.len() as int]));
            } else {
                assert(a =~= b);
            }
        }
    }
}

proof fn lemma_subdirs_separate(tree: Listing, dir: Seq<u8>, depth: nat, n: int)
    requires
        well_listed(tree),
        0 <= n <= tree(dir).len(),
    ensures
        ({
            let dirs = subdirs(dir, depth, tree(dir).take(n));
            &&& separate(dirs)
            &&& forall|i: int|
                0 <= i < dirs.len() ==> exists|k: int|
                    0 <= k < n && child_path(dir, #[trigger] tree(dir)[k], (
                    #[trigger] dirs[i]).path)
        }),
    decreases n,
{
    let children = tree(dir).take(n);
    let dirs = subdirs(dir, depth, children);
    if n > 0 {
        let front = subdirs(dir, depth, tree(dir).take(n - 1));
        lemma_subdirs_separate(tree, dir, depth, n - 1);
        assert(children.drop_last() =~= tree(dir).take(n - 1));
        let c = tree(dir)[n - 1];
        assert(children.last() == c);
        if c is Found && report_is_dir(c->report) {
            let name = c->name@;
            assert(plain_name(name));
            assert(!paths::absolute(name)) by {
                assert(name.contains(name[0]));
            }
            let path = paths::joined(dir, name);
            assert(path =~= stem(dir) + name);
            assert(name.contains(name.last()));
            assert(child_path(dir, c, path));
            assert forall|i: int| 0 <= i < dirs.len() implies exists|k: int|
                0 <= k < n && child_path(dir, #[trigger] tree(dir)[k], (#[trigger] dirs[i]).path) by {
                if i < front.len() {
                    assert(dirs[i] == front[i]);
                    let k = choose|k: int|
                        0 <= k < n - 1 && child_path(dir, #[trigger] tree(dir)[k], front[i].path);
                    assert(child_path(dir, tree(dir)[k], dirs[i].path));
                } else {
                    assert(child_path(dir, tree(dir)[n - 1], dirs[i].path));
                }
            }
            assert forall|i: int, j: int| 0 <= i < j < dirs.len() implies apart(
                (#[trigger] dirs[i]).path,
                (#[trigger] dirs[j]).path,
            ) by {
                assert(dirs[i] == front[i]);
                if j < front.len() {
                    assert(dirs[j] == front[j]);
                } else {
                    let k = choose|k: int|
                        0 <= k < n - 1 && child_path(dir, #[trigger] tree(dir)[k], front[i].path);
                    let other = tree(dir)[k]->name@;
                    assert(!same_name(tree(dir)[k], tree(dir)[n - 1]));
                    lemma_names_apart(stem(dir), other, name);
                }
            }
            assert forall|i: int| 0 <= i < dirs.len() implies (#[trigger] dirs[i]).path.len() > 0
                && dirs[i].path.last() != paths::SLASH by {
                if i < front.len() {
                    assert(dirs[i] == front[i]);
                }
            }
        } else {
            assert(dirs == front);
            assert forall|i: int| 0 <= i < dirs.len() implies exists|k: int|
                0 <= k < n && child_path(dir, #[trigger] tree(dir)[k], (#[trigger] dirs[i]).path) by {
                let k = choose|k: int|
                    0 <= k < n - 1 && child_path(dir, #[trigger] tree(dir)[k], front[i].path);
                assert(child_path(dir, tree(dir)[k], dirs[i].path));
            }
        }
    }
}

/// Whether `p` is the path of a child of `dir`.
spec fn child_path(dir: Seq<u8>, child: Child, p: Seq<u8>) -> bool {
    child matches Child::Found { name, .. } && plain_name(name@) && p == stem(dir) + name@
}

proof fn lemma_opened(tree: Listing, limit: Option<usize>, dir: PendingView)
    requires
        well_listed(tree),
    ensures
        separate(opened_by(tree, limit, dir)),
        forall|i: int, p: Seq<u8>|
            0 <= i < opened_by(tree, limit, dir).len() && #[trigger] under(
                opened_by(tree, limit, dir)[i].path,
                p,
            ) ==> p.len() > dir.path.len() && (dir.path.len() > 0 && dir.path.last()
                != paths::SLASH ==> under(dir.path, p)),
{
    let dirs = opened_by(tree, limit, dir);
    if within_depth(limit, dir.depth + 1) {
        let d = dir.path;
        assert(tree(d).take(tree(d).len() as int) =~= tree(d));
        lemma_subdirs_separate(tree, d, dir.depth + 1, tree(d).len() as int);
        assert forall|i: int, p: Seq<u8>|
            0 <= i < dirs.len() && #[trigger] under(dirs[i].path, p) implies p.len() > d.len() && (
        d.len() > 0 && d.last() != paths::SLASH ==> under(d, p)) by {
            let q = dirs[i].path;
            let k = choose|k: int|
                0 <= k < tree(d).len() && child_path(d, #[trigger] tree(d)[k], dirs[i].path);
            let name = tree(d)[k]->name@;
            assert(q == stem(d) + name);
            assert(p.take(q.len() as int) =~= q);
            if d.len() > 0 && d.last() != paths::SLASH {
                assert(p[d.len() as int] == q[d.len() as int]) by {
                    assert(p.take(q.len() as int)[d.len() as int] == q[d.len() as int]);
                }
                assert(p.take(d.len() as int) =~= d) by {
                    assert forall|m: int| 0 <= m < d.len() implies p[m] == d[m] by {
                        assert(p.take(q.len() as int)[m] == q[m]);
                    }
                }
            }
        }
    }
}

proof fn lemma_paths_once(
    tree: Listing,
    limit: Option<usize>,
    dirs: Seq<PendingView>,
    depth: nat,
    bottom: nat,
)
    requires
        well_listed(tree),
        separate(dirs),
    ensures
        ({
            let part = within_tree(tree, limit, dirs, depth, bottom);
            &&& forall|i: int|
                0 <= i < part.len() ==> exists|k: int|
                    0 <= k < dirs.len() && under(
                        (#[trigger] dirs[k]).path,
                        (#[trigger] part[i]).path,
                    )
            &&& forall|i: int, j: int|
                0 <= i < j < part.len() ==> (#[trigger] part[i]).path != (#[trigger] part[j]).path
        }),
    decreases bottom + 1 - depth, dirs.len(),
{
    let part = within_tree(tree, limit, dirs, depth, bottom);
    if dirs.len() > 0 && depth <= bottom {
        let d = dirs[0];
        let below = opened_by(tree, limit, d);
        let others = dirs.drop_first();
        let deep = within_tree(tree, limit, below, depth + 1, bottom);
        let wide = within_tree(tree, limit, others, depth, bottom);
        lemma_opened(tree, limit, d);
        lemma_paths_once(tree, limit, below, depth + 1, bottom);
        assert(separate(others)) by {
            assert forall|i: int| 0 <= i < others.len() implies (#[trigger] others[i]).path.len() > 0
                && others[i].path.last() != paths::SLASH by {
                assert(others[i] == dirs[i + 1]);
            }
            assert forall|i: int, j: int| 0 <= i < j < others.len() implies apart(
                (#[trigger] others[i]).path,
                (#[trigger] others[j]).path,
            ) by {
                assert(others[i] == dirs[i + 1] && others[j] == dirs[j + 1]);
            }
        }
        lemma_paths_once(tree, limit, others, depth, bottom);
        assert(part == (seq![d] + deep) + wide);
        let n = deep.len() as int;
        assert forall|i: int| 0 <= i < part.len() implies (i <= n ==> under(
            d.path,
            (#[trigger] part[i]).path,
        )) && (0 < i <= n ==> part[i] == deep[i - 1] && part[i].path.len() > d.path.len()) && (i > n
            ==> part[i] == wide[i - n - 1]) by {
            if 0 < i <= n {
                assert(part[i] == deep[i - 1]);
                let k = choose|k: int|
                    0 <= k < below.len() && under((#[trigger] below[k]).path, deep[i - 1].path);
                assert(under(below[k].path, part[i].path));
            }
        }
        assert forall|i: int| 0 <= i < part.len() implies exists|k: int|
            0 <= k < dirs.len() && under((#[trigger] dirs[k]).path, (#[trigger] part[i]).path) by {
            if i <= n {
                assert(under(dirs[0].path, part[i].path));
            } else {
                let k = choose|k: int|
                    0 <= k < others.len() && under(
                        (#[trigger] others[k]).path,
                        wide[i - n - 1].path,
                    );
                assert(others[k] == dirs[k + 1]);
                assert(under(dirs[k + 1].path, part[i].path));
            }
        }
        assert forall|i: int, j: int| 0 <= i < j < part.len() implies (#[trigger] part[i]).path != (
        #[trigger] part[j]).path by {
            if j > n {
                let k = choose|k: int|
                    0 <= k < others.len() && under(
                        (#[trigger] others[k]).path,
                        wide[j - n - 1].path,
                    );
                assert(others[k] == dirs[k + 1]);
                assert(under(dirs[k + 1].path, part[j].path));
                if i <= n {
                    assert(apart(dirs[0].path, dirs[k + 1].path));
                    assert(under(dirs[0].path, part[i].path));
                } else {
                    assert(part[i] == wide[i - n - 1] && part[j] == wide[j - n - 1]);
                }
            } else if i == 0 {
                assert(part[0] == d);
            } else {
                assert(part[i] == deep[i - 1] && part[j] == deep[j - 1]);
            }
        }
    }
}

/// The directories that a walk hands out have different paths, where every directory lists
/// its children under plain names and each name once: so no directory is opened twice.
pub proof fn walks_open_no_path_twice(
    tree: Listing,
    limit: Option<usize>,
    root: PendingView,
    bottom: nat,
)
    requires
        well_listed(tree),
    ensures
        forall|i: int, j: int|
            0 <= i < j < within_tree(tree, limit, seq![root], 0, bottom).len() ==> (
            #[trigger] within_tree(tree, limit, seq![root], 0, bottom)[i]).path != (
            #[trigger] within_tree(tree, limit, seq![root], 0, bottom)[j]).path,
{
    let part = within_tree(tree, limit, seq![root], 0, bottom);
    let below = opened_by(tree, limit, root);
    let deep = within_tree(tree, limit, below, 1, bottom);
    lemma_opened(tree, limit, root);
    lemma_paths_once(tree, limit, below, 1, bottom);
    assert(seq![root].drop_first() =~= Seq::<PendingView>::empty());
    assert(within_tree(tree, limit, seq![root].drop_first(), 0, bottom) =~= Seq::<
        PendingView,
    >::empty());
    assert(part =~= seq![root] + deep);
    assert forall|i: int, j: int| 0 <= i < j < part.len() implies (#[trigger] part[i]).path != (
    #[trigger] part[j]).path by {
        assert(part[j] == deep[j - 1]);
        if i == 0 {
            let k = choose|k: int|
                0 <= k < below.len() && under((#[trigger] below[k]).path, deep[j - 1].path);
            assert(under(below[k].path, part[j].path));
        } else {
            assert(part[i] == deep[i - 1]);
        }
    }
}

/// The subdirectories of a directory are those of its children that are directories, in their
/// order, each under its own name: every one of them, and nothing else.
pub proof fn every_subdirectory_is_opened(
    dir: Seq<u8>,
    depth: nat,
    a: Seq<Child>,
    b: Seq<Child>,
    child: Child,
)
    ensures
        subdirs(dir, depth, a + b) == subdirs(dir, depth, a) + subdirs(dir, depth, b),
        subdirs(dir, depth, Seq::empty()) == Seq::<PendingView>::empty(),
        child is Unreadable ==> subdirs(dir, depth, seq![child]) == Seq::<PendingView>::empty(),
        child matches Child::Found { name, report } ==> subdirs(dir, depth, seq![child]) == if (
        match report {
            ChildReport::Metadata { is_dir, .. } => is_dir,
            ChildReport::TypeOnly { is_dir } => is_dir,
        }) {
            seq![PendingView { path: paths::joined(dir, name@), depth }]
        } else {
            Seq::<PendingView>::empty()
        },
    decreases b.len(),
{
    let none = Seq::<PendingView>::empty();
    assert(subdirs(dir, depth, Seq::empty()) =~= none);
    assert(seq![child].drop_last() =~= Seq::<Child>::empty());
    assert(subdirs(dir, depth, seq![child].drop_last()) == none);
    if child is Found {
        let item = PendingView { path: paths::joined(dir, child->name@), depth };
        assert(none.push(item) =~= seq![item]);
    }
    if b.len() == 0 {
        assert(a + b =~= a);
        assert(subdirs(dir, depth, a) + subdirs(dir, depth, b) =~= subdirs(dir, depth, a));
    } else {
        every_subdirectory_is_opened(dir, depth, a, b.drop_last(), child);
        assert((a + b).drop_last() =~= a + b.drop_last());
        assert((a + b).last() == b.last());
        assert(subdirs(dir, depth, a + b) =~= subdirs(dir, depth, a) + subdirs(dir, depth, b));
    }
}

/// What a walk opens below a directory are all its subdirectories, one level deeper, as long as
/// that is not deeper than the limit.
pub proof fn limits_bound_the_depth(tree: Listing, limit: Option<usize>, dir: PendingView)
    ensures
        (limit matches Some(n) ==> dir.depth < n) ==> opened_by(tree, limit, dir) == subdirs(
            dir.path,
            dir.depth + 1,
            tree(dir.path),
        ),
        (limit matches Some(n) && dir.depth >= n) ==> opened_by(tree, limit, dir) == Seq::<
            PendingView,
        >::empty(),
{
}

/// A child is reported under its directory and its own name, as a directory where it is one, and
/// with its size where it is a regular file.
pub proof fn children_are_reported_as_they_are(dir: Seq<u8>, child: Child)
    ensures
        emitted(dir, child) is Err <==> child is Unreadable,
        child matches Child::Found { name, report } ==> emitted(dir, child) matches Ok(e) && {
            &&& e.path == paths::joined(dir, name@)
            &&& report matches ChildReport::Metadata { is_dir, is_file, size } ==> e.is_dir
                == is_dir && (e.size_bytes is Some <==> is_file) && (e.size_bytes matches Some(n)
                ==> n == size)
            &&& report matches ChildReport::TypeOnly { is_dir } ==> e.is_dir == is_dir
                && e.size_bytes is None
        },
{
}

} // verus!
