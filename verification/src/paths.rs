//! Unix paths as byte strings: their components, their order and the ways they
//! are put together.
//!
//! A path is read as its components: a leading `/` is the root, repeated
//! separators count once, and `.` is dropped unless it opens a relative path.
use vstd::prelude::*;

verus! {

/// The byte that separates components.
pub const SLASH: u8 = 47;

/// The byte `.`.
pub const DOT: u8 = 46;

/// One component of a path, as a value of contracts.
#[verifier::ext_equal]
pub enum Part {
    Root,
    Cur,
    Parent,
    Normal(Seq<u8>),
}

/// One component of a path.
#[derive(Debug)]
pub enum Component {
    /// The leading `/`.
    RootDir,
    /// A `.` that opens a relative path.
    CurDir,
    /// `..`
    ParentDir,
    /// Any other name.
    Normal(Vec<u8>),
}

impl View for Component {
    type V = Part;

    open spec fn view(&self) -> Part {
        match self {
            Component::RootDir => Part::Root,
            Component::CurDir => Part::Cur,
            Component::ParentDir => Part::Parent,
            Component::Normal(name) => Part::Normal(name@),
        }
    }
}

/// What is said of a component is what it holds.
pub proof fn components_are_seen_as_read(c: Component)
    ensures
        match c {
            Component::RootDir => c@ == (Part::Root),
            Component::CurDir => c@ == (Part::Cur),
            Component::ParentDir => c@ == (Part::Parent),
            Component::Normal(name) => c@ == (Part::Normal(name@)),
        },
{
}

/// Where the first separator of `s` stands; the length of `s` where it has none.
pub open spec fn first_slash(s: Seq<u8>) -> int
    decreases s.len(),
{
    if s.len() == 0 || s[0] == SLASH {
        0
    } else {
        1 + first_slash(s.drop_first())
    }
}

/// The pieces of `s` between separators, empty ones among them.
pub open spec fn segments(s: Seq<u8>) -> Seq<Seq<u8>>
    decreases s.len(),
{
    let k = first_slash(s);
    if k < 0 || k >= s.len() {
        seq![s]
    } else {
        seq![s.take(k)] + segments(s.skip(k + 1))
    }
}

/// The component that a piece stands for, wherever in a path it is: none for an
/// empty piece and for `.`.
pub open spec fn piece_parts(piece: Seq<u8>) -> Seq<Part> {
    if piece.len() == 0 || piece == seq![DOT] {
        Seq::empty()
    } else if piece == seq![DOT, DOT] {
        seq![Part::Parent]
    } else {
        seq![Part::Normal(piece)]
    }
}

/// The components of a list of pieces.
pub open spec fn pieces_parts(pieces: Seq<Seq<u8>>) -> Seq<Part>
    decreases pieces.len(),
{
    if pieces.len() == 0 {
        Seq::empty()
    } else {
        piece_parts(pieces[0]) + pieces_parts(pieces.drop_first())
    }
}

/// Whether `s` starts at the root.
pub open spec fn absolute(s: Seq<u8>) -> bool {
    s.len() > 0 && s[0] == SLASH
}

/// What stands before the named components: the root, or the `.` that opens a
/// relative path.
pub open spec fn head_parts(s: Seq<u8>) -> Seq<Part> {
    if absolute(s) {
        seq![Part::Root]
    } else if segments(s)[0] == seq![DOT] {
        seq![Part::Cur]
    } else {
        Seq::empty()
    }
}

/// The components of a path.
pub open spec fn parts(s: Seq<u8>) -> Seq<Part> {
    head_parts(s) + pieces_parts(segments(s))
}

/// The components of a list, taken one by one.
pub open spec fn component_views(v: Seq<Component>) -> Seq<Part> {
    Seq::new(v.len(), |i: int| v[i]@)
}

/// The components of a list are its own, one by one.
pub proof fn components_are_seen_one_by_one(v: Seq<Component>)
    ensures
        component_views(v).len() == v.len(),
        forall|i: int| 0 <= i < v.len() ==> component_views(v)[i] == (#[trigger] v[i])@,
{
}

proof fn lemma_first_slash(s: Seq<u8>)
    ensures
        0 <= first_slash(s) <= s.len(),
        forall|i: int| 0 <= i < first_slash(s) ==> s[i] != SLASH,
        first_slash(s) < s.len() ==> s[first_slash(s)] == SLASH,
    decreases s.len(),
{
    if s.len() > 0 && s[0] != SLASH {
        lemma_first_slash(s.drop_first());
        assert forall|i: int| 0 <= i < first_slash(s) implies s[i] != SLASH by {
            if i > 0 {
                assert(s[i] == s.drop_first()[i - 1]);
            }
        }
    }
}

proof fn lemma_first_slash_is(s: Seq<u8>, k: int)
    requires
        0 <= k <= s.len(),
        forall|i: int| 0 <= i < k ==> s[i] != SLASH,
        k < s.len() ==> s[k] == SLASH,
    ensures
        first_slash(s) == k,
{
    lemma_first_slash(s);
    let f = first_slash(s);
    if f < k {
        assert(s[f] != SLASH);
    }
    if k < f {
        assert(s[k] != SLASH);
    }
}

/// Where the first separator at or after `from` stands, or the length.
fn find_slash(path: &[u8], from: usize) -> (k: usize)
    requires
        from <= path@.len(),
    ensures
        from <= k <= path@.len(),
        k - from == first_slash(path@.skip(from as int)),
{
    let mut k: usize = from;
    while k < path.len() && path[k] != SLASH
        invariant
            from <= k <= path@.len(),
            forall|i: int| from <= i < k ==> path@[i] != SLASH,
        decreases path@.len() - k,
    {
        k = k + 1;
    }
    proof {
        lemma_first_slash_is(path@.skip(from as int), k - from);
    }
    k
}

/// Copies `s[from..to]`.
pub fn copy_range(s: &[u8], from: usize, to: usize) -> (v: Vec<u8>)
    requires
        from <= to <= s@.len(),
    ensures
        v@ == s@.subrange(from as int, to as int),
{
    vstd::slice::slice_to_vec(vstd::slice::slice_subrange(s, from, to))
}

/// The components of a path, in order.
pub fn components(path: &[u8]) -> (r: Vec<Component>)
    ensures
        component_views(r@) == parts(path@),
{
    let mut r: Vec<Component> = Vec::new();
    let first_end = find_slash(path, 0);
    proof {
        assert(path@.skip(0) =~= path@);
    }
    if path.len() > 0 && path[0] == SLASH {
        r.push(Component::RootDir);
        assert(component_views(r@) =~= head_parts(path@));
    } else if first_end == 1 && path[0] == DOT {
        proof {
            assert(segments(path@)[0] =~= seq![DOT]);
        }
        r.push(Component::CurDir);
        assert(component_views(r@) =~= head_parts(path@));
    } else {
        proof {
            if segments(path@)[0] == seq![DOT] {
                assert(segments(path@)[0].len() == 1);
                assert(segments(path@)[0][0] == DOT);
            }
            assert(component_views(r@) =~= head_parts(path@));
        }
    }
    let ghost head = component_views(r@);
    let mut start: usize = 0;
    let mut more = true;
    while more
        invariant
            start <= path@.len(),
            more ==> component_views(r@) + pieces_parts(segments(path@.skip(start as int))) == head
                + pieces_parts(segments(path@)),
            !more ==> component_views(r@) == head + pieces_parts(segments(path@)),
        decreases path@.len() - start + if more { 1int } else { 0int },
    {
        let end = find_slash(path, start);
        let ghost rest = path@.skip(start as int);
        let ghost before = component_views(r@);
        let ghost piece = path@.subrange(start as int, end as int);
        proof {
            lemma_first_slash(rest);
            assert(piece =~= rest.take(end - start));
            assert(piece_parts(piece) =~= if piece.len() == 0 || piece == seq![DOT] {
                Seq::<Part>::empty()
            } else if piece == seq![DOT, DOT] {
                seq![Part::Parent]
            } else {
                seq![Part::Normal(piece)]
            });
        }
        if end == start || (end - start == 1 && path[start] == DOT) {
            proof {
                if piece.len() == 1 {
                    assert(piece =~= seq![DOT]);
                }
                assert(component_views(r@) =~= before + piece_parts(piece));
            }
        } else if end - start == 2 && path[start] == DOT && path[start + 1] == DOT {
            r.push(Component::ParentDir);
            proof {
                assert(piece =~= seq![DOT, DOT]);
                assert(piece.len() == 2);
                assert(seq![DOT].len() == 1);
                assert(component_views(r@) =~= before + piece_parts(piece));
            }
        } else {
            let name = copy_range(path, start, end);
            r.push(Component::Normal(name));
            proof {
                if piece == seq![DOT] {
                    assert(piece.len() == 1 && piece[0] == DOT);
                }
                if piece == seq![DOT, DOT] {
                    assert(piece.len() == 2 && piece[0] == DOT && piece[1] == DOT);
                }
                assert(component_views(r@) =~= before + piece_parts(piece));
            }
        }
        if end < path.len() {
            proof {
                let next = path@.skip(end + 1);
                assert(rest.skip(end - start + 1) =~= next);
                let all = segments(rest);
                assert(all == seq![piece] + segments(next));
                assert(all.drop_first() =~= segments(next));
                assert(all[0] == piece);
                assert(before + (piece_parts(piece) + pieces_parts(segments(next))) =~= (before
                    + piece_parts(piece)) + pieces_parts(segments(next)));
            }
            start = end + 1;
        } else {
            proof {
                assert(rest =~= piece);
                assert(segments(rest) == seq![rest]);
                assert(seq![rest].drop_first() =~= Seq::<Seq<u8>>::empty());
                assert(pieces_parts(Seq::<Seq<u8>>::empty()) =~= Seq::<Part>::empty());
                assert(pieces_parts(seq![rest]) =~= piece_parts(piece));
            }
            more = false;
        }
    }
    r
}

/// Whether a path starts at the root.
pub fn is_absolute(path: &[u8]) -> (r: bool)
    ensures
        r == absolute(path@),
        r <==> path@.len() > 0 && path@[0] == 47,
{
    path.len() > 0 && path[0] == SLASH
}

/// Whether `..` is among the components of a path.
pub open spec fn climbs(s: Seq<u8>) -> bool {
    exists|i: int| 0 <= i < parts(s).len() && #[trigger] parts(s)[i] == Part::Parent
}

/// Whether `..` is among the components of a path.
pub fn has_parent_dir(path: &[u8]) -> (r: bool)
    ensures
        r == climbs(path@),
        r <==> parts(path@).contains(Part::Parent),
{
    let all = components(path);
    let mut i: usize = 0;
    while i < all.len()
        invariant
            i <= all@.len(),
            component_views(all@) == parts(path@),
            forall|j: int| 0 <= j < i ==> #[trigger] parts(path@)[j] != Part::Parent,
        decreases all@.len() - i,
    {
        assert(component_views(all@)[i as int] == all@[i as int]@);
        match &all[i] {
            Component::ParentDir => {
                assert(parts(path@)[i as int] == Part::Parent);
                return true;
            },
            _ => {},
        }
        i = i + 1;
    }
    assert(component_views(all@).len() == all@.len());
    false
}

/// Whether two byte strings are equal.
pub fn same_bytes(a: &[u8], b: &[u8]) -> (r: bool)
    ensures
        r == (a@ == b@),
{
    if a.len() != b.len() {
        return false;
    }
    let mut i: usize = 0;
    while i < a.len()
        invariant
            a@.len() == b@.len(),
            i <= a@.len(),
            forall|j: int| 0 <= j < i ==> a@[j] == b@[j],
        decreases a@.len() - i,
    {
        if a[i] != b[i] {
            return false;
        }
        i = i + 1;
    }
    assert(a@ =~= b@);
    true
}

/// Whether two components are equal.
fn same_component(a: &Component, b: &Component) -> (r: bool)
    ensures
        r == (a@ == b@),
{
    match (a, b) {
        (Component::RootDir, Component::RootDir) => true,
        (Component::CurDir, Component::CurDir) => true,
        (Component::ParentDir, Component::ParentDir) => true,
        (Component::Normal(x), Component::Normal(y)) => same_bytes(x, y),
        _ => false,
    }
}

/// Whether the components of `base` open those of `path`.
pub open spec fn under(path: Seq<u8>, base: Seq<u8>) -> bool {
    parts(base).is_prefix_of(parts(path))
}

/// Whether `base` is `path` itself or a directory above it, component by component.
pub fn starts_with(path: &[u8], base: &[u8]) -> (r: bool)
    ensures
        r == under(path@, base@),
        r <==> parts(base@).len() <= parts(path@).len() && forall|i: int|
            0 <= i < parts(base@).len() ==> #[trigger] parts(base@)[i] == parts(path@)[i],
{
    let p = components(path);
    let b = components(base);
    proof {
        assert(component_views(p@).len() == p@.len());
        assert(component_views(b@).len() == b@.len());
    }
    if b.len() > p.len() {
        return false;
    }
    let mut i: usize = 0;
    while i < b.len()
        invariant
            i <= b@.len() <= p@.len(),
            component_views(p@) == parts(path@),
            component_views(b@) == parts(base@),
            forall|j: int| 0 <= j < i ==> parts(path@)[j] == parts(base@)[j],
        decreases b@.len() - i,
    {
        proof {
            assert(component_views(p@)[i as int] == p@[i as int]@);
            assert(component_views(b@)[i as int] == b@[i as int]@);
        }
        if !same_component(&p[i], &b[i]) {
            proof {
                if under(path@, base@) {
                    assert(parts(base@)[i as int] == parts(path@).subrange(
                        0,
                        parts(base@).len() as int,
                    )[i as int]);
                }
            }
            return false;
        }
        i = i + 1;
    }
    proof {
        assert(component_views(b@).len() == b@.len());
        assert(component_views(p@).len() == p@.len());
        assert(parts(base@) =~= parts(path@).subrange(0, parts(base@).len() as int));
    }
    true
}

/// Whether `a` comes before `b` byte by byte, a proper prefix first.
pub open spec fn bytes_before(a: Seq<u8>, b: Seq<u8>) -> bool
    decreases a.len(),
{
    if b.len() == 0 {
        false
    } else if a.len() == 0 {
        true
    } else if a[0] == b[0] {
        bytes_before(a.drop_first(), b.drop_first())
    } else {
        a[0] < b[0]
    }
}

/// The place of a component's kind among the kinds.
pub open spec fn rank(p: Part) -> int {
    match p {
        Part::Root => 0,
        Part::Cur => 1,
        Part::Parent => 2,
        Part::Normal(_) => 3,
    }
}

/// Whether component `p` comes before component `q`.
pub open spec fn part_before(p: Part, q: Part) -> bool {
    match (p, q) {
        (Part::Normal(x), Part::Normal(y)) => bytes_before(x, y),
        _ => rank(p) < rank(q),
    }
}

/// Whether `a` comes before `b` component by component, a proper prefix first.
pub open spec fn parts_before(a: Seq<Part>, b: Seq<Part>) -> bool
    decreases a.len(),
{
    if b.len() == 0 {
        false
    } else if a.len() == 0 {
        true
    } else if a[0] == b[0] {
        parts_before(a.drop_first(), b.drop_first())
    } else {
        part_before(a[0], b[0])
    }
}

/// Whether path `a` comes before path `b` in the order that directory walks use.
pub open spec fn path_before(a: Seq<u8>, b: Seq<u8>) -> bool {
    parts_before(parts(a), parts(b))
}

proof fn lemma_bytes_order(a: Seq<u8>, b: Seq<u8>, c: Seq<u8>)
    ensures
        !bytes_before(a, a),
        bytes_before(a, b) && bytes_before(b, c) ==> bytes_before(a, c),
        bytes_before(a, b) || bytes_before(b, a) || a == b,
    decreases a.len(),
{
    if a.len() > 0 {
        lemma_bytes_order(a.drop_first(), b.drop_first(), c.drop_first());
        if b.len() > 0 && a[0] == b[0] && a.drop_first() == b.drop_first() {
            assert(a =~= seq![a[0]] + a.drop_first());
            assert(b =~= seq![b[0]] + b.drop_first());
        }
    } else if b.len() == 0 {
        assert(a =~= b);
    }
}

proof fn lemma_part_order(a: Part, b: Part, c: Part)
    ensures
        !part_before(a, a),
        part_before(a, b) && part_before(b, c) ==> part_before(a, c),
        part_before(a, b) || part_before(b, a) || a == b,
{
    match (a, b, c) {
        (Part::Normal(x), Part::Normal(y), Part::Normal(z)) => {
            lemma_bytes_order(x, y, z);
        },
        (Part::Normal(x), Part::Normal(y), _) => {
            lemma_bytes_order(x, y, y);
        },
        (Part::Normal(x), _, _) => {
            lemma_bytes_order(x, x, x);
        },
        _ => {},
    }
}

proof fn lemma_parts_order(a: Seq<Part>, b: Seq<Part>, c: Seq<Part>)
    ensures
        !parts_before(a, a),
        parts_before(a, b) && parts_before(b, c) ==> parts_before(a, c),
        parts_before(a, b) || parts_before(b, a) || a == b,
    decreases a.len(),
{
    if a.len() > 0 {
        lemma_parts_order(a.drop_first(), b.drop_first(), c.drop_first());
        if b.len() > 0 {
            lemma_part_order(a[0], b[0], if c.len() > 0 { c[0] } else { a[0] });
            lemma_part_order(b[0], a[0], b[0]);
            if a[0] == b[0] && a.drop_first() == b.drop_first() {
                assert(a =~= seq![a[0]] + a.drop_first());
                assert(b =~= seq![b[0]] + b.drop_first());
            }
        }
    } else if b.len() == 0 {
        assert(a =~= b);
    }
}

/// The order of paths is a strict order: no path precedes itself, and it is
/// transitive. Of two paths with different components one precedes the other.
pub proof fn path_order_is_strict(a: Seq<u8>, b: Seq<u8>, c: Seq<u8>)
    ensures
        !path_before(a, a),
        path_before(a, b) && path_before(b, c) ==> path_before(a, c),
        path_before(a, b) ==> !path_before(b, a),
        path_before(a, b) || path_before(b, a) || parts(a) == parts(b),
{
    lemma_parts_order(parts(a), parts(b), parts(c));
    lemma_parts_order(parts(a), parts(b), parts(a));
}

/// Whether `a` comes before `b` byte by byte.
pub fn bytes_precede(a: &[u8], b: &[u8]) -> (r: bool)
    ensures
        r == bytes_before(a@, b@),
{
    let mut i: usize = 0;
    proof {
        assert(a@.skip(0) =~= a@);
        assert(b@.skip(0) =~= b@);
    }
    while i < a.len() && i < b.len() && a[i] == b[i]
        invariant
            i <= a@.len(),
            i <= b@.len(),
            bytes_before(a@, b@) == bytes_before(a@.skip(i as int), b@.skip(i as int)),
        decreases a@.len() - i,
    {
        proof {
            assert(a@.skip(i as int).drop_first() =~= a@.skip(i + 1));
            assert(b@.skip(i as int).drop_first() =~= b@.skip(i + 1));
        }
        i = i + 1;
    }
    if i >= b.len() {
        false
    } else if i >= a.len() {
        true
    } else {
        a[i] < b[i]
    }
}

/// The place of a component's kind among the kinds.
fn kind_rank(c: &Component) -> (r: u8)
    ensures
        r == rank(c@),
{
    match c {
        Component::RootDir => 0,
        Component::CurDir => 1,
        Component::ParentDir => 2,
        Component::Normal(_) => 3,
    }
}

/// Whether component `a` comes before component `b`.
fn component_precedes(a: &Component, b: &Component) -> (r: bool)
    ensures
        r == part_before(a@, b@),
{
    match (a, b) {
        (Component::Normal(x), Component::Normal(y)) => bytes_precede(x, y),
        _ => kind_rank(a) < kind_rank(b),
    }
}

/// Whether path `a` comes before path `b` in the order that directory walks use:
/// component by component, and bytewise within a name.
pub fn precedes(a: &[u8], b: &[u8]) -> (r: bool)
    ensures
        r == path_before(a@, b@),
{
    let x = components(a);
    let y = components(b);
    let ghost xs = component_views(x@);
    let ghost ys = component_views(y@);
    let mut i: usize = 0;
    proof {
        assert(xs.skip(0) =~= xs);
        assert(ys.skip(0) =~= ys);
    }
    while i < x.len() && i < y.len() && same_component(&x[i], &y[i])
        invariant
            i <= x@.len(),
            i <= y@.len(),
            xs == component_views(x@),
            ys == component_views(y@),
            parts_before(xs, ys) == parts_before(xs.skip(i as int), ys.skip(i as int)),
        decreases x@.len() - i,
    {
        proof {
            assert(xs.skip(i as int).drop_first() =~= xs.skip(i + 1));
            assert(ys.skip(i as int).drop_first() =~= ys.skip(i + 1));
        }
        i = i + 1;
    }
    if i >= y.len() {
        false
    } else if i >= x.len() {
        true
    } else {
        component_precedes(&x[i], &y[i])
    }
}

/// What `base` joined with `tail` is: `tail` alone where it starts at the root,
/// otherwise both with one separator between them.
pub open spec fn joined(base: Seq<u8>, tail: Seq<u8>) -> Seq<u8> {
    if absolute(tail) {
        tail
    } else if base.len() == 0 || base.last() == SLASH {
        base + tail
    } else {
        base.push(SLASH) + tail
    }
}

/// Appends `tail` to `base` as a path.
pub fn join(base: &[u8], tail: &[u8]) -> (r: Vec<u8>)
    ensures
        r@ == joined(base@, tail@),
        tail@.len() > 0 && tail@[0] == 47 ==> r@ == tail@,
        !(tail@.len() > 0 && tail@[0] == 47) ==> r@ == base@ + (if base@.len() > 0 && base@.last()
            != 47 {
            seq![47u8]
        } else {
            Seq::<u8>::empty()
        }) + tail@,
{
    if is_absolute(tail) {
        return vstd::slice::slice_to_vec(tail);
    }
    let mut r = vstd::slice::slice_to_vec(base);
    if base.len() > 0 && base[base.len() - 1] != SLASH {
        r.push(SLASH);
    }
    let mut t = vstd::slice::slice_to_vec(tail);
    r.append(&mut t);
    r
}

/// The name that ends a path: its last component, where that is a name.
pub open spec fn final_name(s: Seq<u8>) -> Option<Seq<u8>> {
    let p = parts(s);
    if p.len() > 0 {
        match p.last() {
            Part::Normal(name) => Some(name),
            _ => None,
        }
    } else {
        None
    }
}

/// The name that ends a path, where its last component is a name.
pub fn file_name(path: &[u8]) -> (r: Option<Vec<u8>>)
    ensures
        r is Some <==> final_name(path@) is Some,
        r is Some ==> final_name(path@) == Some(r->0@),
{
    let mut all = components(path);
    proof {
        assert(component_views(all@).len() == all@.len());
        if all@.len() > 0 {
            assert(component_views(all@).last() == all@.last()@);
        }
    }
    match all.pop() {
        Some(Component::Normal(name)) => Some(name),
        _ => None,
    }
}

/// Whether the components in `v` are the first `n` of `w`.
fn opens_with(v: &Vec<Component>, w: &Vec<Component>, n: usize) -> (r: bool)
    requires
        n <= w@.len(),
    ensures
        r == (component_views(v@) == component_views(w@).take(n as int)),
{
    if v.len() != n {
        proof {
            assert(component_views(v@).len() != component_views(w@).take(n as int).len());
        }
        return false;
    }
    let mut i: usize = 0;
    while i < n
        invariant
            i <= n == v@.len(),
            n <= w@.len(),
            forall|j: int| 0 <= j < i ==> component_views(v@)[j] == component_views(w@)[j],
        decreases n - i,
    {
        if !same_component(&v[i], &w[i]) {
            proof {
                assert(component_views(v@)[i as int] != component_views(w@).take(n as int)[i as int]);
            }
            return false;
        }
        i = i + 1;
    }
    assert(component_views(v@) =~= component_views(w@).take(n as int));
    true
}

/// The length of the shortest prefix of `s`, `from` bytes or longer, whose
/// components are `target`; the length of `s` where there is none.
pub open spec fn prefix_with(s: Seq<u8>, target: Seq<Part>, from: int) -> int
    decreases s.len() - from,
{
    if from >= s.len() || parts(s.take(from)) == target {
        from
    } else {
        prefix_with(s, target, from + 1)
    }
}

/// The directory that holds a path: the path up to the end of the component
/// before the last. A path without components, and the root, have none.
pub open spec fn parent_of(s: Seq<u8>) -> Option<Seq<u8>> {
    let p = parts(s);
    if p.len() == 0 || p.last() == Part::Root {
        None
    } else {
        Some(s.take(prefix_with(s, p.drop_last(), 0)))
    }
}

/// The directory that holds a path.
pub fn parent(path: &[u8]) -> (r: Option<Vec<u8>>)
    ensures
        r is Some <==> parent_of(path@) is Some,
        r is Some ==> parent_of(path@) == Some(r->0@),
{
    let all = components(path);
    proof {
        assert(component_views(all@).len() == all@.len());
    }
    if all.len() == 0 {
        return None;
    }
    let n = all.len() - 1;
    assert(component_views(all@).last() == all@[n as int]@);
    match &all[n] {
        Component::RootDir => {
            return None;
        },
        _ => {},
    }
    let ghost target = parts(path@).drop_last();
    assert(component_views(all@).take(n as int) =~= target);
    let mut k: usize = 0;
    while k < path.len()
        invariant
            k <= path@.len(),
            n < all@.len(),
            component_views(all@).take(n as int) == target,
            prefix_with(path@, target, 0) == prefix_with(path@, target, k as int),
            parent_of(path@) == Some(path@.take(prefix_with(path@, target, 0))),
        decreases path@.len() - k,
    {
        let head = copy_range(path, 0, k);
        assert(head@ =~= path@.take(k as int));
        let found = components(&head);
        if opens_with(&found, &all, n) {
            return Some(head);
        }
        k = k + 1;
    }
    let whole = copy_range(path, 0, path.len());
    assert(whole@ =~= path@.take(path@.len() as int));
    Some(whole)
}

// ---- What holds of parents -------------------------------------------------------

/// Whether a byte string holds no separator.
spec fn unbroken(s: Seq<u8>) -> bool {
    forall|i: int| 0 <= i < s.len() ==> s[i] != SLASH
}

proof fn lemma_segments_end(a: Seq<u8>, x: Seq<u8>)
    requires
        unbroken(x),
    ensures
        segments(a.push(SLASH) + x) == segments(a).push(x),
    decreases a.len(),
{
    let t = a.push(SLASH) + x;
    let k = first_slash(a);
    lemma_first_slash(a);
    assert forall|i: int| 0 <= i < k implies t[i] != SLASH by {
        assert(t[i] == a[i]);
    }
    lemma_first_slash_is(t, k);
    if k < a.len() {
        lemma_segments_end(a.skip(k + 1), x);
        assert(t.take(k) =~= a.take(k));
        assert(t.skip(k + 1) =~= a.skip(k + 1).push(SLASH) + x);
        assert(segments(t) =~= segments(a).push(x));
    } else {
        assert(t.take(k) =~= a);
        assert(t.skip(k + 1) =~= x);
        lemma_first_slash_is(x, x.len() as int);
        assert(segments(x) =~= seq![x]);
        assert(segments(a) =~= seq![a]);
        assert(segments(t) =~= seq![a] + seq![x]);
        assert(segments(t) =~= segments(a).push(x));
    }
}

proof fn lemma_pieces_end(pieces: Seq<Seq<u8>>, x: Seq<u8>)
    ensures
        pieces_parts(pieces.push(x)) == pieces_parts(pieces) + piece_parts(x),
    decreases pieces.len(),
{
    let all = pieces.push(x);
    if pieces.len() > 0 {
        lemma_pieces_end(pieces.drop_first(), x);
        assert(all.drop_first() =~= pieces.drop_first().push(x));
        assert(pieces_parts(all) =~= pieces_parts(pieces) + piece_parts(x));
    } else {
        assert(all.drop_first() =~= Seq::<Seq<u8>>::empty());
        assert(pieces_parts(all.drop_first()) =~= Seq::<Part>::empty());
        assert(pieces_parts(all) =~= piece_parts(x));
        assert(pieces_parts(pieces) + piece_parts(x) =~= piece_parts(x));
    }
}

proof fn lemma_parts_end(a: Seq<u8>, x: Seq<u8>)
    requires
        a.len() > 0,
        unbroken(x),
    ensures
        parts(a.push(SLASH) + x) == parts(a) + piece_parts(x),
{
    let t = a.push(SLASH) + x;
    lemma_segments_end(a, x);
    lemma_pieces_end(segments(a), x);
    assert(t[0] == a[0]);
    assert(segments(a).len() > 0);
    assert(segments(t)[0] == segments(a)[0]);
    assert(parts(t) =~= parts(a) + piece_parts(x));
}

/// Where the last separator of `s` stands; -1 where it has none.
spec fn last_slash(s: Seq<u8>) -> int
    decreases s.len(),
{
    if s.len() == 0 || s.last() == SLASH {
        s.len() - 1
    } else {
        last_slash(s.drop_last())
    }
}

proof fn lemma_last_slash(s: Seq<u8>)
    ensures
        -1 <= last_slash(s) < s.len(),
        last_slash(s) >= 0 ==> s[last_slash(s)] == SLASH,
        unbroken(s.skip(last_slash(s) + 1)),
    decreases s.len(),
{
    if s.len() > 0 && s.last() != SLASH {
        lemma_last_slash(s.drop_last());
        let j = last_slash(s);
        let x = s.drop_last().skip(j + 1);
        let tail = s.skip(j + 1);
        assert forall|i: int| 0 <= i < tail.len() implies tail[i] != SLASH by {
            if i < x.len() {
                assert(x[i] == s[j + 1 + i]);
            }
        }
    }
}

proof fn lemma_short_prefix(s: Seq<u8>) -> (k: int)
    requires
        parts(s).len() > 0,
        parts(s).last() != Part::Root,
    ensures
        0 <= k < s.len(),
        parts(s.take(k)) == parts(s).drop_last(),
    decreases s.len(),
{
    let none = Seq::<u8>::empty();
    let j = last_slash(s);
    let x = s.skip(j + 1);
    lemma_last_slash(s);
    assert(pieces_parts(Seq::<Seq<u8>>::empty()) =~= Seq::<Part>::empty());
    lemma_pieces_end(Seq::<Seq<u8>>::empty(), none);
    assert(Seq::<Seq<u8>>::empty().push(none) =~= seq![none]);
    if j < 0 {
        assert(x =~= s);
        lemma_first_slash_is(s, s.len() as int);
        lemma_pieces_end(Seq::<Seq<u8>>::empty(), s);
        assert(Seq::<Seq<u8>>::empty().push(s) =~= seq![s]);
        assert(segments(none) =~= seq![none]);
        assert(parts(none) =~= Seq::<Part>::empty());
        assert(s.len() > 0) by {
            if s.len() == 0 {
                assert(s =~= none);
            }
        }
        assert(parts(s).len() == 1);
        assert(s.take(0) =~= none);
        assert(parts(s).drop_last() =~= Seq::<Part>::empty());
        0
    } else if j == 0 {
        assert(s =~= none.push(SLASH) + x);
        lemma_segments_end(none, x);
        assert(segments(none) =~= seq![none]);
        lemma_pieces_end(seq![none], x);
        assert(parts(s) =~= seq![Part::Root] + piece_parts(x));
        assert(x.len() > 0);
        let root = s.take(1);
        assert(root =~= none.push(SLASH) + none);
        lemma_segments_end(none, none);
        lemma_pieces_end(seq![none], none);
        assert(parts(root) =~= seq![Part::Root]);
        assert(parts(s).drop_last() =~= seq![Part::Root]);
        1
    } else {
        let a = s.take(j);
        assert(s =~= a.push(SLASH) + x);
        lemma_parts_end(a, x);
        if piece_parts(x).len() > 0 {
            assert(parts(s).drop_last() =~= parts(a));
            j
        } else {
            assert(parts(s) =~= parts(a));
            let k = lemma_short_prefix(a);
            assert(a.take(k) =~= s.take(k));
            k
        }
    }
}

proof fn lemma_prefix_found(s: Seq<u8>, target: Seq<Part>, from: int, k: int)
    requires
        0 <= from <= k < s.len(),
        parts(s.take(k)) == target,
    ensures
        from <= prefix_with(s, target, from) <= k,
        parts(s.take(prefix_with(s, target, from))) == target,
    decreases k - from,
{
    if parts(s.take(from)) != target {
        lemma_prefix_found(s, target, from + 1, k);
    }
}

/// The directory that holds a path has all its components but the last, and a shorter
/// path.
pub proof fn parents_drop_the_last_part(s: Seq<u8>)
    requires
        parent_of(s) is Some,
    ensures
        parent_of(s)->0.len() < s.len(),
        parts(parent_of(s)->0) == parts(s).drop_last(),
{
    let k = lemma_short_prefix(s);
    lemma_prefix_found(s, parts(s).drop_last(), 0, k);
}

// ---- What holds of components ----------------------------------------------------

/// A path of one piece has that piece as its component; a leading slash is the root.
pub proof fn single_pieces_are_components(x: Seq<u8>)
    requires
        forall|i: int| 0 <= i < x.len() ==> x[i] != 47,
    ensures
        parts(Seq::empty()) == Seq::<Part>::empty(),
        x.len() > 0 && x != seq![46u8] && x != seq![46u8, 46u8] ==> parts(x) == seq![Part::Normal(x)],
        x == seq![46u8] ==> parts(x) == seq![Part::Cur],
        x == seq![46u8, 46u8] ==> parts(x) == seq![Part::Parent],
        x.len() > 0 && x != seq![46u8] && x != seq![46u8, 46u8] ==> parts(seq![47u8] + x) == seq![
            Part::Root,
            Part::Normal(x),
        ],
        x.len() == 0 || x == seq![46u8] ==> parts(seq![47u8] + x) == seq![Part::Root],
        x == seq![46u8, 46u8] ==> parts(seq![47u8] + x) == seq![Part::Root, Part::Parent],
{
    let none = Seq::<u8>::empty();
    let nothing = Seq::<Seq<u8>>::empty();
    assert(unbroken(x) && unbroken(none));
    assert(pieces_parts(nothing) =~= Seq::<Part>::empty());
    lemma_first_slash_is(x, x.len() as int);
    lemma_first_slash_is(none, 0);
    assert(segments(x) =~= seq![x]);
    assert(segments(none) =~= seq![none]);
    lemma_pieces_end(nothing, x);
    lemma_pieces_end(nothing, none);
    assert(nothing.push(x) =~= seq![x]);
    assert(nothing.push(none) =~= seq![none]);
    assert(pieces_parts(seq![x]) =~= piece_parts(x));
    assert(pieces_parts(seq![none]) =~= piece_parts(none));
    assert(parts(none) =~= Seq::<Part>::empty());
    assert(seq![46u8] == seq![DOT] && seq![46u8, 46u8] == seq![DOT, DOT]);
    assert(parts(x) =~= head_parts(x) + piece_parts(x));
    assert(x == seq![46u8] ==> parts(x) =~= seq![Part::Cur]);
    assert(x == seq![46u8, 46u8] ==> parts(x) =~= seq![Part::Parent]) by {
        if x == seq![46u8, 46u8] {
            assert(x.len() == 2);
            assert(seq![46u8].len() == 1);
        }
    }
    assert(x.len() > 0 && x != seq![46u8] && x != seq![46u8, 46u8] ==> parts(x) =~= seq![
        Part::Normal(x),
    ]);
    let rooted = seq![47u8] + x;
    assert(rooted =~= none.push(SLASH) + x);
    lemma_segments_end(none, x);
    lemma_pieces_end(segments(none), x);
    assert(pieces_parts(segments(rooted)) =~= piece_parts(x));
    assert(absolute(rooted));
    assert(parts(rooted) =~= seq![Part::Root] + piece_parts(x));
    assert(x == seq![46u8, 46u8] ==> parts(rooted) =~= seq![Part::Root, Part::Parent]) by {
        if x == seq![46u8, 46u8] {
            assert(x.len() == 2);
            assert(seq![46u8].len() == 1);
        }
    }
    assert(x.len() > 0 && x != seq![46u8] && x != seq![46u8, 46u8] ==> parts(rooted) =~= seq![
        Part::Root,
        Part::Normal(x),
    ]);
    assert(x.len() == 0 || x == seq![46u8] ==> parts(rooted) =~= seq![Part::Root]);
}

/// What is put behind a path, after a slash, is one more component; an empty piece and a single
/// dot are none.
pub proof fn pieces_add_components(a: Seq<u8>, x: Seq<u8>)
    requires
        a.len() > 0,
        forall|i: int| 0 <= i < x.len() ==> x[i] != 47,
    ensures
        x.len() == 0 || x == seq![46u8] ==> parts(a + seq![47u8] + x) == parts(a),
        x == seq![46u8, 46u8] ==> parts(a + seq![47u8] + x) == parts(a).push(Part::Parent),
        x.len() > 0 && x != seq![46u8] && x != seq![46u8, 46u8] ==> parts(a + seq![47u8] + x)
            == parts(a).push(Part::Normal(x)),
{
    assert(unbroken(x));
    assert(a + seq![47u8] + x =~= a.push(SLASH) + x);
    lemma_parts_end(a, x);
    let p = parts(a);
    assert(p + Seq::<Part>::empty() =~= p);
    assert(p + seq![Part::Parent] =~= p.push(Part::Parent));
    assert(p + seq![Part::Normal(x)] =~= p.push(Part::Normal(x)));
    assert(seq![46u8] == seq![DOT] && seq![46u8, 46u8] == seq![DOT, DOT]);
    if x == seq![46u8, 46u8] {
        assert(x.len() == 2);
        assert(seq![46u8].len() == 1);
    }
}

/// A path leads to a parent directory just where one of its pieces is two dots.
pub proof fn only_double_dots_climb(a: Seq<u8>, x: Seq<u8>)
    requires
        forall|i: int| 0 <= i < x.len() ==> x[i] != 47,
    ensures
        climbs(x) <==> x == seq![46u8, 46u8],
        climbs(seq![47u8] + x) <==> x == seq![46u8, 46u8],
        a.len() > 0 ==> (climbs(a + seq![47u8] + x) <==> climbs(a) || x == seq![46u8, 46u8]),
{
    single_pieces_are_components(x);
    if x == seq![46u8, 46u8] {
        assert(parts(x)[0] == Part::Parent);
        assert(parts(seq![47u8] + x)[1] == Part::Parent);
    }
    if x.len() == 0 {
        assert(x =~= Seq::<u8>::empty());
    }
    if a.len() > 0 {
        pieces_add_components(a, x);
        let p = parts(a);
        let q = parts(a + seq![47u8] + x);
        if climbs(a) {
            let i = choose|i: int| 0 <= i < p.len() && #[trigger] p[i] == Part::Parent;
            assert(q[i] == Part::Parent);
        }
        if x == seq![46u8, 46u8] {
            assert(q[p.len() as int] == Part::Parent);
        }
        if climbs(a + seq![47u8] + x) {
            let i = choose|i: int| 0 <= i < q.len() && #[trigger] q[i] == Part::Parent;
            if i < p.len() {
                assert(p[i] == Part::Parent);
            }
        }
    }
}

/// A path lies under each directory on the way to it, and under no other: what is put behind a
/// directory lies under it, a directory does not lie under what it holds, and of two names in
/// one directory neither lies under the other, even where one begins like the other.
pub proof fn paths_lie_under_their_directories(a: Seq<u8>, x: Seq<u8>, y: Seq<u8>, b: Seq<u8>)
    requires
        a.len() > 0,
        forall|i: int| 0 <= i < x.len() ==> x[i] != 47,
        forall|i: int| 0 <= i < y.len() ==> y[i] != 47,
        x.len() > 0 && x != seq![46u8] && x != seq![46u8, 46u8],
        y.len() > 0 && y != seq![46u8] && y != seq![46u8, 46u8],
    ensures
        under(a, a),
        under(a + seq![47u8] + x, a),
        under(a, b) ==> under(a + seq![47u8] + x, b),
        !under(a, a + seq![47u8] + x),
        x != y ==> !under(a + seq![47u8] + x, a + seq![47u8] + y),
{
    pieces_add_components(a, x);
    pieces_add_components(a, y);
    let p = parts(a);
    let px = parts(a + seq![47u8] + x);
    let py = parts(a + seq![47u8] + y);
    assert(p.take(p.len() as int) =~= p);
    assert(px.take(p.len() as int) =~= p);
    if under(a, b) {
        let q = parts(b);
        assert(q =~= p.take(q.len() as int));
        assert(px.take(q.len() as int) =~= q);
    }
    if x != y && under(a + seq![47u8] + x, a + seq![47u8] + y) {
        assert(px.take(py.len() as int) =~= px);
        assert(px.last() == py.last());
    }
}

/// The name that ends a path is what stands behind its last slash; slashes at the end and single
/// dots are passed over, and two dots are no name.
pub proof fn paths_end_with_their_name(a: Seq<u8>, x: Seq<u8>)
    requires
        forall|i: int| 0 <= i < x.len() ==> x[i] != 47,
    ensures
        x.len() > 0 && x != seq![46u8] && x != seq![46u8, 46u8] ==> final_name(x) == Some(x)
            && final_name(seq![47u8] + x) == Some(x) && (a.len() > 0 ==> final_name(
            a + seq![47u8] + x,
        ) == Some(x)),
        a.len() > 0 && (x.len() == 0 || x == seq![46u8]) ==> final_name(a + seq![47u8] + x)
            == final_name(a),
        a.len() > 0 && x == seq![46u8, 46u8] ==> final_name(a + seq![47u8] + x) is None,
        x == seq![46u8, 46u8] || x == seq![46u8] || x.len() == 0 ==> final_name(x) is None
            && final_name(seq![47u8] + x) is None,
{
    single_pieces_are_components(x);
    if x.len() == 0 {
        assert(x =~= Seq::<u8>::empty());
    }
    if a.len() > 0 {
        pieces_add_components(a, x);
    }
    if x == seq![46u8, 46u8] {
        assert(x.len() == 2);
        assert(seq![46u8].len() == 1);
    }
}

/// The directory of a name is the path before it, and of a bare name it is the empty path; the
/// root and the empty path lie in no directory.
pub proof fn names_lie_in_the_path_before_them(a: Seq<u8>, x: Seq<u8>)
    requires
        forall|i: int| 0 <= i < x.len() ==> x[i] != 47,
        x.len() > 0 && x != seq![46u8] && x != seq![46u8, 46u8],
    ensures
        a.len() > 0 ==> (parent_of(a + seq![47u8] + x) matches Some(d) && parts(d) == parts(a)
            && d.is_prefix_of(a)),
        parent_of(x) == Some(Seq::<u8>::empty()),
        parent_of(seq![47u8] + x) == Some(seq![47u8]),
        parent_of(Seq::<u8>::empty()) is None,
        parent_of(seq![47u8]) is None,
{
    let none = Seq::<u8>::empty();
    single_pieces_are_components(x);
    single_pieces_are_components(none);
    assert(seq![47u8] + none =~= seq![47u8]);
    if a.len() > 0 {
        pieces_add_components(a, x);
        let s = a + seq![47u8] + x;
        let target = parts(s).drop_last();
        assert(target =~= parts(a));
        assert(s.take(a.len() as int) =~= a);
        lemma_prefix_found(s, target, 0, a.len() as int);
        let k = prefix_with(s, target, 0);
        assert(s.take(k) =~= a.take(k));
        assert(s.take(k).is_prefix_of(a));
    }
    assert(x.take(0) =~= none);
    assert(parts(x).drop_last() =~= parts(none));
    assert(prefix_with(x, parts(x).drop_last(), 0) == 0);
    let r = seq![47u8] + x;
    assert(r.take(0) =~= none);
    assert(r.take(1) =~= seq![47u8]);
    assert(parts(r).drop_last() =~= seq![Part::Root]);
    assert(parts(none).len() == 0);
    assert(prefix_with(r, parts(r).drop_last(), 1) == 1);
    assert(prefix_with(r, parts(r).drop_last(), 0) == 1);
    assert(parts(seq![47u8]).last() == Part::Root);
}

// ---- What holds of orders --------------------------------------------------------

/// The root comes before all else, then the single dot and the two dots, and names come last.
pub proof fn kinds_order_components(x: Seq<u8>, y: Seq<u8>)
    ensures
        part_before(Part::Root, Part::Cur) && part_before(Part::Cur, Part::Parent) && part_before(
            Part::Parent,
            Part::Normal(x),
        ),
        part_before(Part::Root, Part::Parent) && part_before(Part::Root, Part::Normal(x))
            && part_before(Part::Cur, Part::Normal(x)),
        part_before(Part::Normal(x), Part::Normal(y)) <==> bytes_before(x, y),
{
}

/// Byte strings are ordered by the first byte in which they differ, and a beginning comes before
/// what it begins.
pub proof fn the_first_difference_orders_bytes(
    p: Seq<u8>,
    x: u8,
    s: Seq<u8>,
    y: u8,
    t: Seq<u8>,
)
    ensures
        x != y ==> (bytes_before(p + seq![x] + s, p + seq![y] + t) <==> x < y),
        bytes_before(p, p + seq![y] + t),
        !bytes_before(p + seq![y] + t, p),
    decreases p.len(),
{
    if p.len() > 0 {
        let q = p.drop_first();
        the_first_difference_orders_bytes(q, x, s, y, t);
        assert((p + seq![x] + s).drop_first() =~= q + seq![x] + s);
        assert((p + seq![y] + t).drop_first() =~= q + seq![y] + t);
    }
}

proof fn lemma_parts_differ(p: Seq<Part>, u: Part, s: Seq<Part>, v: Part, t: Seq<Part>)
    ensures
        u != v ==> (parts_before(p + seq![u] + s, p + seq![v] + t) <==> part_before(u, v)),
        parts_before(p, p + seq![v] + t),
        !parts_before(p + seq![v] + t, p),
    decreases p.len(),
{
    if p.len() > 0 {
        let q = p.drop_first();
        lemma_parts_differ(q, u, s, v, t);
        assert((p + seq![u] + s).drop_first() =~= q + seq![u] + s);
        assert((p + seq![v] + t).drop_first() =~= q + seq![v] + t);
    }
}

/// Paths are ordered name by name: a directory comes before all that it holds, two names in one
/// directory are ordered by their bytes, and with a name goes all that lies under it.
pub proof fn names_order_paths(a: Seq<u8>, x: Seq<u8>, y: Seq<u8>, z: Seq<u8>)
    requires
        a.len() > 0,
        forall|i: int| 0 <= i < x.len() ==> x[i] != 47,
        forall|i: int| 0 <= i < y.len() ==> y[i] != 47,
        forall|i: int| 0 <= i < z.len() ==> z[i] != 47,
        x.len() > 0 && x != seq![46u8] && x != seq![46u8, 46u8],
        y.len() > 0 && y != seq![46u8] && y != seq![46u8, 46u8],
        z.len() > 0 && z != seq![46u8] && z != seq![46u8, 46u8],
    ensures
        path_before(a, a + seq![47u8] + x),
        !path_before(a + seq![47u8] + x, a),
        path_before(a + seq![47u8] + x, a + seq![47u8] + y) <==> bytes_before(x, y),
        x != y ==> (path_before(a + seq![47u8] + x + seq![47u8] + z, a + seq![47u8] + y)
            <==> bytes_before(x, y)),
        x != y ==> (path_before(a + seq![47u8] + x, a + seq![47u8] + y + seq![47u8] + z)
            <==> bytes_before(x, y)),
{
    let none = Seq::<Part>::empty();
    let p = parts(a);
    let u = Part::Normal(x);
    let v = Part::Normal(y);
    let w = seq![Part::Normal(z)];
    let ax = a + seq![47u8] + x;
    let ay = a + seq![47u8] + y;
    pieces_add_components(a, x);
    pieces_add_components(a, y);
    pieces_add_components(ax, z);
    pieces_add_components(ay, z);
    assert(parts(ax) =~= p + seq![u] + none);
    assert(parts(ay) =~= p + seq![v] + none);
    assert(parts(ax + seq![47u8] + z) =~= p + seq![u] + w);
    assert(parts(ay + seq![47u8] + z) =~= p + seq![v] + w);
    lemma_parts_differ(p, u, none, v, none);
    lemma_parts_differ(p, u, w, v, none);
    lemma_parts_differ(p, u, none, v, w);
    lemma_parts_differ(p, v, none, u, none);
    lemma_bytes_order(x, y, x);
    if x == y {
        path_order_is_strict(ax, ay, ax);
    }
}

// ---- What holds of the directory of a name ---------------------------------------

proof fn lemma_piece_grows(x: Seq<u8>, c: u8)
    ensures
        piece_parts(x).len() <= piece_parts(x.push(c)).len(),
        piece_parts(x).len() <= 1,
{
    let y = x.push(c);
    if x.len() > 0 && x != seq![DOT] {
        assert(y.len() >= 2);
        assert(seq![DOT].len() == 1);
        assert(y != seq![DOT]);
    }
}

proof fn lemma_parts_grow(t: Seq<u8>, c: u8)
    ensures
        parts(t).len() <= parts(t.push(c)).len(),
{
    let none = Seq::<u8>::empty();
    let s = t.push(c);
    single_pieces_are_components(none);
    if t.len() == 0 {
        assert(t =~= none);
    } else if c == SLASH {
        assert(unbroken(none));
        lemma_parts_end(t, none);
        assert(s =~= t.push(SLASH) + none);
        assert(parts(t) + piece_parts(none) =~= parts(t));
    } else {
        let j = last_slash(t);
        let x = t.skip(j + 1);
        let y = x.push(c);
        lemma_last_slash(t);
        assert(unbroken(y));
        lemma_piece_grows(x, c);
        if j > 0 {
            let u = t.take(j);
            assert(t =~= u.push(SLASH) + x);
            assert(s =~= u.push(SLASH) + y);
            lemma_parts_end(u, x);
            lemma_parts_end(u, y);
        } else if j == 0 {
            assert(t =~= seq![47u8] + x);
            assert(s =~= seq![47u8] + y);
            single_pieces_are_components(x);
            single_pieces_are_components(y);
            if x != seq![46u8] && x.len() > 0 {
                assert(y.len() >= 2);
                assert(seq![46u8].len() == 1);
            }
        } else {
            assert(t =~= x);
            assert(s =~= y);
            single_pieces_are_components(x);
            single_pieces_are_components(y);
        }
    }
}

proof fn lemma_prefix_has_fewer(s: Seq<u8>, k: int)
    requires
        0 <= k <= s.len(),
    ensures
        parts(s.take(k)).len() <= parts(s).len(),
    decreases s.len() - k,
{
    if k < s.len() {
        lemma_prefix_has_fewer(s, k + 1);
        lemma_parts_grow(s.take(k), s[k]);
        assert(s.take(k + 1) =~= s.take(k).push(s[k]));
    } else {
        assert(s.take(k) =~= s);
    }
}

/// The directory of `dir/name` is `dir`, letter for letter, where `dir` itself ends with a name.
pub proof fn directories_are_kept_letter_for_letter(b: Seq<u8>, y: Seq<u8>, x: Seq<u8>)
    requires
        forall|i: int| 0 <= i < x.len() ==> x[i] != 47,
        forall|i: int| 0 <= i < y.len() ==> y[i] != 47,
        x.len() > 0 && x != seq![46u8] && x != seq![46u8, 46u8],
        y.len() > 0 && y != seq![46u8] && y != seq![46u8, 46u8],
        b.len() > 0,
    ensures
        parent_of(b + seq![47u8] + y + seq![47u8] + x) == Some(b + seq![47u8] + y),
        parent_of(y + seq![47u8] + x) == Some(y),
{
    let a = b + seq![47u8] + y;
    let s = a + seq![47u8] + x;
    pieces_add_components(b, y);
    pieces_add_components(a, x);
    let target = parts(s).drop_last();
    assert(target =~= parts(a));
    assert(s.take(a.len() as int) =~= a);
    assert forall|k: int| 0 <= k < a.len() implies parts(#[trigger] s.take(k)) != target by {
        if k <= b.len() {
            assert(s.take(k) =~= b.take(k));
            lemma_prefix_has_fewer(b, k);
        } else {
            let z = y.take(k - b.len() - 1);
            assert(s.take(k) =~= b + seq![47u8] + z);
            assert forall|i: int| 0 <= i < z.len() implies z[i] != 47 by {
                assert(z[i] == y[i]);
            }
            pieces_add_components(b, z);
            assert(target.last() == Part::Normal(y));
            if parts(s.take(k)) == target {
                assert(parts(s.take(k)).last() == Part::Normal(y));
                assert(z.len() < y.len());
            }
        }
    }
    lemma_prefix_is(s, target, 0, a.len() as int);
    let r = y + seq![47u8] + x;
    single_pieces_are_components(y);
    pieces_add_components(y, x);
    let own = parts(r).drop_last();
    assert(own =~= parts(y));
    assert(r.take(y.len() as int) =~= y);
    assert forall|k: int| 0 <= k < y.len() implies parts(#[trigger] r.take(k)) != own by {
        let z = y.take(k);
        assert(r.take(k) =~= z);
        assert forall|i: int| 0 <= i < z.len() implies z[i] != 47 by {
            assert(z[i] == y[i]);
        }
        single_pieces_are_components(z);
        assert(own[0] == Part::Normal(y));
        if z.len() == 0 {
            assert(z =~= Seq::<u8>::empty());
        }
        if parts(z) == own {
            assert(parts(z)[0] == Part::Normal(y));
            assert(z.len() < y.len());
        }
    }
    lemma_prefix_is(r, own, 0, y.len() as int);
}

proof fn lemma_prefix_is(s: Seq<u8>, target: Seq<Part>, from: int, k: int)
    requires
        0 <= from <= k < s.len(),
        parts(s.take(k)) == target,
        forall|j: int| from <= j < k ==> parts(#[trigger] s.take(j)) != target,
    ensures
        prefix_with(s, target, from) == k,
    decreases k - from,
{
    if from < k {
        assert(parts(s.take(from)) != target);
        lemma_prefix_is(s, target, from + 1, k);
    }
}

} // verus!
