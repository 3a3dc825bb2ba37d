//! Maps from names to values, kept in the order of the names.
use crate::text;
use vstd::prelude::*;

verus! {

/// Whether name `a` comes before name `b`: by character code, a proper prefix first.
pub open spec fn name_before(a: Seq<char>, b: Seq<char>) -> bool
    decreases a.len(),
{
    if b.len() == 0 {
        false
    } else if a.len() == 0 {
        true
    } else if a[0] == b[0] {
        name_before(a.drop_first(), b.drop_first())
    } else {
        (a[0] as int) < (b[0] as int)
    }
}

proof fn lemma_name_order(a: Seq<char>, b: Seq<char>, c: Seq<char>)
    ensures
        !name_before(a, a),
        name_before(a, b) && name_before(b, c) ==> name_before(a, c),
        name_before(a, b) || name_before(b, a) || a == b,
    decreases a.len(),
{
    if a.len() > 0 {
        lemma_name_order(a.drop_first(), b.drop_first(), c.drop_first());
        if b.len() > 0 && a[0] == b[0] && a.drop_first() == b.drop_first() {
            assert(a =~= seq![a[0]] + a.drop_first());
            assert(b =~= seq![b[0]] + b.drop_first());
        }
    } else if b.len() == 0 {
        assert(a =~= b);
    }
}

/// Names are ordered by the first character in which they differ, and a beginning comes before
/// what it begins.
pub proof fn the_first_difference_orders_names(
    p: Seq<char>,
    x: char,
    s: Seq<char>,
    y: char,
    t: Seq<char>,
)
    ensures
        x != y ==> (name_before(p + seq![x] + s, p + seq![y] + t) <==> (x as u32) < (y as u32)),
        name_before(p, p + seq![y] + t),
        !name_before(p + seq![y] + t, p),
    decreases p.len(),
{
    if p.len() > 0 {
        let q = p.drop_first();
        the_first_difference_orders_names(q, x, s, y, t);
        assert((p + seq![x] + s).drop_first() =~= q + seq![x] + s);
        assert((p + seq![y] + t).drop_first() =~= q + seq![y] + t);
    }
}

/// The order of names is a strict total order.
pub proof fn name_order_is_total(a: Seq<char>, b: Seq<char>, c: Seq<char>)
    ensures
        !name_before(a, a),
        name_before(a, b) && name_before(b, c) ==> name_before(a, c),
        name_before(a, b) ==> !name_before(b, a),
        name_before(a, b) || name_before(b, a) || a == b,
{
    lemma_name_order(a, b, c);
    lemma_name_order(a, b, a);
}

/// Whether the code of `c` is lower than that of `d`.
fn lower_code(c: char, d: char) -> (r: bool)
    ensures
        r == ((c as int) < (d as int)),
{
    (c as u32) < (d as u32)
}

/// Whether name `a` comes before name `b`.
pub fn precedes(a: &str, b: &str) -> (r: bool)
    ensures
        r == name_before(a@, b@),
{
    let x = text::chars_of(a);
    let y = text::chars_of(b);
    let mut i: usize = 0;
    proof {
        assert(a@.skip(0) =~= a@);
        assert(b@.skip(0) =~= b@);
    }
    while i < x.len() && i < y.len() && x[i] == y[i]
        invariant
            x@ == a@,
            y@ == b@,
            i <= x@.len(),
            i <= y@.len(),
            name_before(a@, b@) == name_before(a@.skip(i as int), b@.skip(i as int)),
        decreases x@.len() - i,
    {
        proof {
            assert(a@.skip(i as int).drop_first() =~= a@.skip(i + 1));
            assert(b@.skip(i as int).drop_first() =~= b@.skip(i + 1));
        }
        i = i + 1;
    }
    if i >= y.len() {
        false
    } else if i >= x.len() {
        true
    } else {
        lower_code(x[i], y[i])
    }
}

/// Whether a list of names is ascending; then no name occurs twice.
pub open spec fn ascending(names: Seq<Seq<char>>) -> bool {
    forall|i: int, j: int|
        0 <= i < j < names.len() ==> name_before(#[trigger] names[i], #[trigger] names[j])
}

/// The place of a name in a list that holds it.
pub open spec fn place(names: Seq<Seq<char>>, name: Seq<char>) -> int {
    choose|i: int| 0 <= i < names.len() && names[i] == name
}

/// In an ascending list every name has one place.
pub proof fn places_are_unique(names: Seq<Seq<char>>, i: int, j: int)
    requires
        ascending(names),
        0 <= i < names.len(),
        0 <= j < names.len(),
        names[i] == names[j],
    ensures
        i == j,
{
    lemma_name_order(names[i], names[j], names[i]);
    if i < j {
        assert(name_before(names[i], names[j]));
    } else if j < i {
        assert(name_before(names[j], names[i]));
    }
}

/// The map that two lists make: each name with the value at its place.
pub open spec fn paired<V>(names: Seq<Seq<char>>, vals: Seq<V>) -> Map<Seq<char>, V> {
    Map::new(|n: Seq<char>| names.contains(n), |n: Seq<char>| vals[place(names, n)])
}

/// A map from names to values. Its names are in ascending order.
#[derive(Debug)]
pub struct NameMap<V> {
    names: Vec<String>,
    vals: Vec<V>,
}

/// The characters of a list of strings.
pub open spec fn texts(v: Seq<String>) -> Seq<Seq<char>> {
    Seq::new(v.len(), |i: int| v[i]@)
}

/// The texts of a list are its own, one by one.
pub proof fn texts_are_seen_one_by_one(v: Seq<String>)
    ensures
        texts(v).len() == v.len(),
        forall|i: int| 0 <= i < v.len() ==> texts(v)[i] == (#[trigger] v[i])@,
{
}

/// Each name of two ascending lists has the value at its place.
pub proof fn pairs_are_kept<V>(names: Seq<Seq<char>>, vals: Seq<V>, i: int)
    requires
        ascending(names),
        0 <= i < names.len(),
        names.len() == vals.len(),
    ensures
        paired(names, vals).contains_key(names[i]),
        paired(names, vals)[names[i]] == vals[i],
{
    assert(names.contains(names[i]));
    let k = place(names, names[i]);
    assert(0 <= k < names.len() && names[k] == names[i]) by {
        assert(exists|j: int| 0 <= j < names.len() && names[j] == names[i]);
    }
    places_are_unique(names, i, k);
}

proof fn lemma_paired_is<V>(names: Seq<Seq<char>>, vals: Seq<V>, m: Map<Seq<char>, V>)
    requires
        ascending(names),
        names.len() == vals.len(),
        forall|i: int|
            0 <= i < names.len() ==> m.contains_key(#[trigger] names[i]) && m[names[i]] == vals[i],
        forall|n: Seq<char>| #[trigger] m.contains_key(n) ==> names.contains(n),
    ensures
        paired(names, vals) == m,
{
    assert forall|n: Seq<char>| paired(names, vals).contains_key(n) == m.contains_key(n) by {
        if names.contains(n) {
            let i = choose|i: int| 0 <= i < names.len() && names[i] == n;
            assert(m.contains_key(names[i]));
        }
    }
    assert forall|n: Seq<char>| #[trigger] m.contains_key(n) implies paired(names, vals)[n]
        == m[n] by {
        let i = choose|i: int| 0 <= i < names.len() && names[i] == n;
        pairs_are_kept(names, vals, i);
    }
    assert(paired(names, vals) =~= m);
}

impl<V> NameMap<V> {
    /// The names, in order.
    pub closed spec fn names(&self) -> Seq<Seq<char>> {
        texts(self.names@)
    }

    /// The values, in the order of their names.
    pub closed spec fn vals(&self) -> Seq<V> {
        self.vals@
    }

    /// The names are ascending, and each has a value.
    pub open spec fn wf(&self) -> bool {
        &&& ascending(self.names())
        &&& self.names().len() == self.vals().len()
    }

    /// The map.
    pub open spec fn view(&self) -> Map<Seq<char>, V> {
        paired(self.names(), self.vals())
    }

    /// A map without names.
    pub fn new() -> (r: NameMap<V>)
        ensures
            r.wf(),
            r.names() == Seq::<Seq<char>>::empty(),
            r@ == Map::<Seq<char>, V>::empty(),
    {
        let r = NameMap { names: Vec::new(), vals: Vec::new() };
        proof {
            assert(r.names() =~= Seq::<Seq<char>>::empty());
            assert(r@ =~= Map::<Seq<char>, V>::empty());
        }
        r
    }

    /// How many names the map holds.
    pub fn len(&self) -> (n: usize)
        ensures
            n == self.names().len(),
    {
        self.names.len()
    }

    /// The name at a place.
    pub fn name_at(&self, i: usize) -> (r: &String)
        requires
            i < self.names().len(),
        ensures
            r@ == self.names()[i as int],
    {
        &self.names[i]
    }

    /// The value at a place.
    pub fn val_at(&self, i: usize) -> (r: &V)
        requires
            self.wf(),
            i < self.names().len(),
        ensures
            *r == self.vals()[i as int],
    {
        &self.vals[i]
    }

    /// The first place whose name does not come before `name`.
    fn slot(&self, name: &str) -> (i: usize)
        requires
            self.wf(),
        ensures
            i <= self.names().len(),
            forall|j: int| 0 <= j < i ==> name_before(#[trigger] self.names()[j], name@),
            i < self.names().len() ==> !name_before(self.names()[i as int], name@),
    {
        let mut i: usize = 0;
        while i < self.names.len() && precedes(self.names[i].as_str(), name)
            invariant
                i <= self.names@.len(),
                forall|j: int| 0 <= j < i ==> name_before(#[trigger] self.names()[j], name@),
            decreases self.names@.len() - i,
        {
            i = i + 1;
        }
        i
    }

    /// The place of a name, where the map holds it.
    pub fn find(&self, name: &str) -> (r: Option<usize>)
        requires
            self.wf(),
        ensures
            match r {
                Some(i) => i < self.names().len() && self.names()[i as int] == name@
                    && self@.contains_key(name@) && self@[name@] == self.vals()[i as int],
                None => !self.names().contains(name@) && !self@.contains_key(name@),
            },
    {
        let i = self.slot(name);
        if i < self.names.len() && text::same_text(self.names[i].as_str(), name) {
            proof {
                pairs_are_kept(self.names(), self.vals(), i as int);
            }
            return Some(i);
        }
        proof {
            assert forall|j: int| 0 <= j < self.names().len() implies self.names()[j] != name@ by {
                name_order_is_total(self.names()[j], name@, name@);
                if j < i {
                    assert(name_before(self.names()[j], name@));
                } else if j > i {
                    assert(name_before(self.names()[i as int], self.names()[j]));
                }
            }
        }
        None
    }

    /// The value of a name, where the map holds it.
    pub fn get(&self, name: &str) -> (r: Option<&V>)
        requires
            self.wf(),
        ensures
            match r {
                Some(v) => self@.contains_key(name@) && *v == self@[name@],
                None => !self@.contains_key(name@),
            },
    {
        match self.find(name) {
            Some(i) => Some(&self.vals[i]),
            None => None,
        }
    }

    /// Whether the map holds a name.
    pub fn contains(&self, name: &str) -> (r: bool)
        requires
            self.wf(),
        ensures
            r == self@.contains_key(name@),
    {
        match self.find(name) {
            Some(_) => true,
            None => false,
        }
    }

    /// Gives a name a value, in place of any other.
    pub fn insert(&mut self, name: String, v: V)
        requires
            old(self).wf(),
        ensures
            final(self).wf(),
            final(self)@ == old(self)@.insert(name@, v),
    {
        let ghost names0 = self.names();
        let ghost vals0 = self.vals();
        let ghost m0 = self@;
        let i = self.slot(name.as_str());
        if i < self.names.len() && text::same_text(self.names[i].as_str(), name.as_str()) {
            self.vals.set(i, v);
            proof {
                assert(self.names() =~= names0);
                assert(self.vals() =~= vals0.update(i as int, v));
                let m = m0.insert(name@, v);
                assert forall|j: int| 0 <= j < names0.len() implies m.contains_key(
                    #[trigger] names0[j],
                ) && m[names0[j]] == self.vals()[j] by {
                    pairs_are_kept(names0, vals0, j);
                    if names0[j] == name@ {
                        places_are_unique(names0, i as int, j);
                    }
                }
                assert forall|n: Seq<char>| #[trigger] m.contains_key(n) implies names0.contains(
                    n,
                ) by {
                    if n == name@ {
                        assert(names0[i as int] == n);
                    }
                }
                lemma_paired_is(names0, self.vals(), m);
            }
            return;
        }
        let ghost key = name@;
        proof {
            assert forall|j: int| 0 <= j < names0.len() implies names0[j] != key by {
                name_order_is_total(names0[j], key, key);
                if j > i {
                    assert(name_before(names0[i as int], names0[j]));
                }
            }
        }
        self.names.insert(i, name);
        self.vals.insert(i, v);
        proof {
            let names1 = self.names();
            let vals1 = self.vals();
            assert(names1 =~= names0.insert(i as int, key));
            assert forall|a: int, b: int| 0 <= a < b < names1.len() implies name_before(
                #[trigger] names1[a],
                #[trigger] names1[b],
            ) by {
                if a < i {
                    assert(names1[a] == names0[a]);
                } else if a > i {
                    assert(names1[a] == names0[a - 1]);
                }
                if b < i {
                    assert(names1[b] == names0[b]);
                } else if b > i {
                    assert(names1[b] == names0[b - 1]);
                    if a == i {
                        let first = names0[i as int];
                        name_order_is_total(key, first, names0[b - 1]);
                        if b - 1 > i {
                            assert(name_before(first, names0[b - 1]));
                        }
                    }
                }
            }
            let m = m0.insert(key, v);
            assert forall|j: int| 0 <= j < names1.len() implies m.contains_key(#[trigger] names1[j])
                && m[names1[j]] == vals1[j] by {
                if j < i {
                    assert(names1[j] == names0[j]);
                    pairs_are_kept(names0, vals0, j);
                } else if j > i {
                    assert(names1[j] == names0[j - 1]);
                    pairs_are_kept(names0, vals0, j - 1);
                }
            }
            assert forall|n: Seq<char>| #[trigger] m.contains_key(n) implies names1.contains(n) by {
                if n == key {
                    assert(names1[i as int] == key);
                } else {
                    let j = choose|j: int| 0 <= j < names0.len() && names0[j] == n;
                    if j < i {
                        assert(names1[j] == n);
                    } else {
                        assert(names1[j + 1] == n);
                    }
                }
            }
            lemma_paired_is(names1, vals1, m);
        }
    }

    /// Adds a name that comes after all others.
    pub fn append(&mut self, name: String, v: V)
        requires
            old(self).wf(),
            forall|j: int| 0 <= j < old(self).names().len() ==> name_before(
                #[trigger] old(self).names()[j],
                name@,
            ),
        ensures
            final(self).wf(),
            final(self).names() == old(self).names().push(name@),
            final(self).vals() == old(self).vals().push(v),
            final(self)@ == old(self)@.insert(name@, v),
    {
        let ghost names0 = self.names();
        let ghost vals0 = self.vals();
        let ghost m0 = self@;
        let ghost key = name@;
        self.names.push(name);
        self.vals.push(v);
        proof {
            let names1 = self.names();
            assert(names1 =~= names0.push(key));
            assert forall|a: int, b: int| 0 <= a < b < names1.len() implies name_before(
                #[trigger] names1[a],
                #[trigger] names1[b],
            ) by {
                assert(names1[a] == names0[a]);
                if b < names0.len() {
                    assert(names1[b] == names0[b]);
                }
            }
            let vals1 = self.vals();
            let m = m0.insert(key, v);
            assert forall|j: int| 0 <= j < names1.len() implies m.contains_key(#[trigger] names1[j])
                && m[names1[j]] == vals1[j] by {
                if j < names0.len() {
                    assert(names1[j] == names0[j]);
                    pairs_are_kept(names0, vals0, j);
                    name_order_is_total(names0[j], key, key);
                }
            }
            assert forall|n: Seq<char>| #[trigger] m.contains_key(n) implies names1.contains(n) by {
                if n == key {
                    assert(names1[names0.len() as int] == key);
                } else {
                    let j = choose|j: int| 0 <= j < names0.len() && names0[j] == n;
                    assert(names1[j] == n);
                }
            }
            lemma_paired_is(names1, vals1, m);
        }
    }

    /// Removes a name, where the map holds it.
    pub fn remove(&mut self, name: &str)
        requires
            old(self).wf(),
        ensures
            final(self).wf(),
            final(self)@ == old(self)@.remove(name@),
    {
        let ghost names0 = self.names();
        let ghost vals0 = self.vals();
        let ghost m0 = self@;
        match self.find(name) {
            Some(i) => {
                let _name = self.names.remove(i);
                let _val = self.vals.remove(i);
                proof {
                    let names1 = self.names();
                    let vals1 = self.vals();
                    assert(names1 =~= names0.remove(i as int));
                    assert forall|a: int, b: int| 0 <= a < b < names1.len() implies name_before(
                        #[trigger] names1[a],
                        #[trigger] names1[b],
                    ) by {
                        let a0 = if a < i { a } else { a + 1 };
                        let b0 = if b < i { b } else { b + 1 };
                        assert(names1[a] == names0[a0]);
                        assert(names1[b] == names0[b0]);
                    }
                    let m = m0.remove(name@);
                    assert forall|j: int| 0 <= j < names1.len() implies m.contains_key(
                        #[trigger] names1[j],
                    ) && m[names1[j]] == vals1[j] by {
                        let j0 = if j < i { j } else { j + 1 };
                        assert(names1[j] == names0[j0]);
                        pairs_are_kept(names0, vals0, j0);
                        if names0[j0] == name@ {
                            places_are_unique(names0, i as int, j0);
                        }
                    }
                    assert forall|n: Seq<char>| #[trigger] m.contains_key(n) implies names1.contains(
                        n,
                    ) by {
                        let j = choose|j: int| 0 <= j < names0.len() && names0[j] == n;
                        if j < i {
                            assert(names1[j] == n);
                        } else {
                            assert(names1[j - 1] == n);
                        }
                    }
                    lemma_paired_is(names1, vals1, m);
                }
            },
            None => {
                assert(m0.remove(name@) =~= m0);
            },
        }
    }
}

/// Adds a copy of a text to a list of strings.
pub fn push_text(v: &mut Vec<String>, s: &str)
    ensures
        texts(final(v)@) == texts(old(v)@).push(s@),
{
    let copy = s.to_owned();
    let ghost before = v@;
    v.push(copy);
    assert(texts(v@) =~= texts(before).push(s@));
}

/// Copies a list of strings.
pub fn copy_texts(v: &Vec<String>) -> (r: Vec<String>)
    ensures
        r@ == v@,
{
    let mut r: Vec<String> = Vec::new();
    let mut i: usize = 0;
    while i < v.len()
        invariant
            i <= v@.len(),
            r@ == v@.take(i as int),
        decreases v@.len() - i,
    {
        r.push(v[i].clone());
        i = i + 1;
        assert(r@ =~= v@.take(i as int));
    }
    assert(r@ =~= v@);
    r
}

/// Whether two lists of strings hold the same texts.
pub fn same_texts(a: &Vec<String>, b: &Vec<String>) -> (r: bool)
    ensures
        r == (texts(a@) == texts(b@)),
{
    if a.len() != b.len() {
        assert(texts(a@).len() != texts(b@).len());
        return false;
    }
    let mut i: usize = 0;
    while i < a.len()
        invariant
            a@.len() == b@.len(),
            i <= a@.len(),
            forall|j: int| 0 <= j < i ==> texts(a@)[j] == texts(b@)[j],
        decreases a@.len() - i,
    {
        if !text::same_text(a[i].as_str(), b[i].as_str()) {
            assert(texts(a@)[i as int] != texts(b@)[i as int]);
            return false;
        }
        i = i + 1;
    }
    assert(texts(a@) =~= texts(b@));
    true
}

/// Whether a list of strings holds a text.
pub fn has_text(v: &Vec<String>, s: &str) -> (r: bool)
    ensures
        r == texts(v@).contains(s@),
{
    let mut i: usize = 0;
    while i < v.len()
        invariant
            i <= v@.len(),
            forall|j: int| 0 <= j < i ==> texts(v@)[j] != s@,
        decreases v@.len() - i,
    {
        if text::same_text(v[i].as_str(), s) {
            assert(texts(v@)[i as int] == s@);
            return true;
        }
        i = i + 1;
    }
    false
}

} // verus!
