//! Masking secrets in the output of services before it reaches the event log.
use crate::launch::names::{copy_texts, texts};
use crate::text;
use vstd::prelude::*;

verus! {

/// What stands in the place of a secret.
pub const MASK: &'static str = "[REDACTED]";

/// Whether `pattern` stands in `line` at `k`.
pub open spec fn occurs_at(line: Seq<char>, pattern: Seq<char>, k: int) -> bool {
    &&& 0 <= k
    &&& k + pattern.len() <= line.len()
    &&& line.subrange(k, k + pattern.len()) == pattern
}

/// Whether `pattern` stands anywhere in `line`.
pub open spec fn occurs(line: Seq<char>, pattern: Seq<char>) -> bool {
    exists|k: int| occurs_at(line, pattern, k)
}

/// Whether a pattern stands for a secret: one without characters does not.
pub open spec fn is_secret(pattern: Seq<char>) -> bool {
    pattern.len() > 0
}

/// Whether a line holds one of the secrets.
pub open spec fn leaks(line: Seq<char>, patterns: Seq<Seq<char>>) -> bool {
    exists|p: int|
        0 <= p < patterns.len() && is_secret(#[trigger] patterns[p]) && occurs(line, patterns[p])
}

/// Whether the character at `i` is part of a secret.
pub open spec fn covered(line: Seq<char>, patterns: Seq<Seq<char>>, i: int) -> bool {
    exists|p: int, k: int|
        0 <= p < patterns.len() && is_secret(#[trigger] patterns[p]) && #[trigger] occurs_at(
            line,
            patterns[p],
            k,
        ) && k <= i < k + patterns[p].len()
}

/// The first `n` characters of a line with its secrets masked: every stretch of characters
/// that are part of secrets gives way to one mask.
pub open spec fn masked(line: Seq<char>, patterns: Seq<Seq<char>>, n: int) -> Seq<char>
    decreases n,
{
    if n <= 0 {
        Seq::empty()
    } else {
        let before = masked(line, patterns, n - 1);
        if !covered(line, patterns, n - 1) {
            before.push(line[n - 1])
        } else if n > 1 && covered(line, patterns, n - 2) {
            before
        } else {
            before + MASK@
        }
    }
}

/// A line as it may be stored: with its secrets masked. Where a secret would show up even so,
/// because the mask holds it or completes it, the mask alone is stored, and nothing where the
/// mask itself holds a secret.
pub open spec fn redacted(line: Seq<char>, patterns: Seq<Seq<char>>) -> Seq<char> {
    let shown = masked(line, patterns, line.len() as int);
    if !leaks(shown, patterns) {
        shown
    } else if !leaks(MASK@, patterns) {
        MASK@
    } else {
        Seq::empty()
    }
}

/// Whether `pattern` stands in `line` at `k`.
fn stands_at(line: &Vec<char>, pattern: &Vec<char>, k: usize) -> (r: bool)
    requires
        k <= line@.len(),
    ensures
        r == occurs_at(line@, pattern@, k as int),
{
    let n: usize = line.len();
    if pattern.len() > n - k {
        return false;
    }
    let mut i: usize = 0;
    while i < pattern.len()
        invariant
            n == line@.len(),
            k + pattern@.len() <= n,
            i <= pattern@.len(),
            forall|j: int| 0 <= j < i ==> line@[k + j] == pattern@[j],
        decreases pattern@.len() - i,
    {
        if line[k + i] != pattern[i] {
            assert(line@.subrange(k as int, k + pattern@.len())[i as int] != pattern@[i as int]);
            return false;
        }
        i = i + 1;
    }
    assert(line@.subrange(k as int, k + pattern@.len()) =~= pattern@);
    true
}

/// Whether a line holds one of the secrets.
fn holds_secret(line: &Vec<char>, patterns: &Vec<String>) -> (r: bool)
    ensures
        r == leaks(line@, texts(patterns@)),
{
    let mut p: usize = 0;
    let ghost all = texts(patterns@);
    while p < patterns.len()
        invariant
            all == texts(patterns@),
            p <= patterns@.len(),
            forall|q: int|
                0 <= q < p ==> !(is_secret(#[trigger] all[q]) && occurs(line@, all[q])),
        decreases patterns@.len() - p,
    {
        let pattern = text::chars_of(patterns[p].as_str());
        assert(pattern@ == all[p as int]);
        if pattern.len() > 0 {
            let mut k: usize = 0;
            while k < line.len()
                invariant
                    all == texts(patterns@),
                    p < patterns@.len(),
                    pattern@ == all[p as int],
                    pattern@.len() > 0,
                    k <= line@.len(),
                    forall|j: int| 0 <= j < k ==> !occurs_at(line@, pattern@, j),
                decreases line@.len() - k,
            {
                if stands_at(line, &pattern, k) {
                    assert(occurs(line@, all[p as int]));
                    return true;
                }
                k = k + 1;
            }
            assert forall|j: int| !occurs_at(line@, pattern@, j) by {
                if occurs_at(line@, pattern@, j) {
                    assert(j < line@.len());
                }
            }
        }
        p = p + 1;
    }
    false
}

/// Whether the character at `i` is part of a secret.
fn is_covered(line: &Vec<char>, patterns: &Vec<String>, i: usize) -> (r: bool)
    requires
        i < line@.len(),
    ensures
        r == covered(line@, texts(patterns@), i as int),
{
    let ghost all = texts(patterns@);
    let n: usize = line.len();
    let mut p: usize = 0;
    while p < patterns.len()
        invariant
            all == texts(patterns@),
            i < n,
            n == line@.len(),
            p <= patterns@.len(),
            forall|q: int, k: int|
                0 <= q < p ==> !(is_secret(#[trigger] all[q]) && #[trigger] occurs_at(
                    line@,
                    all[q],
                    k,
                ) && k <= i < k + all[q].len()),
        decreases patterns@.len() - p,
    {
        let pattern = text::chars_of(patterns[p].as_str());
        assert(pattern@ == all[p as int]);
        if pattern.len() > 0 {
            let mut k: usize = if i + 1 >= pattern.len() {
                i + 1 - pattern.len()
            } else {
                0
            };
            let ghost start = k as int;
            while k <= i
                invariant
                    all == texts(patterns@),
                    p < patterns@.len(),
                    pattern@ == all[p as int],
                    pattern@.len() > 0,
                    i < n,
                    n == line@.len(),
                    start <= k <= i + 1,
                    start == (if i + 1 >= pattern@.len() {
                        i + 1 - pattern@.len()
                    } else {
                        0
                    }),
                    forall|j: int| start <= j < k ==> !occurs_at(line@, pattern@, j),
                decreases i + 1 - k,
            {
                if stands_at(line, &pattern, k) {
                    assert(is_secret(all[p as int]) && occurs_at(line@, all[p as int], k as int));
                    return true;
                }
                k = k + 1;
            }
            assert forall|j: int|
                #[trigger] occurs_at(line@, all[p as int], j) implies !(j <= i < j + all[p as int].len()) by {
                if j <= i < j + all[p as int].len() {
                    assert(start <= j < k);
                }
            }
        }
        p = p + 1;
    }
    false
}

/// Masks secrets. They are given literally.
#[derive(Debug)]
pub struct Redactor {
    patterns: Vec<String>,
}

impl Redactor {
    /// The secrets that are masked.
    pub closed spec fn secrets(&self) -> Seq<Seq<char>> {
        texts(self.patterns@)
    }

    /// Masks the secrets of all services and those of one.
    pub fn new(global: &Vec<String>, per_service: &Vec<String>) -> (r: Redactor)
        ensures
            r.secrets() == texts(global@) + texts(per_service@),
    {
        let mut patterns = copy_texts(global);
        let mut more = copy_texts(per_service);
        let ghost a = patterns@;
        let ghost b = more@;
        patterns.append(&mut more);
        assert(texts(patterns@) =~= texts(a) + texts(b));
        Redactor { patterns }
    }

    /// A line as it may be stored.
    pub fn redact_line(&self, line: &str) -> (r: String)
        ensures
            r@ == redacted(line@, self.secrets()),
    {
        let chars = text::chars_of(line);
        let ghost all = self.secrets();
        let mask = text::chars_of(MASK);
        let mut shown: Vec<char> = Vec::new();
        let mut inside = false;
        let mut i: usize = 0;
        while i < chars.len()
            invariant
                chars@ == line@,
                mask@ == MASK@,
                all == self.secrets(),
                i <= chars@.len(),
                shown@ == masked(line@, all, i as int),
                inside == (i > 0 && covered(line@, all, i - 1)),
            decreases chars@.len() - i,
        {
            let now = is_covered(&chars, &self.patterns, i);
            if !now {
                shown.push(chars[i]);
            } else if !inside {
                let mut more = text::chars_of(MASK);
                shown.append(&mut more);
            }
            inside = now;
            i = i + 1;
        }
        if !holds_secret(&shown, &self.patterns) {
            let r = text::string_of(&shown, 0, shown.len());
            assert(r@ =~= shown@);
            return r;
        }
        if !holds_secret(&mask, &self.patterns) {
            return MASK.to_owned();
        }
        String::new()
    }
}

/// A secret never reaches the log: whatever the line and the secrets are, no secret stands in
/// what is stored.
pub proof fn no_secret_is_left(line: Seq<char>, patterns: Seq<Seq<char>>, p: int)
    requires
        0 <= p < patterns.len(),
        is_secret(patterns[p]),
    ensures
        !occurs(redacted(line, patterns), patterns[p]),
{
    let stored = redacted(line, patterns);
    if occurs(stored, patterns[p]) {
        assert(leaks(stored, patterns));
        let k = choose|k: int| occurs_at(stored, patterns[p], k);
        assert(occurs_at(stored, patterns[p], k));
    }
}

/// A line without secrets is stored as it is.
pub proof fn other_lines_are_kept(line: Seq<char>, patterns: Seq<Seq<char>>)
    requires
        !leaks(line, patterns),
    ensures
        redacted(line, patterns) == line,
{
    lemma_kept(line, patterns, line.len() as int);
    assert(line.take(line.len() as int) =~= line);
}

proof fn lemma_kept(line: Seq<char>, patterns: Seq<Seq<char>>, n: int)
    requires
        !leaks(line, patterns),
        0 <= n <= line.len(),
    ensures
        masked(line, patterns, n) == line.take(n),
    decreases n,
{
    if n > 0 {
        lemma_kept(line, patterns, n - 1);
        assert(!covered(line, patterns, n - 1)) by {
            if covered(line, patterns, n - 1) {
                let (p, k) = choose|p: int, k: int|
                    0 <= p < patterns.len() && is_secret(#[trigger] patterns[p])
                        && #[trigger] occurs_at(line, patterns[p], k) && k <= n - 1 < k
                        + patterns[p].len();
                assert(occurs(line, patterns[p]));
            }
        }
        assert(line.take(n) =~= line.take(n - 1).push(line[n - 1]));
    } else {
        assert(line.take(0) =~= Seq::<char>::empty());
    }
}

/// No secret stands anywhere in what is stored, character by character.
pub proof fn stored_lines_hold_no_secret(
    line: Seq<char>,
    patterns: Seq<Seq<char>>,
    p: int,
    k: int,
)
    requires
        0 <= p < patterns.len(),
        patterns[p].len() > 0,
        0 <= k,
        k + patterns[p].len() <= redacted(line, patterns).len(),
    ensures
        redacted(line, patterns).subrange(k, k + patterns[p].len()) != patterns[p],
{
    no_secret_is_left(line, patterns, p);
    if redacted(line, patterns).subrange(k, k + patterns[p].len()) == patterns[p] {
        assert(occurs_at(redacted(line, patterns), patterns[p], k));
    }
}

/// A line in which no secret stands is stored as it is, character by character.
pub proof fn harmless_lines_are_stored_as_they_are(line: Seq<char>, patterns: Seq<Seq<char>>)
    requires
        forall|p: int, k: int|
            #![trigger patterns[p], line.subrange(k, k + patterns[p].len())]
            0 <= p < patterns.len() && patterns[p].len() > 0 && 0 <= k && k + patterns[p].len()
                <= line.len() ==> line.subrange(k, k + patterns[p].len()) != patterns[p],
    ensures
        redacted(line, patterns) == line,
{
    if leaks(line, patterns) {
        let p = choose|p: int|
            0 <= p < patterns.len() && is_secret(#[trigger] patterns[p]) && occurs(
                line,
                patterns[p],
            );
        let k = choose|k: int| occurs_at(line, patterns[p], k);
        assert(line.subrange(k, k + patterns[p].len()) == patterns[p]);
    }
    other_lines_are_kept(line, patterns);
}

/// A secret is masked where it stands, and what stands around it is kept.
pub proof fn secrets_are_masked_in_place(
    a: Seq<char>,
    secret: Seq<char>,
    b: Seq<char>,
    patterns: Seq<Seq<char>>,
)
    requires
        secret.len() > 0,
        patterns.contains(secret),
        forall|p: int, k: int|
            #![trigger patterns[p], (a + secret + b).subrange(k, k + patterns[p].len())]
            0 <= p < patterns.len() && patterns[p].len() > 0 && 0 <= k && k + patterns[p].len() <= (a
                + secret + b).len() && (a + secret + b).subrange(k, k + patterns[p].len())
                == patterns[p] ==> patterns[p] == secret && k == a.len(),
        forall|p: int, k: int|
            #![trigger patterns[p], (a + "[REDACTED]"@ + b).subrange(k, k + patterns[p].len())]
            0 <= p < patterns.len() && patterns[p].len() > 0 && 0 <= k && k + patterns[p].len() <= (a
                + "[REDACTED]"@ + b).len() ==> (a + "[REDACTED]"@ + b).subrange(
                k,
                k + patterns[p].len(),
            ) != patterns[p],
    ensures
        redacted(a + secret + b, patterns) == a + "[REDACTED]"@ + b,
{
    let line = a + secret + b;
    let shown = a + "[REDACTED]"@ + b;
    lemma_masked_in_place(a, secret, b, patterns, line.len() as int);
    assert(b.take(b.len() as int) =~= b);
    assert(masked(line, patterns, line.len() as int) =~= shown);
    if leaks(shown, patterns) {
        let p = choose|p: int|
            0 <= p < patterns.len() && is_secret(#[trigger] patterns[p]) && occurs(
                shown,
                patterns[p],
            );
        let k = choose|k: int| occurs_at(shown, patterns[p], k);
        assert(shown.subrange(k, k + patterns[p].len()) == patterns[p]);
    }
}

proof fn lemma_masked_in_place(
    a: Seq<char>,
    secret: Seq<char>,
    b: Seq<char>,
    patterns: Seq<Seq<char>>,
    n: int,
)
    requires
        secret.len() > 0,
        patterns.contains(secret),
        forall|p: int, k: int|
            #![trigger patterns[p], (a + secret + b).subrange(k, k + patterns[p].len())]
            0 <= p < patterns.len() && patterns[p].len() > 0 && 0 <= k && k + patterns[p].len() <= (a
                + secret + b).len() && (a + secret + b).subrange(k, k + patterns[p].len())
                == patterns[p] ==> patterns[p] == secret && k == a.len(),
        0 <= n <= (a + secret + b).len(),
    ensures
        masked(a + secret + b, patterns, n) == if n <= a.len() {
            a.take(n)
        } else if n <= a.len() + secret.len() {
            a + MASK@
        } else {
            a + MASK@ + b.take(n - a.len() - secret.len())
        },
    decreases n,
{
    let line = a + secret + b;
    if n == 0 {
        assert(a.take(0) =~= Seq::<char>::empty());
    } else {
        lemma_masked_in_place(a, secret, b, patterns, n - 1);
        lemma_covered_in_place(a, secret, b, patterns, n - 1);
        if n > 1 {
            lemma_covered_in_place(a, secret, b, patterns, n - 2);
        }
        if n <= a.len() {
            assert(a.take(n) =~= a.take(n - 1).push(line[n - 1]));
        } else if n <= a.len() + secret.len() {
            assert(a.take(a.len() as int) =~= a);
        } else {
            let m = n - a.len() - secret.len();
            assert(line[n - 1] == b[m - 1]);
            assert(b.take(0) =~= Seq::<char>::empty());
            assert(a + MASK@ + b.take(0) =~= a + MASK@);
            assert(a + MASK@ + b.take(m) =~= (a + MASK@ + b.take(m - 1)).push(b[m - 1]));
        }
    }
}

proof fn lemma_covered_in_place(
    a: Seq<char>,
    secret: Seq<char>,
    b: Seq<char>,
    patterns: Seq<Seq<char>>,
    i: int,
)
    requires
        secret.len() > 0,
        patterns.contains(secret),
        forall|p: int, k: int|
            #![trigger patterns[p], (a + secret + b).subrange(k, k + patterns[p].len())]
            0 <= p < patterns.len() && patterns[p].len() > 0 && 0 <= k && k + patterns[p].len() <= (a
                + secret + b).len() && (a + secret + b).subrange(k, k + patterns[p].len())
                == patterns[p] ==> patterns[p] == secret && k == a.len(),
    ensures
        covered(a + secret + b, patterns, i) <==> a.len() <= i < a.len() + secret.len(),
{
    let line = a + secret + b;
    let q = choose|q: int| 0 <= q < patterns.len() && patterns[q] == secret;
    let at = a.len() as int;
    assert(line.subrange(at, at + secret.len()) =~= secret);
    assert(occurs_at(line, patterns[q], at));
    if covered(line, patterns, i) {
        let (p, k) = choose|p: int, k: int|
            0 <= p < patterns.len() && is_secret(#[trigger] patterns[p]) && #[trigger] occurs_at(
                line,
                patterns[p],
                k,
            ) && k <= i < k + patterns[p].len();
        assert(line.subrange(k, k + patterns[p].len()) == patterns[p]);
    }
}

/// A line is masked run by run: a character that belongs to no secret is kept, and each run of
/// characters that belong to secrets is replaced by one mask. That is what is stored, unless a
/// secret would stand in it.
pub proof fn lines_are_masked_run_by_run(line: Seq<char>, patterns: Seq<Seq<char>>, n: int)
    requires
        0 < n <= line.len(),
    ensures
        masked(line, patterns, 0) == Seq::<char>::empty(),
        !within_secret(line, patterns, n - 1) ==> masked(line, patterns, n) == masked(
            line,
            patterns,
            n - 1,
        ).push(line[n - 1]),
        within_secret(line, patterns, n - 1) && (n == 1 || !within_secret(line, patterns, n - 2))
            ==> masked(line, patterns, n) == masked(line, patterns, n - 1) + "[REDACTED]"@,
        within_secret(line, patterns, n - 1) && n > 1 && within_secret(line, patterns, n - 2)
            ==> masked(line, patterns, n) == masked(line, patterns, n - 1),
        (forall|i: int|
            0 <= i < masked(line, patterns, line.len() as int).len() ==> !#[trigger] within_secret(
                masked(line, patterns, line.len() as int),
                patterns,
                i,
            )) ==> redacted(line, patterns) == masked(line, patterns, line.len() as int),
{
    lemma_covered_raw(line, patterns, n - 1);
    lemma_covered_raw(line, patterns, n - 2);
    let shown = masked(line, patterns, line.len() as int);
    if leaks(shown, patterns) {
        let p = choose|p: int|
            0 <= p < patterns.len() && is_secret(#[trigger] patterns[p]) && occurs(
                shown,
                patterns[p],
            );
        let k = choose|k: int| occurs_at(shown, patterns[p], k);
        assert(shown.subrange(k, k + patterns[p].len()) == patterns[p]);
        assert(within_secret(shown, patterns, k));
    }
}

/// Whether the character at `i` belongs to a secret that stands in the line.
pub open spec fn within_secret(line: Seq<char>, patterns: Seq<Seq<char>>, i: int) -> bool {
    exists|p: int, k: int|
        #![trigger patterns[p], line.subrange(k, k + patterns[p].len())]
        0 <= p < patterns.len() && 0 <= k <= i < k + patterns[p].len() && k + patterns[p].len()
            <= line.len() && line.subrange(k, k + patterns[p].len()) == patterns[p]
}

proof fn lemma_covered_raw(line: Seq<char>, patterns: Seq<Seq<char>>, i: int)
    ensures
        covered(line, patterns, i) == within_secret(line, patterns, i),
{
    if covered(line, patterns, i) {
        let (p, k) = choose|p: int, k: int|
            0 <= p < patterns.len() && is_secret(#[trigger] patterns[p]) && #[trigger] occurs_at(
                line,
                patterns[p],
                k,
            ) && k <= i < k + patterns[p].len();
        assert(line.subrange(k, k + patterns[p].len()) == patterns[p]);
    }
    if within_secret(line, patterns, i) {
        let (p, k) = choose|p: int, k: int|
            #![trigger patterns[p], line.subrange(k, k + patterns[p].len())]
            0 <= p < patterns.len() && 0 <= k <= i < k + patterns[p].len() && k + patterns[p].len()
                <= line.len() && line.subrange(k, k + patterns[p].len()) == patterns[p];
        assert(is_secret(patterns[p]) && occurs_at(line, patterns[p], k));
    }
}

} // verus!
