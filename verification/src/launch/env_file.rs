//! Environment files of services: lines of `KEY=VALUE`.
use crate::errors::{LaunchError, LaunchErrorView};
use crate::launch::names::{texts, NameMap};
use crate::paths;
use crate::text;
use vstd::prelude::*;
use vstd::utf8::encode_utf8;

verus! {

// ---- Text --------------------------------------------------------------------

/// Whether a character is white space: one with the Unicode property `White_Space`.
pub open spec fn white(c: char) -> bool {
    let n = c as int;
    ||| 9 <= n <= 13
    ||| n == 0x20
    ||| n == 0x85
    ||| n == 0xa0
    ||| n == 0x1680
    ||| 0x2000 <= n <= 0x200a
    ||| n == 0x2028
    ||| n == 0x2029
    ||| n == 0x202f
    ||| n == 0x205f
    ||| n == 0x3000
}

/// A text without the white space that it begins with.
pub open spec fn trim_start_of(s: Seq<char>) -> Seq<char>
    decreases s.len(),
{
    if s.len() > 0 && white(s[0]) {
        trim_start_of(s.drop_first())
    } else {
        s
    }
}

/// A text without the white space that it ends with.
pub open spec fn trim_end_of(s: Seq<char>) -> Seq<char>
    decreases s.len(),
{
    if s.len() > 0 && white(s.last()) {
        trim_end_of(s.drop_last())
    } else {
        s
    }
}

/// A text without the white space around it.
pub open spec fn trimmed(s: Seq<char>) -> Seq<char> {
    trim_end_of(trim_start_of(s))
}

/// The place of the first `c` in a text, or its length where there is none.
pub open spec fn first_at(s: Seq<char>, c: char) -> int
    decreases s.len(),
{
    if s.len() == 0 || s[0] == c {
        0
    } else {
        1 + first_at(s.drop_first(), c)
    }
}

proof fn lemma_first_at(s: Seq<char>, c: char)
    ensures
        0 <= first_at(s, c) <= s.len(),
    decreases s.len(),
{
    if s.len() > 0 && s[0] != c {
        lemma_first_at(s.drop_first(), c);
    }
}

/// The lines of a text, without their line feeds.
pub open spec fn lines_of(s: Seq<char>) -> Seq<Seq<char>>
    decreases s.len(),
{
    let i = first_at(s, '\n');
    if 0 <= i < s.len() {
        seq![s.take(i)] + lines_of(s.skip(i + 1))
    } else {
        seq![s]
    }
}

/// Whether a character is white space.
fn is_white(c: char) -> (r: bool)
    ensures
        r == white(c),
        r <==> {
            ||| c == ' ' || c == '\t' || c == '\n' || c == '\r' || c == '\u{b}' || c == '\u{c}'
            ||| c == '\u{85}' || c == '\u{a0}' || c == '\u{1680}'
            ||| '\u{2000}' <= c <= '\u{200a}'
            ||| c == '\u{2028}' || c == '\u{2029}' || c == '\u{202f}' || c == '\u{205f}'
            ||| c == '\u{3000}'
        },
{
    let n: u32 = c as u32;
    (9 <= n && n <= 13) || n == 0x20 || n == 0x85 || n == 0xa0 || n == 0x1680 || (0x2000 <= n && n
        <= 0x200a) || n == 0x2028 || n == 0x2029 || n == 0x202f || n == 0x205f || n == 0x3000
}

/// The place in `v[from..to]` where its leading white space ends.
fn skip_white(v: &Vec<char>, from: usize, to: usize) -> (r: usize)
    requires
        from <= to <= v@.len(),
    ensures
        from <= r <= to,
        trim_start_of(v@.subrange(from as int, to as int)) == v@.subrange(r as int, to as int),
{
    let mut i: usize = from;
    while i < to && is_white(v[i])
        invariant
            from <= i <= to <= v@.len(),
            trim_start_of(v@.subrange(from as int, to as int)) == trim_start_of(
                v@.subrange(i as int, to as int),
            ),
        decreases to - i,
    {
        assert(v@.subrange(i as int, to as int).drop_first() =~= v@.subrange(i + 1, to as int));
        i = i + 1;
    }
    i
}

/// The place in `v[from..to]` where its trailing white space begins.
fn drop_white(v: &Vec<char>, from: usize, to: usize) -> (r: usize)
    requires
        from <= to <= v@.len(),
    ensures
        from <= r <= to,
        trim_end_of(v@.subrange(from as int, to as int)) == v@.subrange(from as int, r as int),
{
    let mut i: usize = to;
    while from < i && is_white(v[i - 1])
        invariant
            from <= i <= to <= v@.len(),
            trim_end_of(v@.subrange(from as int, to as int)) == trim_end_of(
                v@.subrange(from as int, i as int),
            ),
        decreases i - from,
    {
        assert(v@.subrange(from as int, i as int).drop_last() =~= v@.subrange(from as int, i - 1));
        i = i - 1;
    }
    i
}

/// The place of the first `c` in `v[from..to]`, or `to`.
fn find_char(v: &Vec<char>, from: usize, to: usize, c: char) -> (r: usize)
    requires
        from <= to <= v@.len(),
    ensures
        from <= r <= to,
        r - from == first_at(v@.subrange(from as int, to as int), c),
        r < to ==> v@[r as int] == c,
{
    let mut i: usize = from;
    while i < to && v[i] != c
        invariant
            from <= i <= to <= v@.len(),
            first_at(v@.subrange(from as int, to as int), c) == i - from + first_at(
                v@.subrange(i as int, to as int),
                c,
            ),
        decreases to - i,
    {
        assert(v@.subrange(i as int, to as int).drop_first() =~= v@.subrange(i + 1, to as int));
        i = i + 1;
    }
    i
}

// ---- Values --------------------------------------------------------------------

/// What a character after a backslash stands for.
pub open spec fn escape_of(c: char) -> char {
    if c == 'n' {
        '\n'
    } else if c == 't' {
        '\t'
    } else if c == 'r' {
        '\r'
    } else {
        c
    }
}

/// What the text after an opening double quote stands for: it ends before the first
/// quote without a backslash.
pub open spec fn unescaped(s: Seq<char>) -> Seq<char>
    decreases s.len(),
{
    if s.len() == 0 || s[0] == '"' {
        Seq::empty()
    } else if s[0] == '\\' {
        if s.len() == 1 {
            Seq::empty()
        } else {
            seq![escape_of(s[1])] + unescaped(s.skip(2))
        }
    } else {
        seq![s[0]] + unescaped(s.drop_first())
    }
}

/// The place where a comment begins after an unquoted value: a space and a number sign.
pub open spec fn comment_at(s: Seq<char>) -> int
    decreases s.len(),
{
    if s.len() < 2 {
        s.len() as int
    } else if s[0] == ' ' && s[1] == '#' {
        0
    } else {
        1 + comment_at(s.drop_first())
    }
}

/// What a value stands for: one in double quotes has escapes, one in single quotes has
/// none, one without quotes may have a comment after it.
pub open spec fn value_of(raw: Seq<char>) -> Seq<char> {
    if raw.len() > 0 && raw[0] == '"' {
        unescaped(raw.drop_first())
    } else if raw.len() > 0 && raw[0] == '\'' {
        raw.drop_first().take(first_at(raw.drop_first(), '\''))
    } else if comment_at(raw) < raw.len() {
        trim_end_of(raw.take(comment_at(raw)))
    } else {
        raw
    }
}

/// Reads the text after an opening double quote.
fn unescape_double_quoted(v: &Vec<char>, from: usize, to: usize) -> (r: String)
    requires
        from <= to <= v@.len(),
    ensures
        r@ == unescaped(v@.subrange(from as int, to as int)),
{
    let ghost whole = v@.subrange(from as int, to as int);
    let mut out = String::new();
    let mut escaped = false;
    let mut i: usize = from;
    assert(out@ + unescaped(whole) =~= unescaped(whole));
    while i < to && (escaped || v[i] != '"')
        invariant
            from <= i <= to <= v@.len(),
            escaped ==> from < i && v@[i - 1] == '\\',
            unescaped(whole) == (if escaped {
                out@ + unescaped(v@.subrange(i - 1, to as int))
            } else {
                out@ + unescaped(v@.subrange(i as int, to as int))
            }),
        decreases to - i,
    {
        let c = v[i];
        let ghost before = out@;
        if escaped {
            let ghost rest = v@.subrange(i - 1, to as int);
            out.push(
                if c == 'n' {
                    '\n'
                } else if c == 't' {
                    '\t'
                } else if c == 'r' {
                    '\r'
                } else {
                    c
                },
            );
            escaped = false;
            proof {
                assert(rest.skip(2) =~= v@.subrange(i + 1, to as int));
                assert(out@ =~= before + seq![escape_of(c)]);
                assert(out@ + unescaped(rest.skip(2)) =~= before + (seq![escape_of(c)] + unescaped(
                    rest.skip(2),
                )));
            }
        } else if c == '\\' {
            escaped = true;
        } else {
            let ghost rest = v@.subrange(i as int, to as int);
            out.push(c);
            proof {
                assert(rest.drop_first() =~= v@.subrange(i + 1, to as int));
                assert(out@ =~= before + seq![c]);
                assert(out@ + unescaped(rest.drop_first()) =~= before + (seq![c] + unescaped(
                    rest.drop_first(),
                )));
            }
        }
        i = i + 1;
    }
    proof {
        if escaped {
            assert(v@.subrange(i - 1, to as int).len() == 1);
            assert(out@ =~= out@ + unescaped(v@.subrange(i - 1, to as int)));
        } else {
            assert(out@ =~= out@ + unescaped(v@.subrange(i as int, to as int)));
        }
    }
    out
}

/// The place in `v[from..to]` where a comment begins, or `to`.
fn find_comment(v: &Vec<char>, from: usize, to: usize) -> (r: usize)
    requires
        from <= to <= v@.len(),
    ensures
        from <= r <= to,
        r - from == comment_at(v@.subrange(from as int, to as int)),
{
    let mut i: usize = from;
    while i < to && !(to - i >= 2 && v[i] == ' ' && v[i + 1] == '#')
        invariant
            from <= i <= to <= v@.len(),
            comment_at(v@.subrange(from as int, to as int)) == i - from + comment_at(
                v@.subrange(i as int, to as int),
            ),
        decreases to - i,
    {
        proof {
            let rest = v@.subrange(i as int, to as int);
            assert(rest.drop_first() =~= v@.subrange(i + 1, to as int));
        }
        i = i + 1;
    }
    i
}

/// Reads a value.
fn parse_value(v: &Vec<char>, from: usize, to: usize) -> (r: String)
    requires
        from <= to <= v@.len(),
    ensures
        r@ == value_of(v@.subrange(from as int, to as int)),
{
    let ghost raw = v@.subrange(from as int, to as int);
    if from < to && v[from] == '"' {
        assert(raw.drop_first() =~= v@.subrange(from + 1, to as int));
        return unescape_double_quoted(v, from + 1, to);
    }
    if from < to && v[from] == '\'' {
        assert(raw.drop_first() =~= v@.subrange(from + 1, to as int));
        let end = find_char(v, from + 1, to, '\'');
        assert(raw.drop_first().take(end - from - 1) =~= v@.subrange(from + 1, end as int));
        return text::string_of(v, from + 1, end);
    }
    let end = find_comment(v, from, to);
    if end < to {
        assert(raw.take(end - from) =~= v@.subrange(from as int, end as int));
        let last = drop_white(v, from, end);
        return text::string_of(v, from, last);
    }
    text::string_of(v, from, to)
}

// ---- Lines --------------------------------------------------------------------

/// What a line gives: a name and its value, or nothing where the line is blank, a
/// comment, or no binding.
pub open spec fn binding_of(raw: Seq<char>) -> Option<(Seq<char>, Seq<char>)> {
    let line = trimmed(raw);
    let rest = if "export "@.is_prefix_of(line) {
        trim_start_of(line.skip("export "@.len() as int))
    } else {
        line
    };
    let eq = first_at(rest, '=');
    let key = trimmed(rest.take(eq));
    if line.len() == 0 || line[0] == '#' || eq >= rest.len() || key.len() == 0 {
        None
    } else {
        Some((key, value_of(trimmed(rest.skip(eq + 1)))))
    }
}

/// The variables that lines give, a later one in place of an earlier one.
pub open spec fn bound_by(lines: Seq<Seq<char>>) -> Map<Seq<char>, Seq<char>>
    decreases lines.len(),
{
    if lines.len() == 0 {
        Map::empty()
    } else {
        let before = bound_by(lines.drop_last());
        match binding_of(lines.last()) {
            Some((key, value)) => before.insert(key, value),
            None => before,
        }
    }
}

/// The variables that an environment file gives.
pub open spec fn dotenv(content: Seq<char>) -> Map<Seq<char>, Seq<char>> {
    bound_by(lines_of(content))
}

/// The variables that a map holds.
pub open spec fn env_map(env: NameMap<String>) -> Map<Seq<char>, Seq<char>> {
    env@.map_values(|s: String| s@)
}

proof fn lemma_export()
    ensures
        "export "@ == seq!['e', 'x', 'p', 'o', 'r', 't', ' '],
{
    reveal_strlit("export ");
    assert("export "@ =~= seq!['e', 'x', 'p', 'o', 'r', 't', ' ']);
}

/// Whether `v[from..to]` begins with the word that exports a variable.
fn exports(v: &Vec<char>, from: usize, to: usize) -> (r: bool)
    requires
        from <= to <= v@.len(),
    ensures
        r == "export "@.is_prefix_of(v@.subrange(from as int, to as int)),
{
    proof {
        lemma_export();
    }
    let ghost line = v@.subrange(from as int, to as int);
    if to - from < 7 {
        return false;
    }
    let r = v[from] == 'e' && v[from + 1] == 'x' && v[from + 2] == 'p' && v[from + 3] == 'o'
        && v[from + 4] == 'r' && v[from + 5] == 't' && v[from + 6] == ' ';
    proof {
        let head = line.subrange(0, 7);
        if r {
            assert(head =~= "export "@);
        } else if "export "@.is_prefix_of(line) {
            assert forall|k: int| 0 <= k < 7 implies v@[from + k] == "export "@[k] by {
                assert(head[k] == line[k]);
            }
            assert(false);
        }
    }
    r
}

/// Reads a line, and records what it gives.
fn parse_line(v: &Vec<char>, from: usize, to: usize, env: &mut NameMap<String>)
    requires
        from <= to <= v@.len(),
        old(env).wf(),
    ensures
        final(env).wf(),
        env_map(*final(env)) == (match binding_of(v@.subrange(from as int, to as int)) {
            Some((key, value)) => env_map(*old(env)).insert(key, value),
            None => env_map(*old(env)),
        }),
{
    let ghost raw = v@.subrange(from as int, to as int);
    let start = skip_white(v, from, to);
    let end = drop_white(v, start, to);
    let ghost line = v@.subrange(start as int, end as int);
    assert(line == trimmed(raw));
    if start == end || v[start] == '#' {
        return;
    }
    let first: usize = if exports(v, start, end) {
        proof {
            lemma_export();
            assert(line.skip(7) =~= v@.subrange(start + 7, end as int));
        }
        skip_white(v, start + 7, end)
    } else {
        start
    };
    let ghost rest = v@.subrange(first as int, end as int);
    let eq = find_char(v, first, end, '=');
    if eq >= end {
        return;
    }
    proof {
        assert(rest.take(eq - first) =~= v@.subrange(first as int, eq as int));
        assert(rest.skip(eq - first + 1) =~= v@.subrange(eq + 1, end as int));
    }
    let key_start = skip_white(v, first, eq);
    let key_end = drop_white(v, key_start, eq);
    if key_start == key_end {
        return;
    }
    let key = text::string_of(v, key_start, key_end);
    let value_start = skip_white(v, eq + 1, end);
    let value_end = drop_white(v, value_start, end);
    let value = parse_value(v, value_start, value_end);
    let ghost before = env_map(*env);
    let ghost k = key@;
    let ghost x = value@;
    env.insert(key, value);
    assert(env_map(*env) =~= before.insert(k, x));
}

/// Reads an environment file.
pub fn parse_dotenv(content: &str) -> (r: NameMap<String>)
    ensures
        r.wf(),
        env_map(r) == dotenv(content@),
{
    let v = text::chars_of(content);
    let mut env: NameMap<String> = NameMap::new();
    let ghost all = lines_of(v@);
    let mut at: usize = 0;
    let mut more = true;
    let ghost mut done: int = 0;
    proof {
        assert(v@.subrange(0, v@.len() as int) =~= v@);
        assert(all.take(0) =~= Seq::<Seq<char>>::empty());
        assert(env_map(env) =~= Map::<Seq<char>, Seq<char>>::empty());
        assert(all.skip(0) =~= all);
    }
    while more
        invariant
            v@ == content@,
            all == lines_of(v@),
            env.wf(),
            at <= v@.len(),
            0 <= done <= all.len(),
            more ==> all.skip(done) == lines_of(v@.subrange(at as int, v@.len() as int)),
            !more ==> done == all.len(),
            env_map(env) == bound_by(all.take(done)),
        decreases v@.len() - at + if more {
            1int
        } else {
            0int
        },
    {
        let end = find_char(&v, at, v.len(), '\n');
        let ghost rest = v@.subrange(at as int, v@.len() as int);
        proof {
            lemma_first_at(rest, '\n');
            assert(rest.take(end - at) =~= v@.subrange(at as int, end as int));
            assert(lines_of(rest).len() > 0);
            assert(all.skip(done)[0] == v@.subrange(at as int, end as int)) by {
                if end == v@.len() {
                    assert(rest =~= v@.subrange(at as int, end as int));
                }
            }
            assert(all.take(done + 1).drop_last() =~= all.take(done));
            assert(all.take(done + 1).last() == all.skip(done)[0]);
        }
        parse_line(&v, at, end, &mut env);
        if end < v.len() {
            proof {
                assert(rest.skip(end - at + 1) =~= v@.subrange(end + 1, v@.len() as int));
                assert(all.skip(done + 1) =~= all.skip(done).skip(1));
                assert(lines_of(rest).skip(1) =~= lines_of(rest.skip(end - at + 1)));
            }
            at = end + 1;
        } else {
            proof {
                assert(lines_of(rest) =~= seq![rest]);
                assert(all.skip(done).len() == 1);
            }
            more = false;
        }
        proof {
            done = done + 1;
        }
    }
    assert(all.take(done) =~= all);
    env
}

// ---- Files ----------------------------------------------------------------------

/// Why an environment file could not be read.
#[derive(Debug)]
pub enum EnvFileFailure {
    /// The file cannot be resolved.
    Unresolved(String),
    /// The directory of the profile cannot be resolved.
    NoProfileDir(String),
    /// The file cannot be read.
    Unreadable(String),
    /// The task that reads the file failed.
    Task(String),
}

/// What a failed environment file is answered with.
pub open spec fn failed_env_file(rel: Seq<char>, why: EnvFileFailure) -> LaunchErrorView {
    let name = "env_file '"@ + rel;
    LaunchErrorView::InvalidProfile {
        msg: match why {
            EnvFileFailure::Unresolved(e) => name + "': cannot resolve env_file: "@ + e@,
            EnvFileFailure::NoProfileDir(e) => name + "': cannot resolve profile directory: "@
                + e@,
            EnvFileFailure::Unreadable(e) => name + "': cannot read env_file: "@ + e@,
            EnvFileFailure::Task(e) => name + "' load task failed: "@ + e@,
        },
    }
}

/// What a failed environment file is answered with.
pub fn env_file_failed(rel: &str, why: EnvFileFailure) -> (r: LaunchError)
    ensures
        r@ == failed_env_file(rel@, why),
        r matches LaunchError::InvalidProfile { msg } && match why {
            EnvFileFailure::Unresolved(e) => msg@ == "env_file '"@ + rel@
                + "': cannot resolve env_file: "@ + e@,
            EnvFileFailure::NoProfileDir(e) => msg@ == "env_file '"@ + rel@
                + "': cannot resolve profile directory: "@ + e@,
            EnvFileFailure::Unreadable(e) => msg@ == "env_file '"@ + rel@
                + "': cannot read env_file: "@ + e@,
            EnvFileFailure::Task(e) => msg@ == "env_file '"@ + rel@ + "' load task failed: "@ + e@,
        },
{
    let name = text::cat2("env_file '", rel);
    let msg = match why {
        EnvFileFailure::Unresolved(e) => text::cat3(
            name.as_str(),
            "': cannot resolve env_file: ",
            e.as_str(),
        ),
        EnvFileFailure::NoProfileDir(e) => text::cat3(
            name.as_str(),
            "': cannot resolve profile directory: ",
            e.as_str(),
        ),
        EnvFileFailure::Unreadable(e) => text::cat3(
            name.as_str(),
            "': cannot read env_file: ",
            e.as_str(),
        ),
        EnvFileFailure::Task(e) => text::cat3(name.as_str(), "' load task failed: ", e.as_str()),
    };
    LaunchError::InvalidProfile { msg }
}

/// Checks the path of an environment file before anything is looked up: it is relative
/// and never leads to a parent directory.
pub fn check_env_path(rel: &str) -> (r: Result<(), LaunchError>)
    ensures
        ({
            let path = encode_utf8(rel@);
            &&& r is Ok <==> !paths::absolute(path) && !paths::climbs(path)
            &&& r matches Err(e) ==> e@ == LaunchErrorView::InvalidProfile {
                msg: "env_file '"@ + rel@ + (if paths::absolute(path) {
                    "' must be relative to the profile directory"@
                } else {
                    "' must not contain '..'"@
                }),
            }
        }),
{
    let path = rel.as_bytes();
    if paths::is_absolute(path) {
        return Err(
            LaunchError::InvalidProfile {
                msg: text::cat3(
                    "env_file '",
                    rel,
                    "' must be relative to the profile directory",
                ),
            },
        );
    }
    if paths::has_parent_dir(path) {
        return Err(
            LaunchError::InvalidProfile {
                msg: text::cat3("env_file '", rel, "' must not contain '..'"),
            },
        );
    }
    Ok(())
}

/// Checks where an environment file leads, links followed: it stays in the directory of
/// the profile.
pub fn check_env_target(rel: &str, target: &[u8], profile_dir: &[u8]) -> (r: Result<
    (),
    LaunchError,
>)
    ensures
        r is Ok <==> paths::under(target@, profile_dir@),
        r matches Err(e) ==> e@ == (LaunchErrorView::InvalidProfile {
            msg: "env_file '"@ + rel@ + "': env_file resolves outside the profile directory"@,
        }),
{
    if paths::starts_with(target, profile_dir) {
        return Ok(());
    }
    Err(
        LaunchError::InvalidProfile {
            msg: text::cat3(
                "env_file '",
                rel,
                "': env_file resolves outside the profile directory",
            ),
        },
    )
}

// ---- Merging ----------------------------------------------------------------------

/// The variables that files give one after the other, a later one in place of an earlier
/// one.
pub open spec fn layered(contents: Seq<Seq<char>>) -> Map<Seq<char>, Seq<char>>
    decreases contents.len(),
{
    if contents.len() == 0 {
        Map::empty()
    } else {
        layered(contents.drop_last()).union_prefer_right(dotenv(contents.last()))
    }
}

/// The environment of a service: what its files give, and over that its own variables.
pub open spec fn merged(
    contents: Seq<Seq<char>>,
    inline: Map<Seq<char>, Seq<char>>,
) -> Map<Seq<char>, Seq<char>> {
    layered(contents).union_prefer_right(inline)
}

/// Puts the variables of `top` over those of `base`.
fn extend_env(base: &mut NameMap<String>, top: &NameMap<String>)
    requires
        old(base).wf(),
        top.wf(),
    ensures
        final(base).wf(),
        env_map(*final(base)) == env_map(*old(base)).union_prefer_right(env_map(*top)),
{
    let ghost before = env_map(*base);
    let ghost names = top.names();
    let mut i: usize = 0;
    while i < top.len()
        invariant
            top.wf(),
            base.wf(),
            names == top.names(),
            i <= names.len(),
            forall|n: Seq<char>| #[trigger]
                env_map(*base).contains_key(n) <==> before.contains_key(n) || names.take(
                    i as int,
                ).contains(n),
            forall|n: Seq<char>| #[trigger]
                names.take(i as int).contains(n) ==> env_map(*base)[n] == env_map(*top)[n],
            forall|n: Seq<char>|
                before.contains_key(n) && !(#[trigger] names.take(i as int).contains(n))
                    ==> env_map(*base)[n] == before[n],
        decreases names.len() - i,
    {
        let ghost at = env_map(*base);
        let name = top.name_at(i).clone();
        let value = top.val_at(i).clone();
        let ghost k = name@;
        let ghost x = value@;
        base.insert(name, value);
        proof {
            assert(env_map(*base) =~= at.insert(k, x));
            crate::launch::names::pairs_are_kept(names, top.vals(), i as int);
            assert(env_map(*top)[k] == x);
            let next = names.take(i + 1);
            assert(next =~= names.take(i as int).push(k));
            assert forall|n: Seq<char>| #[trigger]
                next.contains(n) <==> names.take(i as int).contains(n) || n == k by {
                if n == k {
                    assert(next[i as int] == n);
                }
                if names.take(i as int).contains(n) {
                    let j = choose|j: int|
                        0 <= j < names.take(i as int).len() && names.take(i as int)[j] == n;
                    assert(next[j] == n);
                }
            }
        }
        i = i + 1;
    }
    proof {
        assert(names.take(i as int) =~= names);
        assert(env_map(*base) =~= before.union_prefer_right(env_map(*top)));
    }
}

/// Merges the contents of environment files, in the order in which they are listed, with
/// the variables of the service itself.
pub fn merge_env_files(inline: &NameMap<String>, contents: &Vec<String>) -> (r: NameMap<String>)
    requires
        inline.wf(),
    ensures
        r.wf(),
        env_map(r) == merged(texts(contents@), env_map(*inline)),
{
    let ghost all = texts(contents@);
    let mut env: NameMap<String> = NameMap::new();
    let mut i: usize = 0;
    proof {
        assert(all.take(0) =~= Seq::<Seq<char>>::empty());
        assert(env_map(env) =~= Map::<Seq<char>, Seq<char>>::empty());
    }
    while i < contents.len()
        invariant
            inline.wf(),
            env.wf(),
            all == texts(contents@),
            i <= contents@.len(),
            env_map(env) == layered(all.take(i as int)),
        decreases contents@.len() - i,
    {
        let file = parse_dotenv(contents[i].as_str());
        extend_env(&mut env, &file);
        proof {
            assert(all.take(i + 1).drop_last() =~= all.take(i as int));
            assert(all.take(i + 1).last() == contents@[i as int]@);
        }
        i = i + 1;
    }
    assert(all.take(i as int) =~= all);
    extend_env(&mut env, inline);
    env
}

/// The variables of an environment are those that its map holds.
pub proof fn variables_are_seen_as_held(env: NameMap<String>, n: Seq<char>)
    ensures
        env_map(env).contains_key(n) <==> env@.contains_key(n),
        env@.contains_key(n) ==> env_map(env)[n] == env@[n]@,
{
}

/// A variable of the service itself goes before those of its files.
pub proof fn inline_variables_win(
    contents: Seq<Seq<char>>,
    inline: Map<Seq<char>, Seq<char>>,
    key: Seq<char>,
)
    requires
        inline.contains_key(key),
    ensures
        merged(contents, inline).contains_key(key),
        merged(contents, inline)[key] == inline[key],
{
}

/// Of the files, the last one that gives a variable goes before the others.
pub proof fn last_file_wins(
    contents: Seq<Seq<char>>,
    inline: Map<Seq<char>, Seq<char>>,
    key: Seq<char>,
    i: int,
)
    requires
        !inline.contains_key(key),
        0 <= i < contents.len(),
        dotenv(contents[i]).contains_key(key),
        forall|j: int| i < j < contents.len() ==> !dotenv(#[trigger] contents[j]).contains_key(key),
    ensures
        merged(contents, inline).contains_key(key),
        merged(contents, inline)[key] == dotenv(contents[i])[key],
    decreases contents.len(),
{
    if i < contents.len() - 1 {
        let front = contents.drop_last();
        assert(contents.last() == contents[contents.len() - 1]);
        assert forall|j: int| i < j < front.len() implies !dotenv(#[trigger] front[j]).contains_key(
            key,
        ) by {
            assert(front[j] == contents[j]);
        }
        last_file_wins(front, inline, key, i);
    }
}

/// What neither the service nor its files give is not set.
pub proof fn nothing_else_is_set(
    contents: Seq<Seq<char>>,
    inline: Map<Seq<char>, Seq<char>>,
    key: Seq<char>,
)
    requires
        !inline.contains_key(key),
        forall|j: int| 0 <= j < contents.len() ==> !dotenv(#[trigger] contents[j]).contains_key(key),
    ensures
        !merged(contents, inline).contains_key(key),
    decreases contents.len(),
{
    if contents.len() > 0 {
        let front = contents.drop_last();
        assert(contents.last() == contents[contents.len() - 1]);
        assert forall|j: int| 0 <= j < front.len() implies !dotenv(#[trigger] front[j]).contains_key(
            key,
        ) by {
            assert(front[j] == contents[j]);
        }
        nothing_else_is_set(front, inline, key);
    }
}

// ---- Quotes -------------------------------------------------------------------------

proof fn lemma_no_quote(s: Seq<char>, tail: Seq<char>, c: char)
    requires
        forall|i: int| 0 <= i < s.len() ==> s[i] != c,
        tail.len() > 0,
        tail[0] == c,
    ensures
        first_at(s + tail, c) == s.len(),
    decreases s.len(),
{
    if s.len() > 0 {
        assert((s + tail).drop_first() =~= s.drop_first() + tail);
        lemma_no_quote(s.drop_first(), tail, c);
    } else {
        assert(s + tail =~= tail);
    }
}

/// Between single quotes every character but the quote stands for itself.
pub proof fn single_quotes_are_literal(s: Seq<char>, after: Seq<char>)
    requires
        forall|i: int| 0 <= i < s.len() ==> s[i] != '\'',
    ensures
        value_of(seq!['\''] + s + seq!['\''] + after) == s,
{
    let raw = seq!['\''] + s + seq!['\''] + after;
    let tail = seq!['\''] + after;
    assert(raw.drop_first() =~= s + tail);
    lemma_no_quote(s, tail, '\'');
    assert((s + tail).take(s.len() as int) =~= s);
}

/// A text as it is written between double quotes: a backslash before each quote and each
/// backslash, and escapes for line feeds, tabs and carriage returns.
pub open spec fn escaped(s: Seq<char>) -> Seq<char>
    decreases s.len(),
{
    if s.len() == 0 {
        Seq::empty()
    } else {
        let c = s[0];
        let head = if c == '\n' {
            seq!['\\', 'n']
        } else if c == '\t' {
            seq!['\\', 't']
        } else if c == '\r' {
            seq!['\\', 'r']
        } else if c == '"' || c == '\\' {
            seq!['\\', c]
        } else {
            seq![c]
        };
        head + escaped(s.drop_first())
    }
}

proof fn lemma_escaped(s: Seq<char>, after: Seq<char>)
    ensures
        unescaped(escaped(s) + seq!['"'] + after) == s,
    decreases s.len(),
{
    let tail = seq!['"'] + after;
    assert(escaped(s) + seq!['"'] + after =~= escaped(s) + tail);
    if s.len() == 0 {
        assert(escaped(s) + tail =~= tail);
        assert(unescaped(tail) =~= s);
    } else {
        let c = s[0];
        let rest = s.drop_first();
        lemma_escaped(rest, after);
        assert(escaped(rest) + seq!['"'] + after =~= escaped(rest) + tail);
        assert(s =~= seq![c] + rest);
        let whole = escaped(s) + tail;
        if c == '\n' || c == '\t' || c == '\r' || c == '"' || c == '\\' {
            assert(whole.skip(2) =~= escaped(rest) + tail);
            assert(whole[0] == '\\');
        } else {
            assert(whole.drop_first() =~= escaped(rest) + tail);
            assert(whole[0] == c);
        }
    }
}

/// Between double quotes escapes are read back: every text can be written there.
pub proof fn double_quotes_hold_any_text(s: Seq<char>, after: Seq<char>)
    ensures
        value_of(seq!['"'] + escaped(s) + seq!['"'] + after) == s,
{
    let raw = seq!['"'] + escaped(s) + seq!['"'] + after;
    assert(raw.drop_first() =~= escaped(s) + seq!['"'] + after);
    lemma_escaped(s, after);
}

/// Between double quotes a backslash before `n`, `t` or `r` gives a line feed, a tab or a
/// carriage return, and before any other character that character. What is not behind a
/// backslash stands for itself, up to the next quote.
pub proof fn escapes_are_read_one_by_one(c: char, rest: Seq<char>)
    ensures
        value_of(seq!['"', '\\', 'n'] + rest) == seq!['\n'] + value_of(seq!['"'] + rest),
        value_of(seq!['"', '\\', 't'] + rest) == seq!['\t'] + value_of(seq!['"'] + rest),
        value_of(seq!['"', '\\', 'r'] + rest) == seq!['\r'] + value_of(seq!['"'] + rest),
        c != 'n' && c != 't' && c != 'r' ==> value_of(seq!['"', '\\', c] + rest) == seq![c]
            + value_of(seq!['"'] + rest),
        c != '"' && c != '\\' ==> value_of(seq!['"', c] + rest) == seq![c] + value_of(
            seq!['"'] + rest,
        ),
        value_of(seq!['"', '"'] + rest) == Seq::<char>::empty(),
        value_of(seq!['"', '\\']) == Seq::<char>::empty(),
        value_of(seq!['"']) == Seq::<char>::empty(),
{
    assert((seq!['"'] + rest).drop_first() =~= rest);
    lemma_escape('n', rest);
    lemma_escape('t', rest);
    lemma_escape('r', rest);
    lemma_escape(c, rest);
    let plain = (seq!['"', c] + rest).drop_first();
    assert(plain =~= seq![c] + rest);
    assert(plain.drop_first() =~= rest);
    assert(plain[0] == c);
    let ended = (seq!['"', '"'] + rest).drop_first();
    assert(ended[0] == '"');
    assert(seq!['"', '\\'].drop_first() =~= seq!['\\']);
    assert(seq!['"'].drop_first() =~= Seq::<char>::empty());
}

proof fn lemma_escape(d: char, rest: Seq<char>)
    ensures
        unescaped((seq!['"', '\\', d] + rest).drop_first()) == seq![escape_of(d)] + unescaped(rest),
{
    let s = (seq!['"', '\\', d] + rest).drop_first();
    assert(s =~= seq!['\\', d] + rest);
    assert(s[0] == '\\' && s[1] == d);
    assert(s.skip(2) =~= rest);
}

// ---- Lines --------------------------------------------------------------------------

/// White space is the blank, the controls from tab to carriage return, and what Unicode adds to
/// them; no letter, digit or sign of ASCII is.
pub proof fn white_space_is_no_sign(c: char)
    ensures
        white(' ') && white('\t') && white('\n') && white('\r'),
        white('\u{b}') && white('\u{c}') && white('\u{85}') && white('\u{a0}') && white('\u{1680}'),
        '\u{2000}' <= c <= '\u{200a}' ==> white(c),
        white('\u{2028}') && white('\u{2029}') && white('\u{202f}') && white('\u{205f}') && white(
            '\u{3000}',
        ),
        '!' <= c <= '~' ==> !white(c),
        c <= '\u{8}' ==> !white(c),
        '\u{e}' <= c <= '\u{1f}' ==> !white(c),
        '\u{a1}' <= c <= '\u{167f}' ==> !white(c),
        '\u{3001}' <= c ==> !white(c),
{
}

proof fn lemma_trim_start(a: Seq<char>, x: Seq<char>)
    requires
        forall|i: int| 0 <= i < a.len() ==> white(a[i]),
        x.len() > 0 ==> !white(x[0]),
    ensures
        trim_start_of(a + x) == x,
    decreases a.len(),
{
    if a.len() > 0 {
        assert((a + x)[0] == a[0]);
        assert((a + x).drop_first() =~= a.drop_first() + x);
        lemma_trim_start(a.drop_first(), x);
    } else {
        assert(a + x =~= x);
    }
}

proof fn lemma_trim_end(x: Seq<char>, b: Seq<char>)
    requires
        forall|i: int| 0 <= i < b.len() ==> white(b[i]),
        x.len() > 0 ==> !white(x.last()),
    ensures
        trim_end_of(x + b) == x,
    decreases b.len(),
{
    if b.len() > 0 {
        assert((x + b).last() == b.last());
        assert((x + b).drop_last() =~= x + b.drop_last());
        assert forall|i: int| 0 <= i < b.drop_last().len() implies white(b.drop_last()[i]) by {
            assert(b.drop_last()[i] == b[i]);
        }
        assert(white(b[b.len() - 1]));
        lemma_trim_end(x, b.drop_last());
    } else {
        assert(x + b =~= x);
    }
}

/// Trimming takes away the white space around a text and nothing else.
pub proof fn trimming_keeps_the_text(a: Seq<char>, x: Seq<char>, b: Seq<char>)
    requires
        forall|i: int| 0 <= i < a.len() ==> white(a[i]),
        forall|i: int| 0 <= i < b.len() ==> white(b[i]),
        x.len() > 0 ==> !white(x[0]) && !white(x.last()),
    ensures
        trimmed(a + x + b) == x,
{
    if x.len() > 0 {
        assert(a + x + b =~= a + (x + b));
        lemma_trim_start(a, x + b);
        lemma_trim_end(x, b);
    } else {
        let all = a + x + b;
        assert forall|i: int| 0 <= i < all.len() implies white(all[i]) by {
            if i < a.len() {
                assert(all[i] == a[i]);
            } else {
                assert(all[i] == b[i - a.len()]);
            }
        }
        assert(all =~= all + Seq::<char>::empty());
        lemma_trim_start(all, Seq::empty());
        assert(trim_end_of(Seq::<char>::empty()) == Seq::<char>::empty());
        assert(x =~= Seq::<char>::empty());
    }
}

proof fn lemma_trim_nothing(x: Seq<char>)
    requires
        x.len() > 0 ==> !white(x[0]) && !white(x.last()),
    ensures
        trimmed(x) == x,
        trim_start_of(x) == x,
        trim_end_of(x) == x,
{
    let none = Seq::<char>::empty();
    assert(none + x + none =~= x);
    assert(none + x =~= x);
    assert(x + none =~= x);
    trimming_keeps_the_text(none, x, none);
    lemma_trim_start(none, x);
    lemma_trim_end(x, none);
}

proof fn lemma_not_exported(k: Seq<char>, b: Seq<char>, rest: Seq<char>)
    requires
        forall|i: int| 0 <= i < k.len() ==> !white(#[trigger] k[i]),
        b.len() == 0 || k != "export"@,
        forall|i: int| 0 <= i < b.len() ==> white(#[trigger] b[i]),
        rest.len() > 0 && rest[0] == '=',
    ensures
        !("export "@.is_prefix_of(k + b + rest)),
{
    reveal_strlit("export ");
    reveal_strlit("export");
    let line = k + b + rest;
    let word = "export "@;
    if word.is_prefix_of(line) {
        assert(word =~= line.take(7));
        assert forall|i: int| 0 <= i < 7 implies word[i] == line[i] by {
            assert(line.take(7)[i] == line[i]);
        }
        assert(white(' '));
        if k.len() >= 7 {
            assert(line[6] == k[6]);
            assert(white(k[6]));
        } else if b.len() == 0 {
            assert(line[k.len() as int] == rest[0]);
            assert(word[k.len() as int] == '=');
        } else if k.len() == 6 {
            assert(k =~= "export"@) by {
                assert forall|i: int| 0 <= i < 6 implies k[i] == "export"@[i] by {
                    assert(line[i] == k[i]);
                    assert(word[i] == line[i]);
                }
            }
        } else {
            let at = k.len() as int;
            assert(line[at] == b[0]);
            assert(white(b[0]));
            assert(word[at] == b[0]);
            assert(at == 0 || at == 1 || at == 2 || at == 3 || at == 4 || at == 5);
        }
    }
}

/// A line `key=value` binds the key to what the value stands for, whether `=` occurs in the value
/// or not: the first `=` of the line ends the key.
pub proof fn lines_bind_keys_to_values(k: Seq<char>, w: Seq<char>)
    requires
        k.len() > 0,
        k[0] != '#',
        forall|i: int| 0 <= i < k.len() ==> !white(#[trigger] k[i]) && k[i] != '=',
        w.len() > 0 ==> !white(w[0]) && !white(w.last()),
    ensures
        binding_of(k + seq!['='] + w) == Some((k, value_of(w))),
{
    let none = Seq::<char>::empty();
    if w.len() > 0 {
        spaced_lines_bind_alike(none, k, none, none, w, none);
        assert(none + k + none + seq!['='] + none + w + none =~= k + seq!['='] + w);
    } else {
        let line = k + seq!['='] + w;
        let tail = seq!['='] + w;
        assert(line =~= k + tail);
        assert(line[0] == k[0] && line.last() == '=');
        lemma_trim_nothing(line);
        lemma_not_exported(k, none, tail);
        assert(k + none + tail =~= line);
        lemma_no_quote(k, tail, '=');
        assert(line.take(k.len() as int) =~= k);
        assert(k.last() == k[k.len() - 1]);
        lemma_trim_nothing(k);
        assert(line.skip(k.len() as int + 1) =~= w);
        lemma_trim_nothing(w);
    }
}

/// White space before and after a line, around its key and around its value changes nothing.
pub proof fn spaced_lines_bind_alike(
    a: Seq<char>,
    k: Seq<char>,
    b: Seq<char>,
    c: Seq<char>,
    w: Seq<char>,
    d: Seq<char>,
)
    requires
        k.len() > 0,
        k[0] != '#',
        forall|i: int| 0 <= i < k.len() ==> !white(#[trigger] k[i]) && k[i] != '=',
        w.len() > 0,
        !white(w[0]) && !white(w.last()),
        forall|i: int| 0 <= i < a.len() ==> white(a[i]),
        forall|i: int| 0 <= i < b.len() ==> white(b[i]),
        forall|i: int| 0 <= i < c.len() ==> white(c[i]),
        forall|i: int| 0 <= i < d.len() ==> white(d[i]),
        b.len() == 0 || k != "export"@,
    ensures
        binding_of(a + k + b + seq!['='] + c + w + d) == Some((k, value_of(w))),
{
    let none = Seq::<char>::empty();
    let raw = a + k + b + seq!['='] + c + w + d;
    let tail = seq!['='] + (c + w);
    let line = k + b + tail;
    assert(raw =~= a + line + d);
    assert(line[0] == k[0]);
    assert(line.last() == w.last());
    trimming_keeps_the_text(a, line, d);
    lemma_not_exported(k, b, tail);
    let key = k + b;
    assert forall|i: int| 0 <= i < key.len() implies key[i] != '=' by {
        if i < k.len() {
            assert(key[i] == k[i]);
        } else {
            assert(key[i] == b[i - k.len()]);
            assert(!white('='));
        }
    }
    lemma_no_quote(key, tail, '=');
    assert(line =~= key + tail);
    assert(line.take(key.len() as int) =~= none + k + b);
    assert(k.last() == k[k.len() - 1]);
    trimming_keeps_the_text(none, k, b);
    assert(line.skip(key.len() as int + 1) =~= c + w + none);
    trimming_keeps_the_text(c, w, none);
}

/// A line that begins with `export` binds what follows the word.
pub proof fn exported_lines_bind_alike(a: Seq<char>, k: Seq<char>, w: Seq<char>)
    requires
        k.len() > 0,
        forall|i: int| 0 <= i < k.len() ==> !white(#[trigger] k[i]) && k[i] != '=',
        w.len() > 0 ==> !white(w[0]) && !white(w.last()),
        forall|i: int| 0 <= i < a.len() ==> white(a[i]),
    ensures
        binding_of("export "@ + a + k + seq!['='] + w) == Some((k, value_of(w))),
{
    reveal_strlit("export ");
    let word = "export "@;
    let tail = seq!['='] + w;
    let line = word + a + k + seq!['='] + w;
    let rest = k + tail;
    assert(line[0] == 'e');
    assert(line.last() == tail.last());
    if w.len() > 0 {
        assert(tail.last() == w.last());
    } else {
        assert(tail.last() == '=');
    }
    lemma_trim_nothing(line);
    assert(word =~= line.take(7));
    assert(word.is_prefix_of(line));
    assert(line.skip(7) =~= a + rest);
    assert(rest[0] == k[0]);
    lemma_trim_start(a, rest);
    lemma_no_quote(k, tail, '=');
    assert(rest.take(k.len() as int) =~= k);
    assert(k.last() == k[k.len() - 1]);
    lemma_trim_nothing(k);
    assert(rest.skip(k.len() as int + 1) =~= w);
    lemma_trim_nothing(w);
}

proof fn lemma_no_comment(w: Seq<char>)
    requires
        forall|i: int| 0 <= i < w.len() - 1 ==> !(#[trigger] w[i] == ' ' && w[i + 1] == '#'),
    ensures
        comment_at(w) == w.len(),
    decreases w.len(),
{
    if w.len() >= 2 {
        let rest = w.drop_first();
        assert(!(w[0] == ' ' && w[1] == '#'));
        assert forall|i: int| 0 <= i < rest.len() - 1 implies !(#[trigger] rest[i] == ' ' && rest[i
            + 1] == '#') by {
            assert(rest[i] == w[i + 1]);
            assert(rest[i + 1] == w[i + 1 + 1]);
        }
        lemma_no_comment(rest);
    }
}

/// A value that begins with no quote and holds no ` #` stands for itself.
pub proof fn plain_values_are_literal(w: Seq<char>)
    requires
        w.len() > 0 ==> w[0] != '"' && w[0] != '\'',
        forall|i: int| 0 <= i < w.len() - 1 ==> !(#[trigger] w[i] == ' ' && w[i + 1] == '#'),
    ensures
        value_of(w) == w,
{
    lemma_no_comment(w);
}

/// A line `key=value` whose value begins with no quote and holds no ` #` binds the key to the
/// value itself, `=` in it or not.
pub proof fn plain_lines_bind_literally(k: Seq<char>, w: Seq<char>)
    requires
        k.len() > 0,
        k[0] != '#',
        forall|i: int| 0 <= i < k.len() ==> !white(#[trigger] k[i]) && k[i] != '=',
        w.len() > 0 ==> !white(w[0]) && !white(w.last()),
        w.len() > 0 ==> w[0] != '"' && w[0] != '\'',
        forall|i: int| 0 <= i < w.len() - 1 ==> !(#[trigger] w[i] == ' ' && w[i + 1] == '#'),
    ensures
        binding_of(k + seq!['='] + w) == Some((k, w)),
{
    lines_bind_keys_to_values(k, w);
    plain_values_are_literal(w);
}

proof fn lemma_comment_after(w: Seq<char>, c: Seq<char>)
    requires
        forall|i: int| 0 <= i < w.len() - 1 ==> !(#[trigger] w[i] == ' ' && w[i + 1] == '#'),
    ensures
        comment_at(w + seq![' ', '#'] + c) == w.len(),
    decreases w.len(),
{
    let all = w + seq![' ', '#'] + c;
    if w.len() > 0 {
        let rest = w.drop_first();
        assert forall|i: int| 0 <= i < rest.len() - 1 implies !(#[trigger] rest[i] == ' ' && rest[i
            + 1] == '#') by {
            assert(rest[i] == w[i + 1]);
            assert(rest[i + 1] == w[i + 1 + 1]);
        }
        lemma_comment_after(rest, c);
        assert(all.drop_first() =~= rest + seq![' ', '#'] + c);
        assert(all[0] == w[0]);
        if w.len() == 1 {
            assert(all[1] == ' ');
        } else {
            assert(all[1] == w[1]);
            assert(!(w[0] == ' ' && w[1] == '#'));
        }
    } else {
        assert(all[0] == ' ' && all[1] == '#');
    }
}

/// Outside quotes a comment ends the value: what stands before ` #` counts, without the white
/// space between.
pub proof fn comments_end_values(w: Seq<char>, b: Seq<char>, c: Seq<char>)
    requires
        w.len() > 0,
        w[0] != '"' && w[0] != '\'' && !white(w.last()),
        forall|i: int| 0 <= i < w.len() - 1 ==> !(#[trigger] w[i] == ' ' && w[i + 1] == '#'),
        forall|i: int| 0 <= i < b.len() ==> white(b[i]),
    ensures
        value_of(w + b + seq![' ', '#'] + c) == w,
{
    let front = w + b;
    let raw = w + b + seq![' ', '#'] + c;
    assert forall|i: int| 0 <= i < front.len() - 1 implies !(#[trigger] front[i] == ' ' && front[i
        + 1] == '#') by {
        if i < w.len() - 1 {
            assert(front[i] == w[i] && front[i + 1] == w[i + 1]);
        } else {
            assert(front[i + 1] == b[i + 1 - w.len()]);
            assert(!white('#'));
        }
    }
    lemma_comment_after(front, c);
    assert(raw[0] == w[0]);
    assert(raw.take(front.len() as int) =~= front);
    lemma_trim_end(w, b);
}

/// A line that is blank, that begins with `#`, that has no `=` or nothing before it binds
/// nothing.
pub proof fn other_lines_bind_nothing(a: Seq<char>, rest: Seq<char>)
    requires
        forall|i: int| 0 <= i < a.len() ==> white(a[i]),
    ensures
        binding_of(a) is None,
        binding_of(a + seq!['#'] + rest) is None,
        binding_of(a + seq!['='] + rest) is None,
        (forall|i: int| 0 <= i < rest.len() ==> rest[i] != '=') ==> binding_of(rest) is None,
{
    let none = Seq::<char>::empty();
    trimming_keeps_the_text(a, none, none);
    assert(a + none + none =~= a);
    lemma_headed(a, '#', rest);
    lemma_headed(a, '=', rest);
    let line = trimmed(a + seq!['='] + rest);
    reveal_strlit("export ");
    if "export "@.is_prefix_of(line) {
        assert("export "@ =~= line.take(7));
        assert(line.take(7)[0] == line[0]);
    }
    assert(first_at(line, '=') == 0);
    assert(line.take(0) =~= none);
    assert(trimmed(none) =~= none);
    if forall|i: int| 0 <= i < rest.len() ==> rest[i] != '=' {
        let s = trimmed(rest);
        lemma_trim_start_within(rest);
        lemma_trim_end_within(trim_start_of(rest));
        let mid = trim_start_of(rest);
        assert forall|i: int| 0 <= i < mid.len() implies mid[i] != '=' by {
            assert(mid[i] == rest[i + (rest.len() - mid.len())]);
        }
        assert forall|i: int| 0 <= i < s.len() implies s[i] != '=' by {
            assert(s[i] == mid[i]);
        }
        lemma_absent(s, '=');
        if "export "@.is_prefix_of(s) {
            let after = s.skip(7);
            lemma_trim_start_within(after);
            let last = trim_start_of(after);
            assert forall|i: int| 0 <= i < last.len() implies last[i] != '=' by {
                assert(last[i] == after[i + (after.len() - last.len())]);
            }
            lemma_absent(last, '=');
        }
    }
}

proof fn lemma_headed(a: Seq<char>, h: char, rest: Seq<char>)
    requires
        forall|i: int| 0 <= i < a.len() ==> white(a[i]),
        !white(h),
    ensures
        trimmed(a + seq![h] + rest).len() > 0,
        trimmed(a + seq![h] + rest)[0] == h,
{
    let x = seq![h] + rest;
    assert(a + seq![h] + rest =~= a + x);
    lemma_trim_start(a, x);
    lemma_trim_end_head(x);
}

proof fn lemma_trim_end_head(x: Seq<char>)
    requires
        x.len() > 0,
        !white(x[0]),
    ensures
        trim_end_of(x).len() > 0,
        trim_end_of(x)[0] == x[0],
    decreases x.len(),
{
    if white(x.last()) {
        assert(x.last() == x[x.len() - 1]);
        lemma_trim_end_head(x.drop_last());
    }
}

proof fn lemma_trim_start_within(x: Seq<char>)
    ensures
        trim_start_of(x).len() <= x.len(),
        forall|i: int|
            0 <= i < trim_start_of(x).len() ==> #[trigger] trim_start_of(x)[i] == x[i + (x.len()
                - trim_start_of(x).len())],
    decreases x.len(),
{
    if x.len() > 0 && white(x[0]) {
        lemma_trim_start_within(x.drop_first());
    }
}

proof fn lemma_trim_end_within(x: Seq<char>)
    ensures
        trim_end_of(x).len() <= x.len(),
        forall|i: int| 0 <= i < trim_end_of(x).len() ==> #[trigger] trim_end_of(x)[i] == x[i],
    decreases x.len(),
{
    if x.len() > 0 && white(x.last()) {
        lemma_trim_end_within(x.drop_last());
    }
}

proof fn lemma_absent(s: Seq<char>, c: char)
    requires
        forall|i: int| 0 <= i < s.len() ==> s[i] != c,
    ensures
        first_at(s, c) == s.len(),
    decreases s.len(),
{
    if s.len() > 0 {
        assert forall|i: int| 0 <= i < s.drop_first().len() implies s.drop_first()[i] != c by {
            assert(s.drop_first()[i] == s[i + 1]);
        }
        lemma_absent(s.drop_first(), c);
    }
}

proof fn lemma_last_line(a: Seq<char>, line: Seq<char>)
    requires
        forall|i: int| 0 <= i < line.len() ==> line[i] != '\n',
    ensures
        lines_of(line) == seq![line],
        lines_of(a + seq!['\n'] + line) == lines_of(a).push(line),
    decreases a.len(),
{
    let all = a + seq!['\n'] + line;
    lemma_absent(line, '\n');
    lemma_first_at(a, '\n');
    let i = first_at(a, '\n');
    if i < a.len() {
        let head = a.take(i);
        let after = a.skip(i + 1);
        lemma_first_at_is(a, '\n');
        let tail = seq!['\n'] + (after + seq!['\n'] + line);
        assert forall|j: int| 0 <= j < head.len() implies head[j] != '\n' by {
            assert(head[j] == a[j]);
        }
        assert(all =~= head + tail);
        lemma_no_quote(head, tail, '\n');
        assert(all.take(i) =~= head);
        assert(all.skip(i + 1) =~= after + seq!['\n'] + line);
        lemma_last_line(after, line);
        assert(lines_of(all) =~= lines_of(a).push(line));
    } else {
        let tail = seq!['\n'] + line;
        lemma_first_at_is(a, '\n');
        assert(all =~= a + tail);
        lemma_no_quote(a, tail, '\n');
        assert(all.take(a.len() as int) =~= a);
        assert(all.skip(a.len() as int + 1) =~= line);
        assert(lines_of(line) == seq![line]);
        assert(first_at(all, '\n') == a.len());
        assert(lines_of(all) == seq![a] + lines_of(line));
        assert(lines_of(all) =~= seq![a].push(line));
    }
}

proof fn lemma_first_at_is(s: Seq<char>, c: char)
    ensures
        forall|j: int| 0 <= j < first_at(s, c) && j < s.len() ==> s[j] != c,
        first_at(s, c) < s.len() ==> s[first_at(s, c)] == c,
    decreases s.len(),
{
    if s.len() > 0 && s[0] != c {
        let rest = s.drop_first();
        lemma_first_at_is(rest, c);
        lemma_first_at(rest, c);
        assert forall|j: int| 0 <= j < first_at(s, c) && j < s.len() implies s[j] != c by {
            if j > 0 {
                assert(s[j] == rest[j - 1]);
            }
        }
    }
}

/// A file is read line by line, and a later line goes before an earlier one: a line at the end
/// adds what it binds to what the lines before it bind, in place of an earlier value.
pub proof fn later_lines_win(content: Seq<char>, line: Seq<char>)
    requires
        forall|i: int| 0 <= i < line.len() ==> line[i] != '\n',
    ensures
        dotenv(content + seq!['\n'] + line) == match binding_of(line) {
            Some((key, value)) => dotenv(content).insert(key, value),
            None => dotenv(content),
        },
        dotenv(line) == match binding_of(line) {
            Some((key, value)) => Map::<Seq<char>, Seq<char>>::empty().insert(key, value),
            None => Map::<Seq<char>, Seq<char>>::empty(),
        },
{
    lemma_last_line(content, line);
    let lines = lines_of(content);
    assert(lines.push(line).drop_last() =~= lines);
    assert(seq![line].drop_last() =~= Seq::<Seq<char>>::empty());
    assert(bound_by(seq![line].drop_last()) == Map::<Seq<char>, Seq<char>>::empty());
}

/// A file gives back what was written into it: a last line `key=value`, whose value begins with no
/// quote and holds no ` #`, sets the key to that value, whatever stands before it, and leaves the
/// other keys as they were.
pub proof fn written_variables_are_read_back(
    content: Seq<char>,
    k: Seq<char>,
    w: Seq<char>,
    other: Seq<char>,
)
    requires
        k.len() > 0,
        k[0] != '#',
        forall|i: int| 0 <= i < k.len() ==> !white(#[trigger] k[i]) && k[i] != '=',
        w.len() > 0 ==> !white(w[0]) && !white(w.last()),
        w.len() > 0 ==> w[0] != '"' && w[0] != '\'',
        forall|i: int| 0 <= i < w.len() - 1 ==> !(#[trigger] w[i] == ' ' && w[i + 1] == '#'),
        forall|i: int| 0 <= i < w.len() ==> w[i] != '\n',
        other != k,
    ensures
        ({
            let after = dotenv(content + seq!['\n'] + (k + seq!['='] + w));
            &&& after.contains_key(k) && after[k] == w
            &&& after.contains_key(other) <==> dotenv(content).contains_key(other)
            &&& dotenv(content).contains_key(other) ==> after[other] == dotenv(content)[other]
        }),
        dotenv(k + seq!['='] + w) == Map::<Seq<char>, Seq<char>>::empty().insert(k, w),
{
    let line = k + seq!['='] + w;
    plain_lines_bind_literally(k, w);
    assert forall|i: int| 0 <= i < line.len() implies line[i] != '\n' by {
        if i < k.len() {
            assert(line[i] == k[i]);
            assert(white('\n'));
        } else if i > k.len() {
            assert(line[i] == w[i - k.len() - 1]);
        }
    }
    later_lines_win(content, line);
}

/// A quote that is not closed reaches to the end of the value.
pub proof fn unclosed_quotes_reach_to_the_end(s: Seq<char>)
    requires
        forall|i: int| 0 <= i < s.len() ==> s[i] != '\'' && s[i] != '"' && s[i] != '\\',
    ensures
        value_of(seq!['\''] + s) == s,
        value_of(seq!['"'] + s) == s,
{
    assert((seq!['\''] + s).drop_first() =~= s);
    assert((seq!['"'] + s).drop_first() =~= s);
    lemma_absent(s, '\'');
    assert(s.take(s.len() as int) =~= s);
    lemma_nothing_escaped(s);
}

proof fn lemma_nothing_escaped(s: Seq<char>)
    requires
        forall|i: int| 0 <= i < s.len() ==> s[i] != '"' && s[i] != '\\',
    ensures
        unescaped(s) == s,
    decreases s.len(),
{
    if s.len() > 0 {
        let rest = s.drop_first();
        assert forall|i: int| 0 <= i < rest.len() implies rest[i] != '"' && rest[i] != '\\' by {
            assert(rest[i] == s[i + 1]);
        }
        lemma_nothing_escaped(rest);
        assert(seq![s[0]] + rest =~= s);
    } else {
        assert(unescaped(s) =~= s);
    }
}

} // verus!
