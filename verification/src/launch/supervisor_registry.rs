//! Where the records of supervisor processes stand, and who may use them.
use crate::bytes::{le_digits, le_digits_round_trip, le_value, pow256};
use crate::codec::{lossy, lossy_text};
use crate::digests::{hex_of, hex_text};
use crate::errors::{LaunchError, LaunchErrorView};
use crate::ids::{crockford_text, StackId};
use crate::launch::supervisor::byte_strings;
use crate::paths;
use crate::text;
use vstd::prelude::*;
use vstd::utf8::encode_utf8;

verus! {

/// The name of the record in the directory of a stack.
pub const SUPERVISOR_FILE: &'static str = "supervisor.json";

/// The permissions of the directory of a stack.
pub const SECURE_DIR_MODE: u32 = 0o700;

/// The permissions of the record.
pub const SECURE_FILE_MODE: u32 = 0o600;

/// The permissions of all but the owner.
pub const GROUP_OTHER_MASK: u32 = 0o077;

/// The permission of everyone to write.
pub const WORLD_WRITABLE_BIT: u32 = 0o002;

/// What a path that others may use is answered with.
pub open spec fn insecure_path(path: Seq<u8>) -> LaunchErrorView {
    LaunchErrorView::RegistryInsecure { path: lossy_text(path) }
}

/// What a path that others may use is answered with.
pub fn insecure(path: &[u8]) -> (r: LaunchError)
    ensures
        r@ == insecure_path(path@),
        r@ == (LaunchErrorView::RegistryInsecure { path: lossy_text(path@) }),
{
    LaunchError::RegistryInsecure { path: lossy(path) }
}

// ---- Paths --------------------------------------------------------------------

/// The directory where programs keep their state: the one that is configured, or the one
/// below the home directory.
pub open spec fn state_root_of(xdg: Option<Seq<char>>, home: Option<Seq<char>>) -> Option<
    Seq<u8>,
> {
    match (xdg, home) {
        (Some(dir), _) if dir.len() > 0 => Some(encode_utf8(dir)),
        (_, Some(dir)) => Some(
            paths::joined(
                paths::joined(encode_utf8(dir), encode_utf8(".local"@)),
                encode_utf8("state"@),
            ),
        ),
        _ => None,
    }
}

/// The characters of an optional text.
pub open spec fn opt_str(s: Option<&str>) -> Option<Seq<char>> {
    match s {
        Some(x) => Some(x@),
        None => None,
    }
}

/// Joins a name to a path.
fn join_name(base: &[u8], name: &str) -> (r: Vec<u8>)
    ensures
        r@ == paths::joined(base@, encode_utf8(name@)),
{
    paths::join(base, name.as_bytes())
}

/// The directory where programs keep their state, by what `XDG_STATE_HOME` and `HOME`
/// hold.
pub fn state_root(xdg_state_home: Option<&str>, home: Option<&str>) -> (r: Result<
    Vec<u8>,
    LaunchError,
>)
    ensures
        r is Ok <==> state_root_of(opt_str(xdg_state_home), opt_str(home)) is Some,
        r matches Ok(dir) ==> state_root_of(opt_str(xdg_state_home), opt_str(home)) == Some(dir@),
        xdg_state_home matches Some(x) ==> x@.len() > 0 ==> (r matches Ok(dir) && dir@ == encode_utf8(
            x@,
        )),
        (xdg_state_home matches Some(x) ==> x@.len() == 0) ==> match home {
            Some(h) => r matches Ok(dir) && dir@ == paths::joined(
                paths::joined(encode_utf8(h@), encode_utf8(".local"@)),
                encode_utf8("state"@),
            ),
            None => r is Err,
        },
        r matches Err(e) ==> e@ == (LaunchErrorView::RegistryInsecure {
            path: "$XDG_STATE_HOME (unset) and $HOME (unresolvable)"@,
        }),
{
    match xdg_state_home {
        Some(dir) => {
            if dir.unicode_len() > 0 {
                return Ok(vstd::slice::slice_to_vec(dir.as_bytes()));
            }
        },
        None => {},
    }
    match home {
        Some(dir) => {
            let local = join_name(dir.as_bytes(), ".local");
            Ok(join_name(&local, "state"))
        },
        None => Err(
            LaunchError::RegistryInsecure {
                path: "$XDG_STATE_HOME (unset) and $HOME (unresolvable)".to_owned(),
            },
        ),
    }
}

/// The directory of this program below that of all programs.
pub open spec fn substrate_root_of(state_root: Seq<u8>) -> Seq<u8> {
    paths::joined(state_root, encode_utf8("substrate"@))
}

/// The directory that holds the directories of the stacks.
pub open spec fn stacks_root_of(state_root: Seq<u8>) -> Seq<u8> {
    paths::joined(substrate_root_of(state_root), encode_utf8("stacks"@))
}

/// The directory of a stack.
pub open spec fn stack_dir_of(state_root: Seq<u8>, stack_id: StackId) -> Seq<u8> {
    paths::joined(stacks_root_of(state_root), encode_utf8(crockford_text(stack_id.raw)))
}

/// The directory of this program below that of all programs.
pub fn substrate_root(state_root: &[u8]) -> (r: Vec<u8>)
    ensures
        r@ == substrate_root_of(state_root@),
        r@ == paths::joined(state_root@, encode_utf8("substrate"@)),
{
    join_name(state_root, "substrate")
}

/// The directory that holds the directories of the stacks.
pub fn launch_stacks_root(xdg_state_home: Option<&str>, home: Option<&str>) -> (r: Result<
    Vec<u8>,
    LaunchError,
>)
    ensures
        ({
            let root = state_root_of(opt_str(xdg_state_home), opt_str(home));
            &&& r is Ok <==> root is Some
            &&& r matches Ok(dir) ==> dir@ == stacks_root_of(root->0)
            &&& r matches Ok(dir) ==> dir@ == paths::joined(
                paths::joined(root->0, encode_utf8("substrate"@)),
                encode_utf8("stacks"@),
            )
            &&& r matches Err(e) ==> e@ == (LaunchErrorView::RegistryInsecure {
                path: "$XDG_STATE_HOME (unset) and $HOME (unresolvable)"@,
            })
        }),
{
    match state_root(xdg_state_home, home) {
        Ok(root) => Ok(join_name(&substrate_root(&root), "stacks")),
        Err(e) => Err(e),
    }
}

/// The directory of a stack.
pub fn stack_dir(state_root: &[u8], stack_id: StackId) -> (r: Vec<u8>)
    ensures
        r@ == stack_dir_of(state_root@, stack_id),
        r@ == paths::joined(
            paths::joined(
                paths::joined(state_root@, encode_utf8("substrate"@)),
                encode_utf8("stacks"@),
            ),
            encode_utf8(crockford_text(stack_id.raw)),
        ),
{
    let stacks = join_name(&substrate_root(state_root), "stacks");
    join_name(&stacks, stack_id.to_crockford().as_str())
}

/// A path and those of the directories that hold it, from the innermost out.
pub open spec fn ancestors_of(path: Seq<u8>) -> Seq<Seq<u8>>
    decreases path.len(),
{
    match paths::parent_of(path) {
        Some(dir) => {
            proof {
                paths::parents_drop_the_last_part(path);
            }
            seq![path] + ancestors_of(dir)
        },
        None => seq![path],
    }
}

/// A path and those of the directories that hold it, from the innermost out.
pub fn ancestors(path: &[u8]) -> (r: Vec<Vec<u8>>)
    ensures
        byte_strings(r@) == ancestors_of(path@),
        r@.len() > 0,
        r@[0]@ == path@,
        forall|i: int|
            0 <= i < r@.len() - 1 ==> paths::parent_of((#[trigger] r@[i])@) == Some(r@[i + 1]@),
        paths::parent_of(r@[r@.len() - 1]@) is None,
    decreases path@.len(),
{
    let mut v: Vec<Vec<u8>> = Vec::new();
    let own = vstd::slice::slice_to_vec(path);
    let ghost me = own@;
    v.push(own);
    match paths::parent(path) {
        Some(dir) => {
            proof {
                paths::parents_drop_the_last_part(path@);
            }
            let mut rest = ancestors(&dir);
            let ghost tail = rest@;
            let ghost head = v@;
            v.append(&mut rest);
            assert(v@ =~= head + tail);
            assert(byte_strings(v@) =~= seq![me] + byte_strings(tail));
            proof {
                assert(v@[0]@ == me);
                assert forall|i: int| 0 <= i < v@.len() - 1 implies paths::parent_of(
                    (#[trigger] v@[i])@,
                ) == Some(v@[i + 1]@) by {
                    if i > 0 {
                        assert(v@[i] == tail[i - 1]);
                        assert(v@[i + 1] == tail[i - 1 + 1]);
                    } else {
                        assert(v@[1] == tail[0]);
                    }
                }
                assert(v@[v@.len() - 1] == tail[tail.len() - 1]);
            }
        },
        None => {
            assert(byte_strings(v@) =~= seq![me]);
        },
    }
    v
}

// ---- Permissions -----------------------------------------------------------------

/// A directory and its permissions, where it is there.
#[derive(Debug)]
pub struct Ancestor {
    pub path: Vec<u8>,
    pub mode: Option<u32>,
}

/// Whether everyone may write to a directory.
pub open spec fn world_writable(a: Ancestor) -> bool {
    a.mode is Some && a.mode->0 & WORLD_WRITABLE_BIT != 0
}

/// Refuses a place that everyone may write to: the first such directory is named. What is
/// not there yet is passed over.
pub fn reject_world_writable_ancestor(found: &Vec<Ancestor>) -> (r: Result<(), LaunchError>)
    ensures
        r is Ok <==> forall|i: int| 0 <= i < found@.len() ==> !world_writable(#[trigger] found@[i]),
        r matches Err(e) ==> exists|i: int|
            0 <= i < found@.len() && world_writable(#[trigger] found@[i]) && e@ == insecure_path(
                found@[i].path@,
            ) && forall|j: int| 0 <= j < i ==> !world_writable(#[trigger] found@[j]),
        r is Ok <==> forall|i: int|
            0 <= i < found@.len() ==> ((#[trigger] found@[i]).mode matches Some(m) ==> m & 0o002
                == 0),
        r matches Err(e) ==> exists|i: int|
            0 <= i < found@.len() && (#[trigger] found@[i]).mode is Some && found@[i].mode->0 & 0o002
                != 0 && e@ == (LaunchErrorView::RegistryInsecure {
                path: lossy_text(found@[i].path@),
            }),
{
    let mut i: usize = 0;
    while i < found.len()
        invariant
            i <= found@.len(),
            forall|j: int| 0 <= j < i ==> !world_writable(#[trigger] found@[j]),
        decreases found@.len() - i,
    {
        match found[i].mode {
            Some(mode) => {
                if mode & WORLD_WRITABLE_BIT != 0 {
                    assert(world_writable(found@[i as int]));
                    return Err(insecure(&found[i].path));
                }
            },
            None => {},
        }
        assert(!world_writable(found@[i as int]));
        i = i + 1;
    }
    Ok(())
}

/// Checks a directory before it is used: only its owner may use it, and the owner is the
/// user of this process.
pub fn verify_dir_secure(dir: &[u8], mode: u32, uid: u32, euid: u32) -> (r: Result<(), LaunchError>)
    ensures
        r is Ok <==> mode & GROUP_OTHER_MASK == 0 && uid == euid,
        r is Ok <==> mode & 0o077 == 0 && uid == euid,
        r matches Err(e) ==> e@ == insecure_path(dir@),
{
    if mode & GROUP_OTHER_MASK != 0 {
        return Err(insecure(dir));
    }
    if uid != euid {
        return Err(insecure(dir));
    }
    Ok(())
}

/// A directory that was made with the permissions of this program, by its user, passes the
/// check.
pub proof fn fresh_directories_are_secure()
    ensures
        SECURE_DIR_MODE & GROUP_OTHER_MASK == 0,
{
    assert(0o700u32 & 0o077u32 == 0) by (bit_vector);
}

// ---- Records ---------------------------------------------------------------------

/// The sixteen bytes of a number, the highest first.
pub open spec fn be_bytes(n: u128) -> Seq<u8> {
    Seq::new(16, |i: int| (n >> ((8 * (15 - i)) as u128)) as u8)
}

/// The sixteen bytes of a number, the highest first.
fn id_bytes(n: u128) -> (r: Vec<u8>)
    ensures
        r@ == be_bytes(n),
{
    let mut v: Vec<u8> = Vec::new();
    let mut i: u32 = 0;
    while i < 16
        invariant
            i <= 16,
            v@ == be_bytes(n).take(i as int),
        decreases 16 - i,
    {
        let shift: u32 = 8 * (15 - i);
        v.push((n >> shift) as u8);
        assert(be_bytes(n)[i as int] == (n >> (shift as u128)) as u8);
        assert(n >> shift == n >> (shift as u128));
        i = i + 1;
        assert(v@ =~= be_bytes(n).take(i as int));
    }
    assert(v@ =~= be_bytes(n));
    v
}

/// The name of a file that is written beside another before it takes its place.
pub open spec fn tmp_name(base: Seq<char>, id: u128) -> Seq<char> {
    "."@ + base + ".tmp."@ + hex_text(be_bytes(id))
}

/// The path of a file that is written beside another before it takes its place: in the
/// same directory, under a hidden name of its own.
pub open spec fn tmp_path(path: Seq<u8>, fallback: Seq<char>, id: u128) -> Seq<u8> {
    let dir = match paths::parent_of(path) {
        Some(d) => d,
        None => seq![paths::DOT],
    };
    let base = match paths::final_name(path) {
        Some(n) => lossy_text(n),
        None => fallback,
    };
    paths::joined(dir, encode_utf8(tmp_name(base, id)))
}

/// The path of a file that is written beside another before it takes its place.
pub fn tmp_sibling(path: &[u8], fallback: &str, id: u128) -> (r: Vec<u8>)
    ensures
        r@ == tmp_path(path@, fallback@, id),
        r@ == paths::joined(
            match paths::parent_of(path@) {
                Some(d) => d,
                None => seq![46u8],
            },
            encode_utf8(
                "."@ + (match paths::final_name(path@) {
                    Some(n) => lossy_text(n),
                    None => fallback@,
                }) + ".tmp."@ + hex_text(be_bytes(id)),
            ),
        ),
{
    let dir = match paths::parent(path) {
        Some(d) => d,
        None => {
            let mut v: Vec<u8> = Vec::new();
            v.push(paths::DOT);
            assert(v@ =~= seq![paths::DOT]);
            v
        },
    };
    let base = match paths::file_name(path) {
        Some(n) => lossy(&n),
        None => fallback.to_owned(),
    };
    let id_text = hex_of(&id_bytes(id));
    let name = text::cat3(".", base.as_str(), ".tmp.").concat(id_text.as_str());
    join_name(&dir, name.as_str())
}

/// What a record that cannot be turned into JSON is answered with.
pub fn not_serialized(error: &str) -> (r: LaunchError)
    ensures
        r@ == (LaunchErrorView::InvalidProfile {
            msg: "failed to serialize supervisor registry: "@ + error@,
        }),
{
    LaunchError::InvalidProfile {
        msg: text::cat2("failed to serialize supervisor registry: ", error),
    }
}

/// What a record that is no JSON is answered with.
pub fn not_json(path: &[u8], error: &str) -> (r: LaunchError)
    ensures
        r@ == (LaunchErrorView::InvalidProfile {
            msg: "supervisor registry "@ + lossy_text(path@) + " is not valid JSON: "@ + error@,
        }),
{
    let shown = lossy(path);
    LaunchError::InvalidProfile {
        msg: text::cat3("supervisor registry ", shown.as_str(), " is not valid JSON: ").concat(error),
    }
}

/// The bytes of a number stand for it, the highest first: read from the end they are its digits to
/// the base 256, so that different numbers have different bytes.
pub proof fn bytes_stand_for_their_number(n: u128, m: u128)
    ensures
        be_bytes(n).len() == 16,
        be_bytes(n).reverse() == le_digits(n as nat, 16),
        le_value(be_bytes(n).reverse()) == n,
        be_bytes(n) == be_bytes(m) ==> n == m,
{
    lemma_be_bytes(n);
    lemma_be_bytes(m);
}

proof fn lemma_be_bytes(n: u128)
    ensures
        be_bytes(n).reverse() == le_digits(n as nat, 16),
        le_value(be_bytes(n).reverse()) == n,
{
    lemma_shifted_digits(n, 0);
    assert(n >> 0u128 == n) by (bit_vector);
    let back = be_bytes(n).reverse();
    assert(back =~= Seq::new(16, |j: int| (n >> ((8 * j) as u128)) as u8)) by {
        assert forall|j: int| 0 <= j < 16 implies back[j] == (n >> ((8 * j) as u128)) as u8 by {
            assert(back[j] == be_bytes(n)[15 - j]);
        }
    }
    assert(Seq::new(16, |j: int| (n >> ((8 * (0 + j)) as u128)) as u8) =~= Seq::new(
        16,
        |j: int| (n >> ((8 * j) as u128)) as u8,
    ));
    reveal_with_fuel(pow256, 17);
    le_digits_round_trip(n as nat, 16);
}

proof fn lemma_shifted_digits(n: u128, k: nat)
    requires
        k <= 16,
    ensures
        k < 16 ==> le_digits((n >> ((8 * k) as u128)) as nat, (16 - k) as nat) == Seq::new(
            (16 - k) as nat,
            |j: int| (n >> ((8 * (k + j)) as u128)) as u8,
        ),
    decreases 16 - k,
{
    if k < 16 {
        let s = (8 * k) as u128;
        let m = n >> s;
        let all = Seq::new((16 - k) as nat, |j: int| (n >> ((8 * (k + j)) as u128)) as u8);
        assert(m as u8 == m % 256) by (bit_vector);
        lemma_shifted_digits(n, k + 1);
        if k < 15 {
            let next = (8 * (k + 1)) as u128;
            let rest = Seq::new(
                (16 - (k + 1)) as nat,
                |j: int| (n >> ((8 * (k + 1 + j)) as u128)) as u8,
            );
            assert(next == s + 8 && s < 120);
            assert(m / 256 == n >> next) by (bit_vector)
                requires
                    m == n >> s,
                    next == s + 8,
                    s < 120,
            ;
            assert(all =~= seq![(m % 256) as u8] + rest);
        } else {
            assert(all =~= seq![(m % 256) as u8]);
            assert(le_digits(m as nat, 1) =~= seq![((m as nat) % 256) as u8] + le_digits(
                (m as nat) / 256,
                0,
            ));
            assert(le_digits(m as nat, 1) =~= all);
        }
    }
}

} // verus!
