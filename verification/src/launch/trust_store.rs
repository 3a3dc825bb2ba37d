//! The profiles that a user has approved.
use crate::codec::{lossy, lossy_text, utf8_string};
use crate::digests::{blake3_digest, blake3_hash, hex_of, hex_text};
use crate::errors::{LaunchError, LaunchErrorView};
use crate::launch::names::texts;
use crate::launch::supervisor_registry::GROUP_OTHER_MASK;
use crate::paths;
use crate::text;
use vstd::prelude::*;
use vstd::utf8::{decode_utf8, encode_utf8, valid_utf8};

verus! {

/// The permissions of the store.
pub const SECURE_MODE: u32 = 0o600;

/// The permissions of its directory.
pub const SECURE_DIR_MODE: u32 = 0o700;

/// An approval: a profile as it was when the user approved it.
#[derive(Debug)]
pub struct TrustRecord {
    pub path: String,
    pub dev: u64,
    pub ino: u64,
    pub uid: u32,
    pub mode: u32,
    pub content: String,
    pub blessed_at: String,
}

/// What the user configures for all profiles.
#[derive(Debug)]
pub struct LaunchOperatorConfig {
    /// Directories whose profiles need no approval.
    pub auto_bless_paths: Vec<String>,
}

impl Default for LaunchOperatorConfig {
    fn default() -> (r: LaunchOperatorConfig)
        ensures
            r.auto_bless_paths@.len() == 0,
    {
        LaunchOperatorConfig { auto_bless_paths: Vec::new() }
    }
}

/// What a store that others may use, or that cannot be looked at, is answered with.
pub open spec fn insecure_store(path: Seq<u8>) -> LaunchErrorView {
    LaunchErrorView::TrustStoreInsecure { path: lossy_text(path) }
}

/// What a store that others may use, or that cannot be looked at, is answered with.
pub fn store_insecure(path: &[u8]) -> (r: LaunchError)
    ensures
        r@ == insecure_store(path@),
        r@ == (LaunchErrorView::TrustStoreInsecure { path: lossy_text(path@) }),
{
    LaunchError::TrustStoreInsecure { path: lossy(path) }
}

/// What came of a look at the store.
#[derive(Debug)]
pub enum StoreFound {
    /// It is there, with these permissions.
    Mode(u32),
    /// It is not there.
    Missing,
    /// It could not be looked at.
    Failed,
}

/// Decides whether the store is read: one that is not there holds nothing (`Ok(false)`),
/// one that others may use is refused.
pub fn open_store(path: &[u8], found: StoreFound) -> (r: Result<bool, LaunchError>)
    ensures
        match found {
            StoreFound::Mode(mode) => if mode & GROUP_OTHER_MASK == 0 {
                r == Ok::<bool, LaunchError>(true)
            } else {
                r matches Err(e) && e@ == insecure_store(path@)
            },
            StoreFound::Missing => r == Ok::<bool, LaunchError>(false),
            StoreFound::Failed => r matches Err(e) && e@ == insecure_store(path@),
        },
        found matches StoreFound::Mode(mode) ==> (r is Ok <==> mode & 0o077 == 0),
        r matches Err(e) ==> e@ == (LaunchErrorView::TrustStoreInsecure { path: lossy_text(path@) }),
{
    match found {
        StoreFound::Mode(mode) => {
            if mode & GROUP_OTHER_MASK != 0 {
                return Err(store_insecure(path));
            }
            Ok(true)
        },
        StoreFound::Missing => Ok(false),
        StoreFound::Failed => Err(store_insecure(path)),
    }
}

/// The text of the store. One that is not UTF-8 is refused.
pub fn store_text(path: &[u8], bytes: Vec<u8>) -> (r: Result<String, LaunchError>)
    ensures
        r is Ok <==> valid_utf8(bytes@),
        r matches Ok(s) ==> s@ == decode_utf8(bytes@),
        r matches Err(e) ==> e@ == (LaunchErrorView::InvalidProfile {
            msg: "trust store "@ + lossy_text(path@) + " is not valid UTF-8"@,
        }),
{
    match utf8_string(bytes) {
        Some(s) => Ok(s),
        None => {
            let shown = lossy(path);
            Err(
                LaunchError::InvalidProfile {
                    msg: text::cat3("trust store ", shown.as_str(), " is not valid UTF-8"),
                },
            )
        },
    }
}

/// What a store that is no TOML is answered with.
pub fn not_toml(path: &[u8], error: &str) -> (r: LaunchError)
    ensures
        r@ == (LaunchErrorView::InvalidProfile {
            msg: "trust store "@ + lossy_text(path@) + " is not valid TOML: "@ + error@,
        }),
{
    let shown = lossy(path);
    LaunchError::InvalidProfile {
        msg: text::cat3("trust store ", shown.as_str(), " is not valid TOML: ").concat(error),
    }
}

/// What a store that cannot be turned into TOML is answered with.
pub fn not_serialized(error: &str) -> (r: LaunchError)
    ensures
        r@ == (LaunchErrorView::InvalidProfile {
            msg: "failed to serialize trust store: "@ + error@,
        }),
{
    LaunchError::InvalidProfile { msg: text::cat2("failed to serialize trust store: ", error) }
}

/// Adds an approval; those that are there stay.
pub fn append_bless(records: &mut Vec<TrustRecord>, rec: TrustRecord)
    ensures
        final(records)@ == old(records)@.push(rec),
{
    records.push(rec);
}

// ---- Profiles ---------------------------------------------------------------------

/// What tells a file from another one, or from what it was before: where it stands, who
/// owns it, and who may use it.
#[derive(Clone, Copy, Debug, PartialEq, Eq, Structural)]
pub struct FileIdentity {
    pub dev: u64,
    pub ino: u64,
    pub uid: u32,
    pub mode: u32,
}

/// The hash of a profile as it is written: the name of the algorithm, and the digest in
/// hexadecimal.
pub open spec fn hash_of(bytes: Seq<u8>) -> Seq<char> {
    "blake3:"@ + hex_text(blake3_digest(bytes))
}

/// The text of a hash.
pub fn hash_text(digest: &[u8; 32]) -> (r: String)
    ensures
        r@ == "blake3:"@ + hex_text(digest@),
{
    text::cat2("blake3:", hex_of(digest).as_str())
}

/// The hash of a profile.
pub fn config_hash(bytes: &[u8]) -> (r: String)
    ensures
        r@ == hash_of(bytes@),
        r@ == "blake3:"@ + hex_text(blake3_digest(bytes@)),
{
    let digest = blake3_hash(bytes);
    hash_text(&digest)
}

/// An approval of a profile as it is.
pub fn build_trust_record(path: &str, identity: FileIdentity, content: &str, now: &str) -> (r:
    TrustRecord)
    ensures
        r.path@ == path@,
        r.dev == identity.dev,
        r.ino == identity.ino,
        r.uid == identity.uid,
        r.mode == identity.mode,
        r.content@ == content@,
        r.blessed_at@ == now@,
{
    TrustRecord {
        path: path.to_owned(),
        dev: identity.dev,
        ino: identity.ino,
        uid: identity.uid,
        mode: identity.mode,
        content: content.to_owned(),
        blessed_at: now.to_owned(),
    }
}

/// Whether an approval is one of this profile as it is.
pub open spec fn approves(
    rec: TrustRecord,
    path: Seq<char>,
    identity: FileIdentity,
    content: Seq<char>,
) -> bool {
    &&& rec.path@ == path
    &&& rec.dev == identity.dev
    &&& rec.ino == identity.ino
    &&& rec.uid == identity.uid
    &&& rec.mode == identity.mode
    &&& rec.content@ == content
}

/// Whether a profile may be used: it was approved as it is, or it needs no approval.
pub open spec fn trusted(
    records: Seq<TrustRecord>,
    dirs: Seq<Seq<char>>,
    path: Seq<char>,
    identity: FileIdentity,
    content: Seq<char>,
) -> bool {
    ||| auto_blessed(dirs, encode_utf8(path))
    ||| exists|i: int|
        0 <= i < records.len() && approves(#[trigger] records[i], path, identity, content)
}

/// Refuses a profile that may not be used.
pub fn check_trusted(
    records: &Vec<TrustRecord>,
    cfg: &LaunchOperatorConfig,
    path: &str,
    identity: FileIdentity,
    content: &str,
) -> (r: Result<(), LaunchError>)
    ensures
        r is Ok <==> trusted(
            records@,
            texts(cfg.auto_bless_paths@),
            path@,
            identity,
            content@,
        ),
        r matches Err(e) ==> e@ == (LaunchErrorView::ProfileNotTrusted { path: path@ }),
        r is Ok <==> {
            ||| exists|i: int|
                0 <= i < cfg.auto_bless_paths@.len() && (#[trigger] cfg.auto_bless_paths@[i])@.len()
                    > 0 && paths::under(
                    encode_utf8(path@),
                    encode_utf8(cfg.auto_bless_paths@[i]@),
                )
            ||| exists|i: int|
                0 <= i < records@.len() && {
                    let rec = #[trigger] records@[i];
                    &&& rec.path@ == path@
                    &&& rec.dev == identity.dev && rec.ino == identity.ino
                    &&& rec.uid == identity.uid && rec.mode == identity.mode
                    &&& rec.content@ == content@
                }
        },
{
    if auto_bless_allows(cfg, path.as_bytes()) {
        return Ok(());
    }
    let mut i: usize = 0;
    while i < records.len()
        invariant
            i <= records@.len(),
            forall|j: int|
                0 <= j < i ==> !approves(#[trigger] records@[j], path@, identity, content@),
        decreases records@.len() - i,
    {
        let rec = &records[i];
        if rec.dev == identity.dev && rec.ino == identity.ino && rec.uid == identity.uid && rec.mode
            == identity.mode && text::same_text(rec.path.as_str(), path) && text::same_text(
            rec.content.as_str(),
            content,
        ) {
            assert(approves(records@[i as int], path@, identity, content@));
            return Ok(());
        }
        i = i + 1;
    }
    Err(LaunchError::ProfileNotTrusted { path: path.to_owned() })
}

/// A profile that was just approved may be used.
pub proof fn approved_profiles_are_trusted(
    records: Seq<TrustRecord>,
    rec: TrustRecord,
    dirs: Seq<Seq<char>>,
    path: Seq<char>,
    identity: FileIdentity,
    content: Seq<char>,
)
    requires
        approves(rec, path, identity, content),
    ensures
        trusted(records.push(rec), dirs, path, identity, content),
{
    assert(records.push(rec)[records.len() as int] == rec);
}

/// An approval is of one content only: once a profile is changed, the approval of what it
/// was before does not count.
pub proof fn changed_profiles_need_a_new_approval(
    records: Seq<TrustRecord>,
    path: Seq<char>,
    identity: FileIdentity,
    content: Seq<char>,
)
    requires
        forall|i: int| 0 <= i < records.len() ==> (#[trigger] records[i]).content@ != content,
    ensures
        !trusted(records, Seq::<Seq<char>>::empty(), path, identity, content),
{
}

// ---- Directories ---------------------------------------------------------------------

/// Whether a profile lies in one of the directories whose profiles need no approval.
pub open spec fn auto_blessed(dirs: Seq<Seq<char>>, canonical: Seq<u8>) -> bool {
    exists|i: int|
        0 <= i < dirs.len() && (#[trigger] dirs[i]).len() > 0 && paths::under(
            canonical,
            encode_utf8(dirs[i]),
        )
}

/// Whether a profile lies in one of the directories whose profiles need no approval. An
/// empty entry stands for no directory.
pub fn auto_bless_allows(cfg: &LaunchOperatorConfig, canonical: &[u8]) -> (r: bool)
    ensures
        r == auto_blessed(texts(cfg.auto_bless_paths@), canonical@),
        r <==> exists|i: int|
            0 <= i < cfg.auto_bless_paths@.len() && (#[trigger] cfg.auto_bless_paths@[i])@.len() > 0
                && paths::under(canonical@, encode_utf8(cfg.auto_bless_paths@[i]@)),
{
    let ghost dirs = texts(cfg.auto_bless_paths@);
    let mut i: usize = 0;
    while i < cfg.auto_bless_paths.len()
        invariant
            dirs == texts(cfg.auto_bless_paths@),
            i <= cfg.auto_bless_paths@.len(),
            forall|j: int|
                0 <= j < i ==> !((#[trigger] dirs[j]).len() > 0 && paths::under(
                    canonical@,
                    encode_utf8(dirs[j]),
                )),
        decreases cfg.auto_bless_paths@.len() - i,
    {
        let dir = cfg.auto_bless_paths[i].as_str();
        assert(dirs[i as int] == dir@);
        if dir.unicode_len() > 0 && paths::starts_with(canonical, dir.as_bytes()) {
            return true;
        }
        i = i + 1;
    }
    proof {
        assert forall|j: int| 0 <= j < cfg.auto_bless_paths@.len() implies !((
        #[trigger] cfg.auto_bless_paths@[j])@.len() > 0 && paths::under(
            canonical@,
            encode_utf8(cfg.auto_bless_paths@[j]@),
        )) by {
            assert(dirs[j] == cfg.auto_bless_paths@[j]@);
        }
    }
    false
}

/// Without configured directories every profile needs an approval.
pub proof fn nothing_is_blessed_by_default(canonical: Seq<u8>)
    ensures
        !auto_blessed(Seq::<Seq<char>>::empty(), canonical),
{
}

/// A further directory takes no blessing away.
pub proof fn further_directories_only_add(dirs: Seq<Seq<char>>, dir: Seq<char>, canonical: Seq<u8>)
    requires
        auto_blessed(dirs, canonical),
    ensures
        auto_blessed(dirs.push(dir), canonical),
{
    let i = choose|i: int|
        0 <= i < dirs.len() && (#[trigger] dirs[i]).len() > 0 && paths::under(
            canonical,
            encode_utf8(dirs[i]),
        );
    assert(dirs.push(dir)[i] == dirs[i]);
}

/// An approval holds for one file as it was: at its path, on its device, with its number, owner,
/// permissions and content. Where any one of these is another, it does not hold.
pub proof fn approvals_hold_for_one_file_as_it_was(
    rec: TrustRecord,
    path: Seq<char>,
    identity: FileIdentity,
    content: Seq<char>,
)
    ensures
        rec.path@ != path ==> !approves(rec, path, identity, content),
        rec.dev != identity.dev ==> !approves(rec, path, identity, content),
        rec.ino != identity.ino ==> !approves(rec, path, identity, content),
        rec.uid != identity.uid ==> !approves(rec, path, identity, content),
        rec.mode != identity.mode ==> !approves(rec, path, identity, content),
        rec.content@ != content ==> !approves(rec, path, identity, content),
        approves(
            rec,
            rec.path@,
            FileIdentity { dev: rec.dev, ino: rec.ino, uid: rec.uid, mode: rec.mode },
            rec.content@,
        ),
{
}

/// Without blessed directories, a profile that no record approves as it is is not trusted, however
/// many records there are.
pub proof fn unapproved_profiles_are_refused(
    records: Seq<TrustRecord>,
    path: Seq<char>,
    identity: FileIdentity,
    content: Seq<char>,
)
    requires
        forall|i: int|
            0 <= i < records.len() ==> {
                let rec = #[trigger] records[i];
                ||| rec.path@ != path
                ||| rec.dev != identity.dev
                ||| rec.ino != identity.ino
                ||| rec.uid != identity.uid
                ||| rec.mode != identity.mode
                ||| rec.content@ != content
            },
    ensures
        !trusted(records, Seq::<Seq<char>>::empty(), path, identity, content),
{
}

/// A directory is blessed with all that lies under it, and with nothing else; an empty name
/// blesses nothing.
pub proof fn directories_bless_what_they_hold(dir: Seq<char>, canonical: Seq<u8>)
    ensures
        auto_blessed(seq![dir], canonical) <==> dir.len() > 0 && paths::under(
            canonical,
            encode_utf8(dir),
        ),
{
    let dirs = seq![dir];
    assert(dirs[0] == dir);
}

} // verus!
