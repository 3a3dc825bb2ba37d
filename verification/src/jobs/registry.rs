//! The jobs of the process: submission, status, result, cancellation and listing.
use crate::codec::{canonical_json, json_canonical, json_number, json_u64_field, json_u64_in, utf8_string};
use crate::digests::{blake3_digest, blake3_hash, hex_of, hex_text};
use crate::errors::{fresh_correlation_id, invalid_argument, ErrorView, SubstrateError};
use crate::ids::{crockford_text, JobId};
use crate::jobs::entry_state::{entered, JobEntry, JobResult, JobSlot, JobState};
use crate::jobs::quota::{decrement, quota_exceeded, QuotaGuard};
use crate::page::{window, windows, windows_tile};
use crate::text;
use vstd::prelude::*;
use vstd::utf8::encode_utf8;

verus! {

// ---- Maps ------------------------------------------------------------------

/// Jobs by id.
pub type JobMap = dashmap::DashMap<u128, JobSlot>;

/// Counters by client.
pub type ClientMap = dashmap::DashMap<String, usize>;

/// Jobs by what was submitted.
pub type IndexMap = dashmap::DashMap<(String, String, String, String), u128>;

/// A key of the deduplication index: client, tool, key and digest of the arguments.
pub type KeyView = (Seq<char>, Seq<char>, Seq<char>, Seq<char>);

/// Names the jobs that a map holds.
pub uninterp spec fn jobs_in(map: JobMap) -> Map<u128, JobSlot>;

/// Names the counters that a map holds.
pub uninterp spec fn clients_in(map: ClientMap) -> Map<Seq<char>, usize>;

/// Names the ids that a map holds.
pub uninterp spec fn index_in(map: IndexMap) -> Map<KeyView, u128>;

/// `dashmap::DashMap::new`: the map is empty.
#[verifier::external_body]
fn jobs_new() -> (r: JobMap)
    ensures
        jobs_in(r) == (Map::<u128, JobSlot>::empty()),
{
    dashmap::DashMap::new()
}

/// `dashmap::DashMap::contains_key`: whether the map holds the key.
#[verifier::external_body]
fn jobs_contains(map: &JobMap, id: u128) -> (r: bool)
    ensures
        r == jobs_in(*map).contains_key(id),
{
    map.contains_key(&id)
}

/// `dashmap::DashMap::view`: a copy of the value at the key, where there is one.
#[verifier::external_body]
fn jobs_get(map: &JobMap, id: u128) -> (r: Option<JobSlot>)
    ensures
        match r {
            Some(slot) => jobs_in(*map).contains_key(id) && slot == jobs_in(*map)[id],
            None => !jobs_in(*map).contains_key(id),
        },
{
    map.view(&id, |_k, slot| slot.copied())
}

/// `dashmap::DashMap::insert`: the key holds the value, in place of any other.
#[verifier::external_body]
fn jobs_insert(map: &mut JobMap, id: u128, slot: JobSlot)
    ensures
        jobs_in(*final(map)) == jobs_in(*old(map)).insert(id, slot),
{
    map.insert(id, slot);
}

/// `dashmap::DashMap::remove`: the map no longer holds the key.
#[verifier::external_body]
fn jobs_remove(map: &mut JobMap, id: u128)
    ensures
        jobs_in(*final(map)) == jobs_in(*old(map)).remove(id),
{
    map.remove(&id);
}

/// `dashmap::DashMap::iter`: every key of the map once, in an order that is left open.
#[verifier::external_body]
fn jobs_ids(map: &JobMap) -> (r: Vec<u128>)
    ensures
        r@.no_duplicates(),
        r@.to_set() == jobs_in(*map).dom(),
{
    map.iter().map(|e| *e.key()).collect()
}

/// `dashmap::DashMap::new`: the map is empty.
#[verifier::external_body]
fn clients_new() -> (r: ClientMap)
    ensures
        clients_in(r) == (Map::<Seq<char>, usize>::empty()),
{
    dashmap::DashMap::new()
}

/// `dashmap::DashMap::view`: the counter at the key, where there is one.
#[verifier::external_body]
fn clients_get(map: &ClientMap, client: &str) -> (r: Option<usize>)
    ensures
        match r {
            Some(n) => clients_in(*map).contains_key(client@) && n == clients_in(*map)[client@],
            None => !clients_in(*map).contains_key(client@),
        },
{
    map.view(client, |_k, n| *n)
}

/// `dashmap::DashMap::insert`: the key holds the counter, in place of any other.
#[verifier::external_body]
fn clients_insert(map: &mut ClientMap, client: String, n: usize)
    ensures
        clients_in(*final(map)) == clients_in(*old(map)).insert(client@, n),
{
    map.insert(client, n);
}

/// `dashmap::DashMap::new`: the map is empty.
#[verifier::external_body]
fn index_new() -> (r: IndexMap)
    ensures
        index_in(r) == (Map::<KeyView, u128>::empty()),
{
    dashmap::DashMap::new()
}

/// `dashmap::DashMap::view`: the id at the key, where there is one.
#[verifier::external_body]
fn index_get(map: &IndexMap, key: &(String, String, String, String)) -> (r: Option<u128>)
    ensures
        match r {
            Some(id) => index_in(*map).contains_key(key_view(*key)) && id == index_in(
                *map,
            )[key_view(*key)],
            None => !index_in(*map).contains_key(key_view(*key)),
        },
{
    map.view(key, |_k, id| *id)
}

/// `dashmap::DashMap::insert`: the key holds the id, in place of any other.
#[verifier::external_body]
fn index_insert(map: &mut IndexMap, key: (String, String, String, String), id: u128)
    ensures
        index_in(*final(map)) == index_in(*old(map)).insert(key_view(key), id),
{
    map.insert(key, id);
}

/// `dashmap::DashMap::retain`: the keys whose id is not among `gone` stay, the others
/// leave.
#[verifier::external_body]
fn index_retain(map: &mut IndexMap, gone: &Vec<u128>)
    ensures
        index_in(*final(map)) == index_in(*old(map)).restrict(
            Set::new(
                |k: KeyView|
                    index_in(*old(map)).contains_key(k) && !gone@.contains(index_in(*old(map))[k]),
            ),
        ),
{
    map.retain(|_k, id| lacks(gone, *id));
}

/// The characters of a key.
pub open spec fn key_view(key: (String, String, String, String)) -> KeyView {
    (key.0@, key.1@, key.2@, key.3@)
}

/// Whether an id is not in a list.
pub fn lacks(ids: &Vec<u128>, id: u128) -> (r: bool)
    ensures
        r == !ids@.contains(id),
{
    let mut i: usize = 0;
    while i < ids.len()
        invariant
            i <= ids@.len(),
            forall|j: int| 0 <= j < i ==> ids@[j] != id,
        decreases ids@.len() - i,
    {
        if ids[i] == id {
            assert(ids@[i as int] == id);
            return false;
        }
        i = i + 1;
    }
    true
}

// ---- Submission ------------------------------------------------------------

/// The bounds that the registry keeps.
#[derive(Debug, Clone, Copy)]
pub struct JobQuotas {
    /// How many jobs may be active at a time.
    pub max_concurrent: u32,
    /// How many jobs of one client may be active at a time.
    pub max_per_client: u32,
    /// How long a client may wait for a result.
    pub result_max_wait_ms: u32,
    /// How long an ended job is kept.
    pub result_ttl_secs: u32,
    /// How often ended jobs are looked through.
    pub gc_interval_secs: u32,
}

/// A job to be submitted.
#[derive(Debug)]
pub struct JobSubmitRequest {
    pub client_id: String,
    pub tool: String,
    pub bucket: String,
    pub idempotency_key: Option<String>,
    /// The arguments as JSON text.
    pub args_json: String,
}

/// What makes two submissions the same.
#[derive(Debug)]
pub struct IdempotencyDedupKey {
    client_id: String,
    tool: String,
    idempotency_key: String,
    args_hash: String,
}

/// How many hexadecimal digits of the digest of the arguments are compared.
pub const ARGS_HASH_LEN: usize = 32;

/// The key of a request, given the digest of its arguments; none where the client
/// names no key.
pub open spec fn dedup_key(req: JobSubmitRequest, digest: Seq<u8>) -> Option<KeyView> {
    match req.idempotency_key {
        Some(ik) => Some(
            (
                req.client_id@,
                req.tool@,
                ik@,
                hex_text(digest).take(ARGS_HASH_LEN as int),
            ),
        ),
        None => None,
    }
}

/// The arguments that are compared: their canonical text, or the text itself where it
/// is not JSON.
pub open spec fn compared_args(args: Seq<char>, canonical: Option<Seq<char>>) -> Seq<char> {
    match canonical {
        Some(shown) => shown,
        None => args,
    }
}

/// The digest of the arguments of a request.
pub open spec fn args_digest(req: JobSubmitRequest) -> Seq<u8> {
    blake3_digest(encode_utf8(compared_args(req.args_json@, json_canonical(req.args_json@))))
}

impl IdempotencyDedupKey {
    /// The characters of the key.
    pub closed spec fn key(&self) -> KeyView {
        (self.client_id@, self.tool@, self.idempotency_key@, self.args_hash@)
    }

    /// The key of a request, given the digest of its arguments.
    pub fn with_digest(req: &JobSubmitRequest, digest: &[u8; 32]) -> (r: Option<
        IdempotencyDedupKey,
    >)
        ensures
            match r {
                Some(k) => dedup_key(*req, digest@) == Some(k.key()),
                None => dedup_key(*req, digest@) is None,
            },
            match req.idempotency_key {
                Some(ik) => r matches Some(k) && k.key() == (
                    req.client_id@,
                    req.tool@,
                    ik@,
                    hex_text(digest@).take(32),
                ),
                None => r is None,
            },
    {
        match &req.idempotency_key {
            Some(ik) => {
                let bytes: &[u8] = digest.as_slice();
                let full = hex_of(bytes);
                let chars = text::chars_of(full.as_str());
                assert(chars@.len() == 64);
                let args_hash = text::string_of(&chars, 0, ARGS_HASH_LEN);
                assert(args_hash@ =~= hex_text(digest@).take(ARGS_HASH_LEN as int));
                Some(
                    IdempotencyDedupKey {
                        client_id: req.client_id.clone(),
                        tool: req.tool.clone(),
                        idempotency_key: ik.clone(),
                        args_hash,
                    },
                )
            },
            None => None,
        }
    }

    /// The key of a request.
    pub fn from_request(req: &JobSubmitRequest) -> (r: Option<IdempotencyDedupKey>)
        ensures
            match r {
                Some(k) => dedup_key(*req, args_digest(*req)) == Some(k.key()),
                None => req.idempotency_key is None,
            },
            match req.idempotency_key {
                Some(ik) => r matches Some(k) && k.key() == (
                    req.client_id@,
                    req.tool@,
                    ik@,
                    hex_text(
                        blake3_digest(
                            encode_utf8(
                                match json_canonical(req.args_json@) {
                                    Some(shown) => shown,
                                    None => req.args_json@,
                                },
                            ),
                        ),
                    ).take(32),
                ),
                None => r is None,
            },
    {
        let digest = match canonical_json(req.args_json.as_str()) {
            Some(shown) => blake3_hash(shown.as_str().as_bytes()),
            None => blake3_hash(req.args_json.as_str().as_bytes()),
        };
        IdempotencyDedupKey::with_digest(req, &digest)
    }

    /// The key as the index holds it.
    fn into_parts(self) -> (r: (String, String, String, String))
        ensures
            key_view(r) == self.key(),
    {
        (self.client_id, self.tool, self.idempotency_key, self.args_hash)
    }
}

// ---- The registry ----------------------------------------------------------

/// The jobs of the process.
pub struct InMemoryJobRegistry {
    jobs: JobMap,
    client_quotas: ClientMap,
    global_inflight: usize,
    idempotency_index: IndexMap,
    quotas: JobQuotas,
}

/// What contracts say of an [`InMemoryJobRegistry`].
#[verifier::ext_equal]
pub struct RegistryView {
    pub jobs: Map<u128, JobSlot>,
    pub clients: Map<Seq<char>, usize>,
    pub inflight: usize,
    pub index: Map<KeyView, u128>,
}

/// The jobs that have not ended.
pub open spec fn active_jobs(jobs: Map<u128, JobSlot>) -> Set<u128> {
    jobs.dom().filter(|id: u128| !jobs[id].entry.state.terminal())
}

/// The jobs of a client that have not ended.
pub open spec fn client_active(jobs: Map<u128, JobSlot>, client: Seq<char>) -> Set<u128> {
    active_jobs(jobs).filter(|id: u128| jobs[id].entry.client_id@ == client)
}

impl RegistryView {
    /// How many jobs of a client are counted.
    pub open spec fn count(self, client: Seq<char>) -> usize {
        if self.clients.contains_key(client) {
            self.clients[client]
        } else {
            0
        }
    }

    /// Whether a key leads to a job that was submitted with it.
    pub open spec fn leads(self, k: KeyView) -> bool {
        let id = self.index[k];
        &&& self.jobs.contains_key(id)
        &&& self.jobs[id].entry.client_id@ == k.0
        &&& self.jobs[id].entry.tool@ == k.1
        &&& self.jobs[id].entry.idempotency_key matches Some(ik)
        &&& ik@ == k.2
    }

    /// Every key leads to a job that was submitted with it, and no two keys lead to the
    /// same job.
    pub open spec fn index_wf(self) -> bool {
        &&& forall|k: KeyView| #[trigger] self.index.contains_key(k) ==> self.leads(k)
        &&& forall|k1: KeyView, k2: KeyView| #[trigger]
            self.index.contains_key(k1) && #[trigger] self.index.contains_key(k2)
                && self.index[k1] == self.index[k2] ==> k1 == k2
    }

    /// The counters count exactly the jobs that have not ended, every job is filed under
    /// its own id, and the keys of submissions lead to their jobs.
    pub open spec fn wf(self) -> bool {
        &&& self.jobs.dom().finite()
        &&& forall|id: u128| #[trigger]
            self.jobs.contains_key(id) ==> self.jobs[id].wf() && self.jobs[id].entry.id.raw == id
        &&& self.inflight == active_jobs(self.jobs).len()
        &&& forall|client: Seq<char>| #[trigger]
            self.count(client) == client_active(self.jobs, client).len()
        &&& self.index_wf()
    }

    /// No more jobs are active than the quotas allow.
    pub open spec fn within(self, quotas: JobQuotas) -> bool {
        &&& self.inflight <= quotas.max_concurrent
        &&& forall|client: Seq<char>| #[trigger] self.count(client) <= quotas.max_per_client
    }
}

proof fn lemma_active_after(jobs: Map<u128, JobSlot>, id: u128, slot: JobSlot)
    ensures
        active_jobs(jobs.insert(id, slot)) == (if slot.entry.state.terminal() {
            active_jobs(jobs).remove(id)
        } else {
            active_jobs(jobs).insert(id)
        }),
        forall|client: Seq<char>| #[trigger]
            client_active(jobs.insert(id, slot), client) == (if slot.entry.state.terminal()
                || slot.entry.client_id@ != client {
                client_active(jobs, client).remove(id)
            } else {
                client_active(jobs, client).insert(id)
            }),
{
    let after = jobs.insert(id, slot);
    assert(active_jobs(after) =~= (if slot.entry.state.terminal() {
        active_jobs(jobs).remove(id)
    } else {
        active_jobs(jobs).insert(id)
    }));
    assert forall|client: Seq<char>| #[trigger]
        client_active(after, client) == (if slot.entry.state.terminal() || slot.entry.client_id@
            != client {
            client_active(jobs, client).remove(id)
        } else {
            client_active(jobs, client).insert(id)
        }) by {
        assert(client_active(after, client) =~= (if slot.entry.state.terminal()
            || slot.entry.client_id@ != client {
            client_active(jobs, client).remove(id)
        } else {
            client_active(jobs, client).insert(id)
        }));
    }
}

/// Whether a submission finds the job of an earlier one.
pub open spec fn already_submitted(v: RegistryView, key: Option<KeyView>) -> bool {
    key is Some && v.index.contains_key(key->0) && v.jobs.contains_key(v.index[key->0])
}

/// What a submission beyond the global quota is answered with.
pub open spec fn global_limit(max: u32) -> ErrorView {
    quota_exceeded(
        "global concurrent job limit ("@ + text::decimal(max as nat)
            + ") reached; wait or cancel an existing job"@,
    )
}

/// What a submission beyond a client's quota is answered with.
pub open spec fn client_limit(max: u32, client: Seq<char>) -> ErrorView {
    quota_exceeded(
        "per-client concurrent job limit ("@ + text::decimal(max as nat) + ") reached for client "@
            + client,
    )
}

/// The entry of a job that was just submitted.
pub open spec fn submitted_entry(e: JobEntry, req: JobSubmitRequest, id: u128, now: u64) -> bool {
    &&& e.id.raw == id
    &&& e.correlation_id.raw == id
    &&& e.client_id == req.client_id
    &&& e.tool == req.tool
    &&& e.bucket == req.bucket
    &&& e.idempotency_key == req.idempotency_key
    &&& e.state == JobState::Pending
    &&& e.progress_pct is None
    &&& e.message is None
    &&& e.started_at == now
    &&& e.updated_at == now
    &&& e.terminal_at is None
    &&& e.progress_events_dropped == 0
}

/// Whether `after` is the registry `v` with the job of a submission filed anew, under the
/// id `id`: the job is pending and counted, and its key leads to it.
pub open spec fn newly_filed(
    v: RegistryView,
    after: RegistryView,
    req: JobSubmitRequest,
    id: u128,
    now: u64,
) -> bool {
    &&& !v.jobs.contains_key(id)
    &&& after.jobs.contains_key(id)
    &&& after.jobs == v.jobs.insert(id, after.jobs[id])
    &&& submitted_entry(after.jobs[id].entry, req, id, now)
    &&& after.jobs[id].result is None
    &&& !after.jobs[id].cancel_requested
    &&& after.jobs[id].sequence == 0
    &&& after.inflight == v.inflight + 1
    &&& after.clients == v.clients.insert(
        req.client_id@,
        (v.count(req.client_id@) + 1) as usize,
    )
    &&& after.index == (match dedup_key(req, args_digest(req)) {
        Some(k) => v.index.insert(k, id),
        None => v.index,
    })
}

/// The registry after a client was looked up: one that was not seen before is filed with
/// no jobs.
pub open spec fn client_seen(v: RegistryView, client: Seq<char>) -> RegistryView {
    RegistryView { clients: v.clients.insert(client, v.count(client)), ..v }
}

proof fn lemma_client_seen(v: RegistryView, client: Seq<char>, quotas: JobQuotas)
    requires
        v.wf(),
        v.within(quotas),
    ensures
        client_seen(v, client).wf(),
        client_seen(v, client).within(quotas),
{
    let after = client_seen(v, client);
    assert forall|k: KeyView| #[trigger] after.index.contains_key(k) implies after.leads(k) by {
        assert(v.leads(k));
    }
    assert forall|c: Seq<char>| #[trigger]
        after.count(c) == client_active(after.jobs, c).len() by {
        assert(v.count(c) == client_active(v.jobs, c).len());
    }
    assert forall|c: Seq<char>| #[trigger] after.count(c) <= quotas.max_per_client by {
        assert(v.count(c) <= quotas.max_per_client);
    }
}

/// The job that a submission leads to.
#[derive(Debug, Clone, Copy)]
pub struct Submitted {
    pub id: JobId,
    /// Whether the job is a new one.
    pub is_new: bool,
}

/// What a job id that is not known is answered with.
pub open spec fn no_such_job(id: JobId) -> ErrorView {
    ErrorView::JobNotFound { job_id: crockford_text(id.raw), tagged: false }
}

/// What a submission that draws the id of another job is answered with.
pub open spec fn id_in_use() -> ErrorView {
    ErrorView::InternalError { reason: "job id is already in use"@, tagged: false }
}

impl InMemoryJobRegistry {
    /// What the registry holds.
    pub closed spec fn view(&self) -> RegistryView {
        RegistryView {
            jobs: jobs_in(self.jobs),
            clients: clients_in(self.client_quotas),
            inflight: self.global_inflight,
            index: index_in(self.idempotency_index),
        }
    }

    /// The bounds that the registry keeps.
    pub closed spec fn quotas(&self) -> JobQuotas {
        self.quotas
    }

    /// The registry's invariant: the counters count exactly the jobs that have not
    /// ended, and no more are active than the quotas allow.
    pub open spec fn wf(&self) -> bool {
        self@.wf() && self@.within(self.quotas())
    }

    /// A registry without jobs.
    pub fn new(quotas: JobQuotas) -> (r: InMemoryJobRegistry)
        ensures
            r.wf(),
            r.quotas() == quotas,
            r@.jobs == Map::<u128, JobSlot>::empty(),
            r@.index == Map::<KeyView, u128>::empty(),
            r@.clients == Map::<Seq<char>, usize>::empty(),
            r@.inflight == 0,
    {
        let r = InMemoryJobRegistry {
            jobs: jobs_new(),
            client_quotas: clients_new(),
            global_inflight: 0,
            idempotency_index: index_new(),
            quotas,
        };
        proof {
            let v = r@;
            assert(active_jobs(v.jobs) =~= Set::empty());
            assert forall|client: Seq<char>| #[trigger]
                v.count(client) == client_active(v.jobs, client).len() by {
                assert(client_active(v.jobs, client) =~= Set::empty());
            }
        }
        r
    }

    /// How many jobs of a client are counted; a client that was not seen before is
    /// filed with none.
    fn client_counter(&mut self, client: &String) -> (n: usize)
        ensures
            n == old(self)@.count(client@),
            final(self)@ == (RegistryView {
                clients: old(self)@.clients.insert(client@, n),
                ..old(self)@
            }),
            final(self).quotas() == old(self).quotas(),
    {
        match clients_get(&self.client_quotas, client.as_str()) {
            Some(n) => {
                assert(self@.clients.insert(client@, n) =~= self@.clients);
                n
            },
            None => {
                clients_insert(&mut self.client_quotas, client.clone(), 0);
                0
            },
        }
    }

    /// Submits a job under the id `id`. A submission that was made before, with the same
    /// key and arguments, gives the job of then. Otherwise there must be room under both
    /// quotas, and the id must not be in use.
    pub fn submit_as(&mut self, request: JobSubmitRequest, id: JobId, now: u64) -> (r: Result<
        Submitted,
        SubstrateError,
    >)
        requires
            old(self).wf(),
        ensures
            final(self).wf(),
            final(self).quotas() == old(self).quotas(),
            ({
                let key = dedup_key(request, args_digest(request));
                let v = old(self)@;
                let client = request.client_id@;
                let after = final(self)@;
                if already_submitted(v, key) {
                    &&& r matches Ok(s)
                    &&& s.id.raw == v.index[key->0]
                    &&& !s.is_new
                    &&& after == v
                } else if v.inflight >= old(self).quotas().max_concurrent {
                    &&& r matches Err(e)
                    &&& e@ == global_limit(old(self).quotas().max_concurrent)
                    &&& after == v
                } else if v.count(client) >= old(self).quotas().max_per_client {
                    &&& r matches Err(e)
                    &&& e@ == client_limit(old(self).quotas().max_per_client, client)
                    &&& after == client_seen(v, client)
                } else if v.jobs.contains_key(id.raw) {
                    &&& r matches Err(e)
                    &&& e@ == id_in_use()
                    &&& after == client_seen(v, client)
                } else {
                    &&& r matches Ok(s)
                    &&& s.id == id
                    &&& s.is_new
                    &&& newly_filed(v, after, request, id.raw, now)
                }
            }),
            r matches Err(e) ==> old(self)@.inflight < old(self).quotas().max_concurrent && old(
                self,
            )@.count(request.client_id@) < old(self).quotas().max_per_client ==> e@ == (
            ErrorView::InternalError { reason: "job id is already in use"@, tagged: false }),
            r matches Ok(s) ==> s.is_new ==> {
                let v = old(self)@;
                let after = final(self)@;
                let e = after.jobs[s.id.raw].entry;
                &&& !v.jobs.contains_key(s.id.raw) && after.jobs.contains_key(s.id.raw)
                &&& e.id == s.id && e.correlation_id == s.id
                &&& e.client_id == request.client_id && e.tool == request.tool
                &&& e.bucket == request.bucket && e.idempotency_key == request.idempotency_key
                &&& e.state == JobState::Pending && e.progress_pct is None && e.message is None
                &&& e.started_at == now && e.updated_at == now && e.terminal_at is None
                &&& e.progress_events_dropped == 0
                &&& after.jobs[s.id.raw].result is None && !after.jobs[s.id.raw].cancel_requested
                &&& forall|other: u128| #[trigger]
                    v.jobs.contains_key(other) ==> after.jobs.contains_key(other)
                        && after.jobs[other] == v.jobs[other]
                &&& after.inflight == v.inflight + 1
            },
            r matches Ok(s) ==> !s.is_new ==> {
                let e = old(self)@.jobs[s.id.raw].entry;
                &&& final(self)@ == old(self)@
                &&& old(self)@.jobs.contains_key(s.id.raw)
                &&& e.client_id@ == request.client_id@ && e.tool@ == request.tool@
                &&& request.idempotency_key matches Some(ik)
                &&& e.idempotency_key matches Some(filed)
                &&& filed@ == ik@
            },
            r matches Err(e) ==> {
                &&& final(self)@.jobs == old(self)@.jobs
                &&& final(self)@.index == old(self)@.index
                &&& final(self)@.inflight == old(self)@.inflight
            },
            r matches Err(e) ==> old(self)@.inflight >= old(self).quotas().max_concurrent ==> e@ == (
            ErrorView::QuotaExceeded {
                detail: "global concurrent job limit ("@ + text::decimal(
                    old(self).quotas().max_concurrent as nat,
                ) + ") reached; wait or cancel an existing job"@,
                tagged: false,
            }),
            r matches Err(e) ==> old(self)@.inflight < old(self).quotas().max_concurrent && old(
                self,
            )@.count(request.client_id@) >= old(self).quotas().max_per_client ==> e@ == (
            ErrorView::QuotaExceeded {
                detail: "per-client concurrent job limit ("@ + text::decimal(
                    old(self).quotas().max_per_client as nat,
                ) + ") reached for client "@ + request.client_id@,
                tagged: false,
            }),
            request.idempotency_key is None && (old(self)@.inflight >= old(
                self,
            ).quotas().max_concurrent || old(self)@.count(request.client_id@) >= old(
                self,
            ).quotas().max_per_client) ==> r is Err,
    {
        let ghost v = self@;
        let ghost quotas = self.quotas();
        let key = IdempotencyDedupKey::from_request(&request);
        let parts = match key {
            Some(k) => {
                let parts = k.into_parts();
                match index_get(&self.idempotency_index, &parts) {
                    Some(existing) => {
                        if jobs_contains(&self.jobs, existing) {
                            return Ok(Submitted { id: JobId { raw: existing }, is_new: false });
                        }
                    },
                    None => {},
                }
                Some(parts)
            },
            None => None,
        };

        let global_max: u32 = self.quotas.max_concurrent;
        let client_max: u32 = self.quotas.max_per_client;
        let global_detail = text::cat3(
            "global concurrent job limit (",
            text::decimal_text(global_max as u64).as_str(),
            ") reached; wait or cancel an existing job",
        );
        let global_guard = match QuotaGuard::try_acquire(
            self.global_inflight,
            global_max as usize,
            global_detail.as_str(),
        ) {
            Ok(g) => g,
            Err(e) => {
                return Err(e);
            },
        };
        let count = self.client_counter(&request.client_id);
        let client_head = text::cat3(
            "per-client concurrent job limit (",
            text::decimal_text(client_max as u64).as_str(),
            ") reached for client ",
        );
        let client_detail = text::cat2(client_head.as_str(), request.client_id.as_str());
        let client_guard = match QuotaGuard::try_acquire(
            count,
            client_max as usize,
            client_detail.as_str(),
        ) {
            Ok(g) => g,
            Err(e) => {
                self.global_inflight = global_guard.rollback();
                proof {
                    lemma_client_seen(v, request.client_id@, quotas);
                    assert(self@ =~= client_seen(v, request.client_id@));
                }
                return Err(e);
            },
        };
        if jobs_contains(&self.jobs, id.raw) {
            self.global_inflight = global_guard.rollback();
            proof {
                lemma_client_seen(v, request.client_id@, quotas);
                assert(self@ =~= client_seen(v, request.client_id@));
            }
            return Err(
                SubstrateError::InternalError {
                    reason: "job id is already in use".to_owned(),
                    correlation_id: None,
                },
            );
        }
        let ghost req = request;
        let client = request.client_id.clone();
        let entry = JobEntry {
            id,
            client_id: request.client_id,
            tool: request.tool,
            bucket: request.bucket,
            state: JobState::Pending,
            progress_pct: None,
            message: None,
            correlation_id: id,
            idempotency_key: request.idempotency_key,
            started_at: now,
            updated_at: now,
            terminal_at: None,
            progress_events_dropped: 0,
        };
        let slot = JobSlot::new(entry);
        let ghost new_slot = slot;
        jobs_insert(&mut self.jobs, id.raw, slot);
        match parts {
            Some(k) => {
                index_insert(&mut self.idempotency_index, k, id.raw);
            },
            None => {},
        }
        self.global_inflight = global_guard.commit();
        clients_insert(&mut self.client_quotas, client, client_guard.commit());
        proof {
            lemma_active_after(v.jobs, id.raw, new_slot);
            assert(!active_jobs(v.jobs).contains(id.raw));
            assert(v.jobs.insert(id.raw, new_slot).dom() =~= v.jobs.dom().insert(id.raw));
            assert(active_jobs(v.jobs).finite()) by {
                v.jobs.dom().lemma_len_filter(
                    |i: u128| !v.jobs[i].entry.state.terminal(),
                );
            }
            let c0 = client@;
            let k0 = dedup_key(req, args_digest(req));
            assert forall|k: KeyView| #[trigger] self@.index.contains_key(k) implies self@.leads(
                k,
            ) by {
                if k0 != Some(k) {
                    assert(v.leads(k));
                }
            }
            assert forall|k1: KeyView, k2: KeyView| #[trigger]
                self@.index.contains_key(k1) && #[trigger] self@.index.contains_key(k2)
                    && self@.index[k1] == self@.index[k2] implies k1 == k2 by {
                if k0 != Some(k1) {
                    assert(v.leads(k1));
                }
                if k0 != Some(k2) {
                    assert(v.leads(k2));
                }
            }
            assert(self@.clients =~= v.clients.insert(c0, (v.count(c0) + 1) as usize));
            assert forall|c: Seq<char>| #[trigger]
                self@.count(c) == client_active(self@.jobs, c).len() by {
                assert(v.count(c) == client_active(v.jobs, c).len());
                active_jobs(v.jobs).lemma_len_filter(
                    |i: u128| v.jobs[i].entry.client_id@ == c,
                );
                assert(!client_active(v.jobs, c).contains(id.raw));
                assert(client_active(v.jobs, c).remove(id.raw) =~= client_active(v.jobs, c));
            }
            assert forall|c: Seq<char>| #[trigger] self@.count(c) <= quotas.max_per_client by {
                assert(v.count(c) <= quotas.max_per_client);
            }
        }
        Ok(Submitted { id, is_new: true })
    }

    /// An id that is not in use: `drawn`, or the next one after it that is free.
    fn free_id(&self, drawn: u128) -> (id: u128)
        ensures
            !self@.jobs.contains_key(id),
            !self@.jobs.contains_key(drawn) ==> id == drawn,
    {
        if !jobs_contains(&self.jobs, drawn) {
            return drawn;
        }
        let ids = jobs_ids(&self.jobs);
        let in_use: usize = ids.len();
        let mut id: u128 = drawn;
        let ghost mut tried: Seq<u128> = Seq::empty();
        proof {
            ids@.unique_seq_to_set();
        }
        while jobs_contains(&self.jobs, id)
            invariant
                in_use == ids@.len(),
                ids@.to_set().len() == ids@.len(),
                ids@.to_set() == self@.jobs.dom(),
                tried.len() <= ids@.len(),
                id == wrapped(drawn, tried.len()),
                forall|j: int|
                    0 <= j < tried.len() ==> (#[trigger] tried[j]) == wrapped(drawn, j as nat)
                        && self@.jobs.contains_key(tried[j]),
                tried.len() > 0 ==> self@.jobs.contains_key(drawn),
            decreases in_use - tried.len(),
        {
            proof {
                let more = tried.push(id);
                assert forall|a: int, b: int| 0 <= a < more.len() && 0 <= b < more.len() && a
                    != b implies more[a] != more[b] by {
                    lemma_wrapped_differ(drawn, a as nat, b as nat);
                }
                assert(more.no_duplicates());
                more.unique_seq_to_set();
                assert(more.to_set().subset_of(self@.jobs.dom())) by {
                    assert forall|x: u128| more.to_set().contains(x) implies self@.jobs.dom().contains(
                        x,
                    ) by {
                        let k = choose|k: int| 0 <= k < more.len() && more[k] == x;
                        assert(more[k] == x);
                    }
                }
                ids@.lemma_cardinality_of_set();
                vstd::set_lib::lemma_len_subset(more.to_set(), ids@.to_set());
                tried = more;
            }
            id = id.wrapping_add(1);
        }
        id
    }

    /// Submits a job under an id that is drawn by chance; should it be in use, under the next
    /// one that is free. A submission that was made before gives the job of then, one beyond a
    /// quota is refused, and any other is filed, whatever is drawn.
    pub fn submit(&mut self, request: JobSubmitRequest, now: u64) -> (r: Result<
        Submitted,
        SubstrateError,
    >)
        requires
            old(self).wf(),
        ensures
            final(self).wf(),
            final(self).quotas() == old(self).quotas(),
            ({
                let key = dedup_key(request, args_digest(request));
                let v = old(self)@;
                let client = request.client_id@;
                let after = final(self)@;
                if already_submitted(v, key) {
                    &&& r matches Ok(s)
                    &&& s.id.raw == v.index[key->0]
                    &&& !s.is_new
                    &&& after == v
                } else if v.inflight >= old(self).quotas().max_concurrent {
                    &&& r matches Err(e)
                    &&& e@ == global_limit(old(self).quotas().max_concurrent)
                    &&& after == v
                } else if v.count(client) >= old(self).quotas().max_per_client {
                    &&& r matches Err(e)
                    &&& e@ == client_limit(old(self).quotas().max_per_client, client)
                    &&& after == client_seen(v, client)
                } else {
                    &&& r matches Ok(s)
                    &&& s.is_new
                    &&& newly_filed(v, after, request, s.id.raw, now)
                }
            }),
            r matches Ok(s) ==> s.is_new ==> {
                let v = old(self)@;
                let after = final(self)@;
                let e = after.jobs[s.id.raw].entry;
                &&& !v.jobs.contains_key(s.id.raw) && after.jobs.contains_key(s.id.raw)
                &&& e.id == s.id && e.correlation_id == s.id
                &&& e.client_id == request.client_id && e.tool == request.tool
                &&& e.bucket == request.bucket && e.idempotency_key == request.idempotency_key
                &&& e.state == JobState::Pending && e.progress_pct is None && e.message is None
                &&& e.started_at == now && e.updated_at == now && e.terminal_at is None
                &&& e.progress_events_dropped == 0
                &&& after.jobs[s.id.raw].result is None && !after.jobs[s.id.raw].cancel_requested
                &&& forall|other: u128| #[trigger]
                    v.jobs.contains_key(other) ==> after.jobs.contains_key(other)
                        && after.jobs[other] == v.jobs[other]
                &&& after.inflight == v.inflight + 1
            },
            r matches Ok(s) ==> !s.is_new ==> {
                let e = old(self)@.jobs[s.id.raw].entry;
                &&& final(self)@ == old(self)@
                &&& old(self)@.jobs.contains_key(s.id.raw)
                &&& e.client_id@ == request.client_id@ && e.tool@ == request.tool@
                &&& request.idempotency_key matches Some(ik)
                &&& e.idempotency_key matches Some(filed)
                &&& filed@ == ik@
            },
            r matches Err(e) ==> {
                &&& final(self)@.jobs == old(self)@.jobs
                &&& final(self)@.index == old(self)@.index
                &&& final(self)@.inflight == old(self)@.inflight
            },
            r matches Err(e) ==> old(self)@.inflight >= old(self).quotas().max_concurrent ==> e@ == (
            ErrorView::QuotaExceeded {
                detail: "global concurrent job limit ("@ + text::decimal(
                    old(self).quotas().max_concurrent as nat,
                ) + ") reached; wait or cancel an existing job"@,
                tagged: false,
            }),
            r matches Err(e) ==> old(self)@.inflight < old(self).quotas().max_concurrent && old(
                self,
            )@.count(request.client_id@) >= old(self).quotas().max_per_client ==> e@ == (
            ErrorView::QuotaExceeded {
                detail: "per-client concurrent job limit ("@ + text::decimal(
                    old(self).quotas().max_per_client as nat,
                ) + ") reached for client "@ + request.client_id@,
                tagged: false,
            }),
            request.idempotency_key is None && (old(self)@.inflight >= old(
                self,
            ).quotas().max_concurrent || old(self)@.count(request.client_id@) >= old(
                self,
            ).quotas().max_per_client) ==> r is Err,
            request.idempotency_key is None && old(self)@.inflight < old(
                self,
            ).quotas().max_concurrent && old(self)@.count(request.client_id@) < old(
                self,
            ).quotas().max_per_client ==> (r matches Ok(s) && s.is_new),
    {
        let id = JobId { raw: self.free_id(fresh_correlation_id()) };
        self.submit_as(request, id, now)
    }

    /// Lets a pending job run. A job in any other state, or an unknown one, stays as it
    /// is.
    pub fn start(&mut self, id: JobId, now: u64) -> (started: bool)
        requires
            old(self).wf(),
        ensures
            final(self).wf(),
            final(self).quotas() == old(self).quotas(),
            started == (old(self)@.jobs.contains_key(id.raw) && old(self)@.jobs[id.raw].entry.state
                == JobState::Pending),
            final(self)@ == (if started {
                RegistryView {
                    jobs: old(self)@.jobs.insert(
                        id.raw,
                        JobSlot {
                            entry: entered(old(self)@.jobs[id.raw].entry, JobState::Running, now),
                            ..old(self)@.jobs[id.raw]
                        },
                    ),
                    ..old(self)@
                }
            } else {
                old(self)@
            }),
            started ==> {
                let e = final(self)@.jobs[id.raw].entry;
                &&& e == (JobEntry {
                    state: JobState::Running,
                    updated_at: now,
                    ..old(self)@.jobs[id.raw].entry
                })
                &&& final(self)@.jobs == old(self)@.jobs.insert(id.raw, final(self)@.jobs[id.raw])
            },
    {
        let ghost v = self@;
        let mut slot = match jobs_get(&self.jobs, id.raw) {
            Some(slot) => slot,
            None => {
                return false;
            },
        };
        let ok = match slot.try_transition(JobState::Running, now) {
            Ok(_) => true,
            Err(_) => false,
        };
        if !ok {
            return false;
        }
        let ghost after = slot;
        jobs_insert(&mut self.jobs, id.raw, slot);
        proof {
            lemma_replaced(v, id.raw, after);
        }
        true
    }

    /// Ends a running job with its result: the state, the end time, the result and the
    /// counters change together. A job that is not running, or an unknown one, stays as
    /// it is.
    pub fn finish(&mut self, id: JobId, result: JobResult, now: u64) -> (ended: bool)
        requires
            old(self).wf(),
        ensures
            final(self).wf(),
            final(self).quotas() == old(self).quotas(),
            ended == (old(self)@.jobs.contains_key(id.raw) && old(self)@.jobs[id.raw].entry.state
                == JobState::Running),
            ({
                let v = old(self)@;
                let slot = v.jobs[id.raw];
                let client = slot.entry.client_id@;
                final(self)@ == (if ended {
                    RegistryView {
                        jobs: v.jobs.insert(
                            id.raw,
                            JobSlot {
                                entry: entered(slot.entry, result.end_state(), now),
                                result: Some(result),
                                ..slot
                            },
                        ),
                        inflight: (v.inflight - 1) as usize,
                        clients: v.clients.insert(client, (v.count(client) - 1) as usize),
                        ..v
                    }
                } else {
                    v
                })
            }),
            ended ==> {
                let v = old(self)@;
                let slot = final(self)@.jobs[id.raw];
                &&& slot.result == Some(result)
                &&& match result {
                    JobResult::Succeeded(_) => slot.entry.state is Succeeded,
                    JobResult::Failed { .. } => slot.entry.state is Failed,
                    JobResult::Cancelled => slot.entry.state is Cancelled,
                    JobResult::TimedOut => slot.entry.state is TimedOut,
                }
                &&& slot.entry == (JobEntry {
                    state: slot.entry.state,
                    updated_at: now,
                    terminal_at: Some(now),
                    ..v.jobs[id.raw].entry
                })
                &&& final(self)@.jobs == v.jobs.insert(id.raw, slot)
                &&& final(self)@.inflight == v.inflight - 1
                &&& final(self)@.index == v.index
            },
    {
        let ghost v = self@;
        let ghost quotas = self.quotas();
        let mut slot = match jobs_get(&self.jobs, id.raw) {
            Some(slot) => slot,
            None => {
                return false;
            },
        };
        if !slot.finish(result, now) {
            return false;
        }
        let ghost after = slot;
        let client = slot.entry.client_id.clone();
        jobs_insert(&mut self.jobs, id.raw, slot);
        decrement(&mut self.global_inflight);
        let mut count = self.client_counter(&client);
        decrement(&mut count);
        clients_insert(&mut self.client_quotas, client, count);
        proof {
            let c0 = client@;
            lemma_active_after(v.jobs, id.raw, after);
            assert(active_jobs(v.jobs).contains(id.raw));
            v.jobs.dom().lemma_len_filter(|i: u128| !v.jobs[i].entry.state.terminal());
            assert(self@.jobs.dom() =~= v.jobs.dom());
            assert forall|k: KeyView| #[trigger] self@.index.contains_key(k) implies self@.leads(
                k,
            ) by {
                assert(v.leads(k));
            }
            assert(client_active(v.jobs, c0).contains(id.raw));
            active_jobs(v.jobs).lemma_len_filter(|i: u128| v.jobs[i].entry.client_id@ == c0);
            assert(v.count(c0) == client_active(v.jobs, c0).len());
            assert(self@.clients =~= v.clients.insert(c0, (v.count(c0) - 1) as usize));
            assert forall|c: Seq<char>| #[trigger]
                self@.count(c) == client_active(self@.jobs, c).len() by {
                assert(v.count(c) == client_active(v.jobs, c).len());
                active_jobs(v.jobs).lemma_len_filter(|i: u128| v.jobs[i].entry.client_id@ == c);
                if c != c0 {
                    assert(!client_active(v.jobs, c).contains(id.raw));
                    assert(client_active(v.jobs, c).remove(id.raw) =~= client_active(v.jobs, c));
                }
            }
            assert forall|c: Seq<char>| #[trigger] self@.count(c) <= quotas.max_per_client by {
                assert(v.count(c) <= quotas.max_per_client);
            }
        }
        true
    }

    /// What is known of a job.
    pub fn status(&self, id: JobId) -> (r: Result<JobEntry, SubstrateError>)
        ensures
            r is Ok <==> self@.jobs.contains_key(id.raw),
            r matches Ok(e) ==> e == self@.jobs[id.raw].entry,
            r matches Err(e) ==> e@ == no_such_job(id),
            r matches Err(e) ==> e@ == (ErrorView::JobNotFound {
                job_id: crockford_text(id.raw),
                tagged: false,
            }),
    {
        match jobs_get(&self.jobs, id.raw) {
            Some(slot) => Ok(slot.snapshot()),
            None => Err(
                SubstrateError::JobNotFound { job_id: id.to_crockford(), correlation_id: None },
            ),
        }
    }

    /// Looks for the result of a job. A wait longer than the cap is refused before
    /// anything else; then an unknown job is; a result that is there is handed out; and
    /// without it the client waits as long as it asked to, or is told that the job is
    /// still in progress.
    pub fn result(&self, id: JobId, wait_ms: Option<u128>) -> (r: Result<
        ResultStep,
        SubstrateError,
    >)
        ensures
            match looked_up(self@, self.quotas(), id, wait_ms) {
                Lookup::Refused(e) => r matches Err(x) && x@ == e,
                Lookup::Ready(result) => r matches Ok(ResultStep::Ready(x)) && handed_out(
                    result,
                    x,
                ),
                Lookup::Wait(ms) => r == Ok::<ResultStep, SubstrateError>(ResultStep::Wait(ms)),
            },
            ({
                let slot = self@.jobs[id.raw];
                if wait_ms is Some && wait_ms->0 as u64 > self.quotas().result_max_wait_ms {
                    r matches Err(e) && e@ == (ErrorView::ResultWaitExceeded {
                        requested_ms: wait_ms->0 as u64,
                        cap_ms: self.quotas().result_max_wait_ms as u64,
                        tagged: false,
                    })
                } else if !self@.jobs.contains_key(id.raw) {
                    r matches Err(e) && e@ == (ErrorView::JobNotFound {
                        job_id: crockford_text(id.raw),
                        tagged: false,
                    })
                } else if slot.result is None && wait_ms is None {
                    r matches Err(e) && e@ == (ErrorView::InternalError {
                        reason: "job is still in progress"@,
                        tagged: false,
                    })
                } else if slot.result is None {
                    r matches Ok(step) && step == ResultStep::Wait(wait_ms->0 as u64)
                } else {
                    &&& r matches Ok(ResultStep::Ready(x))
                    &&& slot.result matches Some(JobResult::Succeeded(v)) ==> x
                        == JobResult::Succeeded(v)
                    &&& slot.result matches Some(JobResult::Cancelled) ==> x is Cancelled
                    &&& slot.result matches Some(JobResult::TimedOut) ==> x is TimedOut
                    &&& slot.result matches Some(JobResult::Failed { .. }) ==> x is Failed
                }
            }),
    {
        let cap_ms: u64 = self.quotas.result_max_wait_ms as u64;
        match wait_ms {
            Some(w) => {
                let requested_ms: u64 = w as u64;
                if requested_ms > cap_ms {
                    return Err(
                        SubstrateError::ResultWaitExceeded {
                            requested_ms,
                            cap_ms,
                            correlation_id: None,
                        },
                    );
                }
            },
            None => {},
        }
        let slot = match jobs_get(&self.jobs, id.raw) {
            Some(slot) => slot,
            None => {
                return Err(
                    SubstrateError::JobNotFound { job_id: id.to_crockford(), correlation_id: None },
                );
            },
        };
        match &slot.result {
            Some(result) => Ok(ResultStep::Ready(clone_job_result(result))),
            None => match wait_ms {
                Some(w) => Ok(ResultStep::Wait(w as u64)),
                None => Err(
                    SubstrateError::InternalError {
                        reason: "job is still in progress".to_owned(),
                        correlation_id: None,
                    },
                ),
            },
        }
    }

    /// Asks a job to stop. A job that has ended stays as it is. The result is the state
    /// that the job is in.
    pub fn cancel(&mut self, id: JobId) -> (r: Result<JobState, SubstrateError>)
        requires
            old(self).wf(),
        ensures
            final(self).wf(),
            final(self).quotas() == old(self).quotas(),
            if old(self)@.jobs.contains_key(id.raw) {
                let slot = old(self)@.jobs[id.raw];
                &&& r == Ok::<JobState, SubstrateError>(slot.entry.state)
                &&& final(self)@ == (if slot.entry.state.terminal() {
                    old(self)@
                } else {
                    RegistryView {
                        jobs: old(self)@.jobs.insert(
                            id.raw,
                            JobSlot { cancel_requested: true, ..slot },
                        ),
                        ..old(self)@
                    }
                })
            } else {
                &&& r matches Err(e)
                &&& e@ == no_such_job(id)
                &&& final(self)@ == old(self)@
            },
            r is Ok <==> old(self)@.jobs.contains_key(id.raw),
            r matches Ok(state) ==> {
                let slot = old(self)@.jobs[id.raw];
                &&& state == slot.entry.state
                &&& state is Pending || state is Running ==> final(self)@.jobs == old(
                    self,
                )@.jobs.insert(id.raw, JobSlot { cancel_requested: true, ..slot })
                &&& !(state is Pending) && !(state is Running) ==> final(self)@ == old(self)@
            },
            r matches Err(e) ==> e@ == (ErrorView::JobNotFound {
                job_id: crockford_text(id.raw),
                tagged: false,
            }),
    {
        let ghost v = self@;
        let mut slot = match jobs_get(&self.jobs, id.raw) {
            Some(slot) => slot,
            None => {
                return Err(
                    SubstrateError::JobNotFound { job_id: id.to_crockford(), correlation_id: None },
                );
            },
        };
        let state = slot.entry.state;
        if state.is_terminal() {
            return Ok(state);
        }
        slot.cancel_requested = true;
        let ghost after = slot;
        jobs_insert(&mut self.jobs, id.raw, slot);
        proof {
            lemma_replaced(v, id.raw, after);
        }
        Ok(state)
    }

    /// Removes the jobs that ended longer ago than ended jobs are kept, and what the
    /// index says of them, so that they can be submitted anew. The result is how many
    /// there were.
    pub fn sweep_once(&mut self, now: u64, ttl_secs: u64) -> (evicted: u64)
        requires
            old(self).wf(),
        ensures
            final(self).wf(),
            final(self).quotas() == old(self).quotas(),
            ({
                let v = old(self)@;
                let dead = expired_jobs(v.jobs, now, ttl_secs);
                &&& evicted == dead.len()
                &&& final(self)@.jobs == v.jobs.remove_keys(dead)
                &&& final(self)@.index == v.index.restrict(
                    Set::new(
                        |k: KeyView| v.index.contains_key(k) && !dead.contains(v.index[k]),
                    ),
                )
                &&& final(self)@.clients == v.clients
                &&& final(self)@.inflight == v.inflight
            }),
            forall|id: u128| #[trigger]
                final(self)@.jobs.contains_key(id) <==> old(self)@.jobs.contains_key(id) && !(old(
                    self,
                )@.jobs[id].entry.terminal_at matches Some(t) && now - t > ttl_secs
                    * 1_000_000_000),
            forall|id: u128| #[trigger]
                final(self)@.jobs.contains_key(id) ==> final(self)@.jobs[id] == old(
                    self,
                )@.jobs[id],
    {
        let ghost v = self@;
        let ghost dead = expired_jobs(v.jobs, now, ttl_secs);
        let ids = jobs_ids(&self.jobs);
        let mut gone: Vec<u128> = Vec::new();
        let mut i: usize = 0;
        while i < ids.len()
            invariant
                i <= ids@.len(),
                self@ == v,
                self.quotas() == old(self).quotas(),
                ids@.no_duplicates(),
                ids@.to_set() == v.jobs.dom(),
                dead == expired_jobs(v.jobs, now, ttl_secs),
                gone@.no_duplicates(),
                forall|j: int|
                    0 <= j < gone@.len() ==> dead.contains(#[trigger] gone@[j]) && ids@.take(
                        i as int,
                    ).contains(gone@[j]),
                forall|j: int|
                    0 <= j < i ==> (dead.contains(#[trigger] ids@[j]) ==> gone@.contains(ids@[j])),
            decreases ids@.len() - i,
        {
            let id: u128 = ids[i];
            proof {
                assert(ids@.to_set().contains(id));
                assert(ids@.take(i + 1) =~= ids@.take(i as int).push(id));
                assert(!ids@.take(i as int).contains(id));
            }
            let ghost before = gone@;
            match jobs_get(&self.jobs, id) {
                Some(slot) => {
                    if crate::jobs::ttl_gc::is_expired(&slot.entry, now, ttl_secs) {
                        gone.push(id);
                        proof {
                            assert(gone@[before.len() as int] == id);
                        }
                    }
                },
                None => {},
            }
            proof {
                assert forall|j: int| 0 <= j < gone@.len() implies dead.contains(
                    #[trigger] gone@[j],
                ) && ids@.take(i + 1).contains(gone@[j]) by {
                    if j < before.len() {
                        assert(gone@[j] == before[j]);
                        let k = choose|k: int|
                            0 <= k < ids@.take(i as int).len() && ids@.take(i as int)[k]
                                == before[j];
                        assert(ids@.take(i + 1)[k] == before[j]);
                    } else {
                        assert(ids@.take(i + 1)[i as int] == id);
                    }
                }
                assert forall|j: int| 0 <= j < i + 1 && dead.contains(#[trigger] ids@[j]) implies
                    gone@.contains(ids@[j]) by {
                    if j < i {
                        let k = choose|k: int| 0 <= k < before.len() && before[k] == ids@[j];
                        assert(gone@[k] == ids@[j]);
                    }
                }
            }
            i = i + 1;
        }
        proof {
            assert(gone@.to_set() =~= dead) by {
                assert forall|id: u128| dead.contains(id) implies gone@.to_set().contains(id) by {
                    assert(ids@.to_set().contains(id));
                    let k = choose|k: int| 0 <= k < ids@.len() && ids@[k] == id;
                    assert(gone@.contains(ids@[k]));
                }
            }
            gone@.unique_seq_to_set();
        }
        let evicted: u64 = gone.len() as u64;
        let mut k: usize = 0;
        assert(v.jobs.remove_keys(gone@.take(0).to_set()) =~= v.jobs);
        while k < gone.len()
            invariant
                k <= gone@.len(),
                self@.jobs == v.jobs.remove_keys(gone@.take(k as int).to_set()),
                self@.clients == v.clients,
                self@.inflight == v.inflight,
                self@.index == v.index,
                self.quotas() == old(self).quotas(),
            decreases gone@.len() - k,
        {
            jobs_remove(&mut self.jobs, gone[k]);
            proof {
                let less = gone@.take(k as int);
                let more = gone@.take(k + 1);
                assert(more =~= less.push(gone@[k as int]));
                assert(more.to_set() =~= less.to_set().insert(gone@[k as int])) by {
                    assert forall|x: u128| more.to_set().contains(x) == less.to_set().insert(
                        gone@[k as int],
                    ).contains(x) by {
                        if less.contains(x) {
                            let j = choose|j: int| 0 <= j < less.len() && less[j] == x;
                            assert(more[j] == x);
                        }
                        if more.contains(x) {
                            let j = choose|j: int| 0 <= j < more.len() && more[j] == x;
                            if j < k {
                                assert(less[j] == x);
                            }
                        }
                        assert(more[k as int] == gone@[k as int]);
                    }
                }
                assert(self@.jobs =~= v.jobs.remove_keys(more.to_set()));
            }
            k = k + 1;
        }
        assert(gone@.take(k as int) =~= gone@);
        index_retain(&mut self.idempotency_index, &gone);
        proof {
            assert forall|id: u128| gone@.contains(id) == dead.contains(id) by {
                assert(gone@.to_set().contains(id) == gone@.contains(id));
            }
            assert(self@.index =~= v.index.restrict(
                Set::new(|q: KeyView| v.index.contains_key(q) && !dead.contains(v.index[q])),
            ));
            let after = self@.jobs;
            assert(after.dom() =~= v.jobs.dom().difference(dead));
            assert forall|k: KeyView| #[trigger] self@.index.contains_key(k) implies self@.leads(
                k,
            ) by {
                assert(v.index.contains_key(k));
                assert(v.leads(k));
            }
            assert forall|k1: KeyView, k2: KeyView| #[trigger]
                self@.index.contains_key(k1) && #[trigger] self@.index.contains_key(k2)
                    && self@.index[k1] == self@.index[k2] implies k1 == k2 by {
                assert(v.index.contains_key(k1) && v.index.contains_key(k2));
            }
            assert(active_jobs(after) =~= active_jobs(v.jobs));
            assert forall|c: Seq<char>| #[trigger]
                self@.count(c) == client_active(self@.jobs, c).len() by {
                assert(v.count(c) == client_active(v.jobs, c).len());
                assert(client_active(after, c) =~= client_active(v.jobs, c));
            }
            assert forall|c: Seq<char>| #[trigger] self@.count(c) <= self.quotas().max_per_client by {
                assert(v.count(c) <= old(self).quotas().max_per_client);
            }
        }
        evicted
    }
}

/// The id that is `n` after `drawn`; after the largest comes the smallest.
spec fn wrapped(drawn: u128, n: nat) -> u128 {
    ((drawn + n) % (u128::MAX + 1)) as u128
}

proof fn lemma_wrapped_differ(drawn: u128, a: nat, b: nat)
    requires
        a != b,
        a <= u64::MAX,
        b <= u64::MAX,
    ensures
        wrapped(drawn, a) != wrapped(drawn, b),
{
}

proof fn lemma_replaced(v: RegistryView, id: u128, slot: JobSlot)
    requires
        v.wf(),
        v.jobs.contains_key(id),
        slot.wf(),
        slot.entry.id == v.jobs[id].entry.id,
        slot.entry.client_id == v.jobs[id].entry.client_id,
        slot.entry.tool == v.jobs[id].entry.tool,
        slot.entry.idempotency_key == v.jobs[id].entry.idempotency_key,
        !slot.entry.state.terminal(),
        !v.jobs[id].entry.state.terminal(),
    ensures
        (RegistryView { jobs: v.jobs.insert(id, slot), ..v }).wf(),
        forall|c: Seq<char>| #[trigger]
            (RegistryView { jobs: v.jobs.insert(id, slot), ..v }).count(c) == v.count(c),
{
    let after = RegistryView { jobs: v.jobs.insert(id, slot), ..v };
    assert forall|k: KeyView| #[trigger] after.index.contains_key(k) implies after.leads(k) by {
        assert(v.leads(k));
    }
    lemma_active_after(v.jobs, id, slot);
    assert(active_jobs(v.jobs).insert(id) =~= active_jobs(v.jobs));
    assert(after.jobs.dom() =~= v.jobs.dom());
    assert forall|c: Seq<char>| #[trigger]
        after.count(c) == client_active(after.jobs, c).len() by {
        assert(v.count(c) == client_active(v.jobs, c).len());
        if slot.entry.client_id@ == c {
            assert(client_active(v.jobs, c).insert(id) =~= client_active(v.jobs, c));
        } else {
            assert(client_active(v.jobs, c).remove(id) =~= client_active(v.jobs, c));
        }
    }
}

/// The jobs that ended longer ago than ended jobs are kept.
pub open spec fn expired_jobs(jobs: Map<u128, JobSlot>, now: u64, ttl_secs: u64) -> Set<u128> {
    jobs.dom().filter(
        |id: u128| crate::jobs::ttl_gc::expired(jobs[id].entry, now, ttl_secs),
    )
}

// ---- Results ---------------------------------------------------------------

/// What a look for a result comes to.
#[derive(Debug)]
pub enum ResultStep {
    /// The result is there.
    Ready(JobResult),
    /// The client waits for so many milliseconds.
    Wait(u64),
}

/// What contracts say of a look for a result.
pub enum Lookup {
    Refused(ErrorView),
    Ready(JobResult),
    Wait(u64),
}

/// What a look for a result comes to.
pub open spec fn looked_up(v: RegistryView, quotas: JobQuotas, id: JobId, wait_ms: Option<u128>) -> Lookup {
    if wait_ms is Some && wait_ms->0 as u64 > quotas.result_max_wait_ms {
        Lookup::Refused(
            ErrorView::ResultWaitExceeded {
                requested_ms: wait_ms->0 as u64,
                cap_ms: quotas.result_max_wait_ms as u64,
                tagged: false,
            },
        )
    } else if !v.jobs.contains_key(id.raw) {
        Lookup::Refused(no_such_job(id))
    } else {
        match v.jobs[id.raw].result {
            Some(r) => Lookup::Ready(r),
            None => match wait_ms {
                Some(w) => Lookup::Wait(w as u64),
                None => Lookup::Refused(
                    ErrorView::InternalError { reason: "job is still in progress"@, tagged: false },
                ),
            },
        }
    }
}

/// Whether `copy` is what is handed out for the result `r`: an error is handed out as
/// an internal error that quotes its code and how it is shown.
pub open spec fn handed_out(r: JobResult, copy: JobResult) -> bool {
    match r {
        JobResult::Succeeded(v) => copy == JobResult::Succeeded(v),
        JobResult::Failed { error, shown } => {
            &&& copy matches JobResult::Failed { error: e, shown: s }
            &&& s == shown
            &&& e@ == quoted(error, shown@)
            &&& e.tag() == error.tag()
        },
        JobResult::Cancelled => copy == JobResult::Cancelled,
        JobResult::TimedOut => copy == JobResult::TimedOut,
    }
}

/// The internal error that quotes another.
pub open spec fn quoted(error: SubstrateError, shown: Seq<char>) -> ErrorView {
    ErrorView::InternalError {
        reason: "["@ + error@.code() + ("] "@ + shown),
        tagged: error.tag() is Some,
    }
}

/// The internal error that quotes `e`, which is shown as `shown`. The correlation id
/// stays.
pub fn clone_substrate_error(e: &SubstrateError, shown: &str) -> (r: SubstrateError)
    ensures
        r@ == quoted(*e, shown@),
        r@ == (ErrorView::InternalError {
            reason: "["@ + e@.code() + ("] "@ + shown@),
            tagged: e.tag() is Some,
        }),
        r.tag() == e.tag(),
{
    let tail = text::cat2("] ", shown);
    SubstrateError::InternalError {
        reason: text::cat3("[", e.code(), tail.as_str()),
        correlation_id: e.correlation_id(),
    }
}

/// What is handed out for a result.
pub fn clone_job_result(r: &JobResult) -> (copy: JobResult)
    ensures
        handed_out(*r, copy),
        r matches JobResult::Succeeded(v) ==> copy == JobResult::Succeeded(*v),
        r is Cancelled ==> copy is Cancelled,
        r is TimedOut ==> copy is TimedOut,
        r matches JobResult::Failed { error, shown } ==> copy matches JobResult::Failed {
            error: e,
            shown: s,
        } && s == shown && e@ == (ErrorView::InternalError {
            reason: "["@ + error@.code() + ("] "@ + shown@),
            tagged: error.tag() is Some,
        }),
{
    match r {
        JobResult::Succeeded(v) => JobResult::Succeeded(v.clone()),
        JobResult::Failed { error, shown } => JobResult::Failed {
            error: clone_substrate_error(error, shown.as_str()),
            shown: shown.clone(),
        },
        JobResult::Cancelled => JobResult::Cancelled,
        JobResult::TimedOut => JobResult::TimedOut,
    }
}

/// How a wait for a result ends.
#[derive(Debug)]
pub enum WaitOutcome {
    /// The job ended; its result should be there.
    Fired(Option<JobResult>),
    /// The job is gone without a result.
    Closed,
    /// The time is over.
    TimedOut,
}

/// Answers a client whose wait has ended.
pub fn result_after_wait(outcome: WaitOutcome, wait_ms: u64) -> (r: Result<
    JobResult,
    SubstrateError,
>)
    ensures
        match outcome {
            WaitOutcome::Fired(Some(result)) => r matches Ok(x) && handed_out(result, x),
            WaitOutcome::Fired(None) => r matches Err(e) && e@ == (ErrorView::InternalError {
                reason: "watch fired but result is absent"@,
                tagged: false,
            }),
            WaitOutcome::Closed => r matches Err(e) && e@ == (ErrorView::InternalError {
                reason: "result watch channel closed without a terminal value"@,
                tagged: false,
            }),
            WaitOutcome::TimedOut => r matches Err(e) && e@ == (ErrorView::Timeout {
                elapsed_ms: wait_ms,
                tagged: false,
            }),
        },
{
    match outcome {
        WaitOutcome::Fired(Some(result)) => Ok(clone_job_result(&result)),
        WaitOutcome::Fired(None) => Err(
            SubstrateError::InternalError {
                reason: "watch fired but result is absent".to_owned(),
                correlation_id: None,
            },
        ),
        WaitOutcome::Closed => Err(
            SubstrateError::InternalError {
                reason: "result watch channel closed without a terminal value".to_owned(),
                correlation_id: None,
            },
        ),
        WaitOutcome::TimedOut => Err(
            SubstrateError::Timeout { elapsed_ms: wait_ms, correlation_id: None },
        ),
    }
}

// ---- Listing ---------------------------------------------------------------

/// How many jobs are on a page.
pub const LIST_PAGE_SIZE: usize = 50;

/// A page of jobs.
#[derive(Debug)]
pub struct JobPage {
    pub jobs: Vec<JobEntry>,
    /// The cursor of the next page, where there is one.
    pub next_cursor: Option<PageCursor>,
}

/// An opaque cursor.
#[derive(Debug)]
pub struct PageCursor {
    pub bytes: Vec<u8>,
}

/// The cursor that stands for an offset.
pub open spec fn cursor_bytes(offset: u64) -> Seq<u8> {
    encode_utf8(json_number("offset"@, offset))
}

/// What a cursor stands for, or what it is answered with.
pub open spec fn cursor_offset(bytes: Seq<u8>) -> Result<u64, ErrorView> {
    if !vstd::utf8::valid_utf8(bytes) {
        Err(bad_cursor("cursor payload is not valid UTF-8"@))
    } else {
        offset_field(json_u64_in(vstd::utf8::decode_utf8(bytes), "offset"@))
    }
}

/// What the JSON of a cursor stands for, or what it is answered with.
pub open spec fn offset_field(field: Option<Option<u64>>) -> Result<u64, ErrorView> {
    match field {
        None => Err(bad_cursor("cursor payload is not valid JSON"@)),
        Some(None) => Err(bad_cursor("cursor JSON missing 'offset' field"@)),
        Some(Some(n)) => Ok(n),
    }
}

/// What a malformed cursor is answered with.
pub open spec fn bad_cursor(reason: Seq<char>) -> ErrorView {
    ErrorView::InvalidArgument { offending_field: "cursor"@, reason, tagged: false }
}

/// The cursor that stands for an offset.
pub fn encode_cursor(offset: u64) -> (r: PageCursor)
    ensures
        r.bytes@ == cursor_bytes(offset),
        r.bytes@ == encode_utf8(
            "{\""@ + "offset"@ + "\":"@ + text::decimal(offset as nat) + "}"@,
        ),
{
    let head = text::cat3("{\"", "offset", "\":");
    let json = text::cat3(head.as_str(), text::decimal_text(offset).as_str(), "}");
    PageCursor { bytes: vstd::slice::slice_to_vec(json.as_str().as_bytes()) }
}

/// Reads the offset out of the JSON of a cursor.
pub fn offset_of(field: Option<Option<u64>>) -> (r: Result<u64, SubstrateError>)
    ensures
        match offset_field(field) {
            Ok(n) => r == Ok::<u64, SubstrateError>(n),
            Err(e) => r matches Err(x) && x@ == e,
        },
{
    match field {
        None => Err(invalid_argument("cursor", "cursor payload is not valid JSON".to_owned(), false)),
        Some(None) => Err(
            invalid_argument("cursor", "cursor JSON missing 'offset' field".to_owned(), false),
        ),
        Some(Some(n)) => Ok(n),
    }
}

/// The offset that a cursor stands for. A cursor that was made for an offset stands for
/// that offset.
pub fn decode_cursor(cursor: &PageCursor) -> (r: Result<u64, SubstrateError>)
    ensures
        match cursor_offset(cursor.bytes@) {
            Ok(n) => r == Ok::<u64, SubstrateError>(n),
            Err(e) => r matches Err(x) && x@ == e,
        },
        !vstd::utf8::valid_utf8(cursor.bytes@) ==> (r matches Err(e) && e@ == (
        ErrorView::InvalidArgument {
            offending_field: "cursor"@,
            reason: "cursor payload is not valid UTF-8"@,
            tagged: false,
        })),
        vstd::utf8::valid_utf8(cursor.bytes@) ==> match json_u64_in(
            vstd::utf8::decode_utf8(cursor.bytes@),
            "offset"@,
        ) {
            Some(Some(n)) => r matches Ok(x) && x == n,
            Some(None) => r matches Err(e) && e@ == (ErrorView::InvalidArgument {
                offending_field: "cursor"@,
                reason: "cursor JSON missing 'offset' field"@,
                tagged: false,
            }),
            None => r matches Err(e) && e@ == (ErrorView::InvalidArgument {
                offending_field: "cursor"@,
                reason: "cursor payload is not valid JSON"@,
                tagged: false,
            }),
        },
        forall|n: u64| cursor.bytes@ == #[trigger] cursor_bytes(n) ==> r == Ok::<
            u64,
            SubstrateError,
        >(n),
{
    let bytes = vstd::slice::slice_to_vec(cursor.bytes.as_slice());
    let json = match utf8_string(bytes) {
        Some(s) => s,
        None => {
            proof {
                assert forall|n: u64| cursor.bytes@ == #[trigger] cursor_bytes(n) implies false by {
                    vstd::utf8::encode_utf8_valid_utf8(json_number("offset"@, n));
                }
            }
            return Err(
                invalid_argument("cursor", "cursor payload is not valid UTF-8".to_owned(), false),
            );
        },
    };
    let field = json_u64_field(json.as_str(), "offset");
    proof {
        reveal_strlit("offset");
        assert(crate::codec::plain_name("offset"@));
        assert forall|n: u64| cursor.bytes@ == #[trigger] cursor_bytes(n) implies field == Some(
            Some(n),
        ) by {
            vstd::utf8::encode_utf8_decode_utf8(json_number("offset"@, n));
            assert(json@ == json_number("offset"@, n));
        }
    }
    offset_of(field)
}

/// Whether `all` lists every job of a client once, as it stands.
pub open spec fn lists(jobs: Map<u128, JobSlot>, client: Seq<char>, all: Seq<JobEntry>) -> bool {
    &&& forall|i: int|
        0 <= i < all.len() ==> jobs.contains_key((#[trigger] all[i]).id.raw)
            && jobs[all[i].id.raw].entry == all[i] && all[i].client_id@ == client
    &&& forall|i: int, j: int|
        0 <= i < j < all.len() ==> (#[trigger] all[i]).id != (#[trigger] all[j]).id
    &&& forall|id: u128| #[trigger]
        jobs.contains_key(id) && jobs[id].entry.client_id@ == client ==> has_id(all, id)
}

/// Whether a list holds a job.
pub open spec fn has_id(all: Seq<JobEntry>, id: u128) -> bool {
    exists|i: int| 0 <= i < all.len() && (#[trigger] all[i]).id.raw == id
}

/// Whether a job comes before another in a list: it was submitted earlier, or at the same
/// time with a smaller id.
pub open spec fn comes_before(a: JobEntry, b: JobEntry) -> bool {
    a.started_at < b.started_at || (a.started_at == b.started_at && a.id.raw < b.id.raw)
}

/// Whether a list is in order.
pub open spec fn oldest_first(all: Seq<JobEntry>) -> bool {
    forall|i: int, j: int|
        0 <= i < j < all.len() ==> comes_before(#[trigger] all[i], #[trigger] all[j])
}

/// The jobs of a client in order: the oldest first, and by id among those that were submitted
/// at the same time.
pub open spec fn listing(jobs: Map<u128, JobSlot>, client: Seq<char>) -> Seq<JobEntry> {
    choose|all: Seq<JobEntry>| lists(jobs, client, all) && oldest_first(all)
}

proof fn lemma_same_start(
    jobs: Map<u128, JobSlot>,
    client: Seq<char>,
    a: Seq<JobEntry>,
    b: Seq<JobEntry>,
    n: int,
)
    requires
        lists(jobs, client, a),
        lists(jobs, client, b),
        oldest_first(a),
        oldest_first(b),
        0 <= n <= a.len(),
    ensures
        n <= b.len(),
        a.take(n) == b.take(n),
    decreases n,
{
    if n > 0 {
        lemma_same_start(jobs, client, a, b, n - 1);
        let x = a[n - 1];
        assert forall|i: int| 0 <= i < n - 1 implies a[i] == b[i] by {
            assert(a.take(n - 1)[i] == b.take(n - 1)[i]);
        }
        assert(has_id(b, x.id.raw));
        let j = choose|j: int| 0 <= j < b.len() && (#[trigger] b[j]).id.raw == x.id.raw;
        assert(b[j] == x);
        if j < n - 1 {
            assert(a[j] == x);
        }
        if j > n - 1 {
            let y = b[n - 1];
            assert(has_id(a, y.id.raw));
            let k = choose|k: int| 0 <= k < a.len() && (#[trigger] a[k]).id.raw == y.id.raw;
            assert(a[k] == y);
            assert(comes_before(y, x));
            if k < n - 1 {
                assert(b[k] == y);
            } else if k > n - 1 {
                assert(comes_before(x, y));
            }
        }
        assert(a.take(n) =~= b.take(n));
    }
}

/// There is one list of a client's jobs in order.
pub proof fn listings_are_unique(jobs: Map<u128, JobSlot>, client: Seq<char>, all: Seq<JobEntry>)
    requires
        lists(jobs, client, all),
        oldest_first(all),
    ensures
        all == listing(jobs, client),
{
    let other = listing(jobs, client);
    assert(lists(jobs, client, other) && oldest_first(other));
    lemma_same_start(jobs, client, all, other, all.len() as int);
    lemma_same_start(jobs, client, other, all, other.len() as int);
    assert(all.take(all.len() as int) =~= all);
    assert(other.take(other.len() as int) =~= other);
}

/// The page of a list that starts at `offset`.
pub open spec fn page_at(all: Seq<JobEntry>, offset: int) -> Seq<JobEntry> {
    window(all, offset, LIST_PAGE_SIZE as int)
}

/// Files an entry behind those that come before it.
fn file_entry(all: &mut Vec<JobEntry>, e: JobEntry) -> (at: usize)
    requires
        oldest_first(old(all)@),
        forall|j: int| 0 <= j < old(all)@.len() ==> (#[trigger] old(all)@[j]).id != e.id,
    ensures
        at <= old(all)@.len(),
        final(all)@ == old(all)@.insert(at as int, e),
        oldest_first(final(all)@),
{
    let mut at: usize = 0;
    while at < all.len() && (all[at].started_at < e.started_at || (all[at].started_at
        == e.started_at && all[at].id.raw < e.id.raw))
        invariant
            at <= all@.len(),
            all@ == old(all)@,
            forall|j: int| 0 <= j < at ==> comes_before(#[trigger] all@[j], e),
        decreases all@.len() - at,
    {
        at = at + 1;
    }
    let ghost before = all@;
    all.insert(at, e);
    proof {
        let after = all@;
        assert forall|i: int, j: int| 0 <= i < j < after.len() implies comes_before(
            #[trigger] after[i],
            #[trigger] after[j],
        ) by {
            if i < at {
                assert(after[i] == before[i]);
            } else if i > at {
                assert(after[i] == before[i - 1]);
            }
            if j < at {
                assert(after[j] == before[j]);
            } else if j > at {
                assert(after[j] == before[j - 1]);
                if i == at {
                    assert(before[at as int].id != e.id);
                    assert(comes_before(e, before[at as int]));
                    if j - 1 > at {
                        assert(comes_before(before[at as int], before[j - 1]));
                    }
                }
            }
        }
    }
    at
}

impl InMemoryJobRegistry {
    /// The jobs of a client, oldest first.
    fn client_entries(&self, client: &str) -> (all: Vec<JobEntry>)
        requires
            self.wf(),
        ensures
            all@ == listing(self@.jobs, client@),
            lists(self@.jobs, client@, all@),
            oldest_first(all@),
    {
        let ids = jobs_ids(&self.jobs);
        let ghost jobs = self@.jobs;
        let mut all: Vec<JobEntry> = Vec::new();
        let mut i: usize = 0;
        while i < ids.len()
            invariant
                i <= ids@.len(),
                self.wf(),
                jobs == self@.jobs,
                ids@.no_duplicates(),
                ids@.to_set() == jobs.dom(),
                oldest_first(all@),
                forall|k: int|
                    0 <= k < all@.len() ==> jobs.contains_key((#[trigger] all@[k]).id.raw)
                        && jobs[all@[k].id.raw].entry == all@[k] && all@[k].client_id@ == client@
                        && ids@.take(i as int).contains(all@[k].id.raw),
                forall|a: int, b: int|
                    0 <= a < b < all@.len() ==> (#[trigger] all@[a]).id != (#[trigger] all@[b]).id,
                forall|k: int|
                    0 <= k < i ==> (jobs[#[trigger] ids@[k]].entry.client_id@ == client@ ==> has_id(
                        all@,
                        ids@[k],
                    )),
            decreases ids@.len() - i,
        {
            let id: u128 = ids[i];
            let ghost before = all@;
            proof {
                assert(ids@.to_set().contains(id));
                assert(ids@.take(i + 1) =~= ids@.take(i as int).push(id));
                assert(!ids@.take(i as int).contains(id));
                assert(ids@.take(i + 1)[i as int] == id);
                assert forall|x: u128| ids@.take(i as int).contains(x) implies ids@.take(
                    i + 1,
                ).contains(x) by {
                    let k = choose|k: int|
                        0 <= k < ids@.take(i as int).len() && ids@.take(i as int)[k] == x;
                    assert(ids@.take(i + 1)[k] == x);
                }
            }
            match jobs_get(&self.jobs, id) {
                Some(slot) => {
                    if text::same_text(slot.entry.client_id.as_str(), client) {
                        let e = slot.snapshot();
                        let ghost e0 = e;
                        assert forall|k: int| 0 <= k < all@.len() implies (#[trigger] all@[k]).id
                            != e.id by {
                            assert(ids@.take(i as int).contains(all@[k].id.raw));
                        }
                        let at = file_entry(&mut all, e);
                        proof {
                            let after = all@;
                            assert(after[at as int] == e0);
                            assert(e0.id.raw == id);
                            assert forall|k: int| 0 <= k < after.len() implies jobs.contains_key(
                                (#[trigger] after[k]).id.raw,
                            ) && jobs[after[k].id.raw].entry == after[k] && after[k].client_id@
                                == client@ && ids@.take(i + 1).contains(after[k].id.raw) by {
                                if k < at {
                                    assert(after[k] == before[k]);
                                } else if k > at {
                                    assert(after[k] == before[k - 1]);
                                }
                            }
                            assert forall|a: int, b: int| 0 <= a < b < after.len() implies (
                            #[trigger] after[a]).id != (#[trigger] after[b]).id by {
                                if a < at {
                                    assert(after[a] == before[a]);
                                } else if a > at {
                                    assert(after[a] == before[a - 1]);
                                }
                                if b < at {
                                    assert(after[b] == before[b]);
                                } else if b > at {
                                    assert(after[b] == before[b - 1]);
                                }
                            }
                            assert forall|x: u128| has_id(before, x) implies has_id(after, x) by {
                                let k = choose|k: int|
                                    0 <= k < before.len() && (#[trigger] before[k]).id.raw == x;
                                if k < at {
                                    assert(after[k] == before[k]);
                                } else {
                                    assert(after[k + 1] == before[k]);
                                }
                            }
                            assert(has_id(after, id));
                        }
                    }
                },
                None => {},
            }
            i = i + 1;
        }
        proof {
            assert forall|id: u128| #[trigger]
                jobs.contains_key(id) && jobs[id].entry.client_id@ == client@ implies has_id(
                all@,
                id,
            ) by {
                assert(ids@.to_set().contains(id));
                let k = choose|k: int| 0 <= k < ids@.len() && ids@[k] == id;
                assert(has_id(all@, ids@[k]));
            }
            listings_are_unique(jobs, client@, all@);
        }
        all
    }

    /// One page of a client's jobs, oldest first, and by id among those that were submitted
    /// at the same time.
    pub fn list(&self, client: &str, cursor: Option<PageCursor>) -> (r: Result<
        JobPage,
        SubstrateError,
    >)
        requires
            self.wf(),
        ensures
            ({
                let start = match cursor {
                    Some(c) => cursor_offset(c.bytes@),
                    None => Ok(0),
                };
                match start {
                    Err(e) => r matches Err(x) && x@ == e,
                    Ok(offset) => {
                        let all = listing(self@.jobs, client@);
                        &&& r matches Ok(page)
                        &&& lists(self@.jobs, client@, all)
                        &&& oldest_first(all)
                        &&& page.jobs@ == page_at(all, offset as int)
                        &&& page.next_cursor is Some <==> offset + LIST_PAGE_SIZE < all.len()
                        &&& page.next_cursor matches Some(c) ==> c.bytes@ == cursor_bytes(
                            (offset + LIST_PAGE_SIZE) as u64,
                        )
                    },
                }
            }),
            r matches Ok(page) ==> {
                &&& page.jobs@.len() <= 50
                &&& page.next_cursor is Some ==> page.jobs@.len() == 50
                &&& forall|i: int|
                    0 <= i < page.jobs@.len() ==> {
                        let e = #[trigger] page.jobs@[i];
                        &&& self@.jobs.contains_key(e.id.raw)
                        &&& self@.jobs[e.id.raw].entry == e
                        &&& e.client_id@ == client@
                    }
                &&& forall|i: int, j: int|
                    0 <= i < j < page.jobs@.len() ==> {
                        let a = #[trigger] page.jobs@[i];
                        let b = #[trigger] page.jobs@[j];
                        a.started_at < b.started_at || (a.started_at == b.started_at && a.id.raw
                            < b.id.raw)
                    }
                &&& cursor is None && page.next_cursor is None ==> forall|id: u128| #[trigger]
                    self@.jobs.contains_key(id) && self@.jobs[id].entry.client_id@ == client@
                        ==> exists|i: int|
                        0 <= i < page.jobs@.len() && (#[trigger] page.jobs@[i]).id.raw == id
            },
    {
        let offset: u64 = match cursor {
            Some(c) => match decode_cursor(&c) {
                Ok(n) => n,
                Err(e) => {
                    return Err(e);
                },
            },
            None => 0,
        };
        let mut all = self.client_entries(client);
        let ghost listed = all@;
        let total: usize = all.len();
        if offset >= total as u64 {
            let page = JobPage { jobs: Vec::new(), next_cursor: None };
            proof {
                assert(page.jobs@ =~= page_at(listed, offset as int));
                if cursor is None {
                    assert forall|id: u128| #[trigger]
                        self@.jobs.contains_key(id) && self@.jobs[id].entry.client_id@
                            == client@ implies exists|i: int|
                        0 <= i < page.jobs@.len() && (#[trigger] page.jobs@[i]).id.raw == id by {
                        assert(has_id(listed, id));
                    }
                }
            }
            return Ok(page);
        }
        let start: usize = offset as usize;
        let mut jobs = all.split_off(start);
        let next_cursor = if total - start > LIST_PAGE_SIZE {
            jobs.truncate(LIST_PAGE_SIZE);
            Some(encode_cursor(offset + LIST_PAGE_SIZE as u64))
        } else {
            None
        };
        proof {
            assert(jobs@ =~= page_at(listed, offset as int));
            assert forall|i: int| 0 <= i < jobs@.len() implies #[trigger] jobs@[i] == listed[start
                + i] by {}
            assert forall|i: int, j: int| 0 <= i < j < jobs@.len() implies comes_before(
                #[trigger] jobs@[i],
                #[trigger] jobs@[j],
            ) by {
                assert(comes_before(listed[start + i], listed[start + j]));
            }
            if cursor is None && next_cursor is None {
                assert(jobs@ =~= listed);
                assert forall|id: u128| #[trigger]
                    self@.jobs.contains_key(id) && self@.jobs[id].entry.client_id@
                        == client@ implies exists|i: int|
                    0 <= i < jobs@.len() && (#[trigger] jobs@[i]).id.raw == id by {
                    assert(has_id(listed, id));
                }
            }
        }
        Ok(JobPage { jobs, next_cursor })
    }
}

// ---- What holds of the registry ----------------------------------------------

/// A submission with a key finds its job again: as long as the job is there and its key is
/// filed, a submission by the same client, with the same tool, key and arguments, leads to
/// the same job. Right after the first submission both hold.
pub proof fn resubmission_finds_the_job(
    v: RegistryView,
    after: RegistryView,
    later: RegistryView,
    first: JobSubmitRequest,
    again: JobSubmitRequest,
    id: u128,
    now: u64,
)
    requires
        newly_filed(v, after, first, id, now),
        first.idempotency_key is Some,
        again.idempotency_key is Some,
        again.client_id@ == first.client_id@,
        again.tool@ == first.tool@,
        again.idempotency_key->0@ == first.idempotency_key->0@,
        again.args_json@ == first.args_json@,
    ensures
        already_submitted(after, dedup_key(again, args_digest(again))),
        after.index[dedup_key(again, args_digest(again))->0] == id,
        later.jobs.contains_key(id) && later.index.contains_pair(
            dedup_key(first, args_digest(first))->0,
            id,
        ) ==> already_submitted(later, dedup_key(again, args_digest(again)))
            && later.index[dedup_key(again, args_digest(again))->0] == id,
{
}

/// A submission leads to the job of another only with the same client, tool and key and
/// the same digest of the arguments: one that differs finds another job or files a new one.
pub proof fn other_submissions_get_other_jobs(
    v: RegistryView,
    after: RegistryView,
    filed: KeyView,
    other: JobSubmitRequest,
    id: u128,
    now: u64,
)
    requires
        v.wf(),
        v.index.contains_key(filed),
        other.client_id@ != filed.0 || other.tool@ != filed.1 || other.idempotency_key is None
            || other.idempotency_key->0@ != filed.2 || hex_text(args_digest(other)).take(
            ARGS_HASH_LEN as int,
        ) != filed.3,
    ensures
        already_submitted(v, dedup_key(other, args_digest(other))) ==> v.index[dedup_key(
            other,
            args_digest(other),
        )->0] != v.index[filed],
        newly_filed(v, after, other, id, now) ==> id != v.index[filed],
{
    assert(v.leads(filed));
}

/// A key leads to its job as long as the job is there: neither the submission of another
/// job nor the removal of others makes it lead elsewhere.
pub proof fn keys_stay_with_their_jobs(
    v: RegistryView,
    filed: RegistryView,
    swept: RegistryView,
    key: KeyView,
    other: JobSubmitRequest,
    id: u128,
    now: u64,
    ttl_secs: u64,
)
    requires
        v.wf(),
        v.index.contains_key(key),
        !already_submitted(v, dedup_key(other, args_digest(other))),
        newly_filed(v, filed, other, id, now),
        swept.jobs == v.jobs.remove_keys(expired_jobs(v.jobs, now, ttl_secs)),
        swept.index == v.index.restrict(
            Set::new(
                |k: KeyView|
                    v.index.contains_key(k) && !expired_jobs(v.jobs, now, ttl_secs).contains(
                        v.index[k],
                    ),
            ),
        ),
    ensures
        filed.index.contains_pair(key, v.index[key]),
        swept.jobs.contains_key(v.index[key]) ==> swept.index.contains_pair(key, v.index[key]),
{
    assert(v.leads(key));
}

/// A job that ended leaves room: once it has, neither the quota of all jobs nor that of its
/// client is used up, so that no submission of the client is refused for a quota.
pub proof fn ended_jobs_leave_room(
    v: RegistryView,
    after: RegistryView,
    quotas: JobQuotas,
    id: u128,
    ended: JobSlot,
)
    requires
        v.wf(),
        v.within(quotas),
        active_jobs(v.jobs).contains(id),
        after.wf(),
        after.jobs == v.jobs.insert(id, ended),
        ended.entry.state.terminal(),
        ended.entry.client_id == v.jobs[id].entry.client_id,
    ensures
        after.inflight == v.inflight - 1,
        after.count(ended.entry.client_id@) == v.count(ended.entry.client_id@) - 1,
        after.inflight < quotas.max_concurrent,
        after.count(ended.entry.client_id@) < quotas.max_per_client,
{
    let c = ended.entry.client_id@;
    lemma_active_after(v.jobs, id, ended);
    v.jobs.dom().lemma_len_filter(|i: u128| !v.jobs[i].entry.state.terminal());
    active_jobs(v.jobs).lemma_len_filter(|i: u128| v.jobs[i].entry.client_id@ == c);
    assert(client_active(v.jobs, c).contains(id));
    assert(v.count(c) == client_active(v.jobs, c).len());
    assert(after.count(c) == client_active(after.jobs, c).len());
    assert(v.count(c) <= quotas.max_per_client);
}

/// A job that was removed for its age can be submitted anew: no key leads to it any
/// more.
pub proof fn expired_jobs_can_be_resubmitted(
    v: RegistryView,
    after: RegistryView,
    key: KeyView,
    now: u64,
    ttl_secs: u64,
)
    requires
        v.index.contains_key(key),
        expired_jobs(v.jobs, now, ttl_secs).contains(v.index[key]),
        after.jobs == v.jobs.remove_keys(expired_jobs(v.jobs, now, ttl_secs)),
        after.index == v.index.restrict(
            Set::new(
                |k: KeyView|
                    v.index.contains_key(k) && !expired_jobs(v.jobs, now, ttl_secs).contains(
                        v.index[k],
                    ),
            ),
        ),
    ensures
        !after.jobs.contains_key(v.index[key]),
        !already_submitted(after, Some(key)),
{
}

/// A job that has not ended is never removed for its age.
pub proof fn active_jobs_are_kept(v: RegistryView, id: u128, now: u64, ttl_secs: u64)
    requires
        v.wf(),
        active_jobs(v.jobs).contains(id),
    ensures
        !expired_jobs(v.jobs, now, ttl_secs).contains(id),
{
}

/// The pages of an unchanged registry together hold every job of a client once, the oldest
/// first: following the cursors comes to an end, the pages one after the other are the list,
/// every page but the last is full, and the last is not over-full.
pub proof fn job_pages_tile(jobs: Map<u128, JobSlot>, client: Seq<char>, requests: nat)
    requires
        requests > listing(jobs, client).len(),
    ensures
        ({
            let pages = windows(listing(jobs, client), 0, LIST_PAGE_SIZE as int, requests);
            &&& pages.flatten() == listing(jobs, client)
            &&& pages.last().len() <= LIST_PAGE_SIZE
            &&& forall|i: int|
                0 <= i < pages.len() - 1 ==> (#[trigger] pages[i]).len() == LIST_PAGE_SIZE
        }),
{
    let all = listing(jobs, client);
    windows_tile(all, 0, LIST_PAGE_SIZE as int, requests);
    assert(all.skip(0) =~= all);
}

/// Two submissions share a key just where they come from one client, for one tool, under one key of
/// the client's own, and their arguments have one digest, as far as it is compared.
pub proof fn keys_tell_submissions_apart(
    a: JobSubmitRequest,
    x: Seq<u8>,
    b: JobSubmitRequest,
    y: Seq<u8>,
)
    requires
        a.idempotency_key is Some,
        b.idempotency_key is Some,
    ensures
        dedup_key(a, x) is Some,
        dedup_key(a, x) == dedup_key(b, y) <==> {
            &&& a.client_id@ == b.client_id@
            &&& a.tool@ == b.tool@
            &&& a.idempotency_key->0@ == b.idempotency_key->0@
            &&& hex_text(x).take(32) == hex_text(y).take(32)
        },
{
}

/// A submission without a key of the client's own is never taken for an earlier one.
pub proof fn unkeyed_submissions_are_new(v: RegistryView, req: JobSubmitRequest, digest: Seq<u8>)
    requires
        req.idempotency_key is None,
    ensures
        !already_submitted(v, dedup_key(req, digest)),
{
}

/// Arguments that JSON reads alike count as the same, however they are written; what is no JSON is
/// compared as it stands.
pub proof fn equal_arguments_have_one_digest(a: JobSubmitRequest, b: JobSubmitRequest)
    ensures
        json_canonical(a.args_json@) is Some && json_canonical(a.args_json@) == json_canonical(
            b.args_json@,
        ) ==> args_digest(a) == args_digest(b),
        a.args_json@ == b.args_json@ ==> args_digest(a) == args_digest(b),
        json_canonical(a.args_json@) is None ==> args_digest(a) == blake3_digest(
            encode_utf8(a.args_json@),
        ),
        json_canonical(a.args_json@) matches Some(shown) ==> args_digest(a) == blake3_digest(
            encode_utf8(shown),
        ),
{
}

/// A job counts against the limits while it is pending or running, and against those of its own
/// client only.
pub proof fn pending_and_running_jobs_count(
    jobs: Map<u128, JobSlot>,
    id: u128,
    client: Seq<char>,
)
    ensures
        active_jobs(jobs).contains(id) <==> jobs.contains_key(id) && (jobs[id].entry.state
            == JobState::Pending || jobs[id].entry.state == JobState::Running),
        client_active(jobs, client).contains(id) <==> active_jobs(jobs).contains(id)
            && jobs[id].entry.client_id@ == client,
{
}

/// Jobs are listed by when they were submitted, and by id among those of one moment.
pub proof fn older_jobs_come_first(a: JobEntry, b: JobEntry)
    ensures
        a.started_at < b.started_at ==> comes_before(a, b) && !comes_before(b, a),
        a.started_at == b.started_at && a.id.raw < b.id.raw ==> comes_before(a, b) && !comes_before(
            b,
            a,
        ),
        !comes_before(a, a),
{
}

/// A job expires just where it ended longer ago than ended jobs are kept.
pub proof fn only_ended_jobs_expire(
    jobs: Map<u128, JobSlot>,
    id: u128,
    now: u64,
    ttl_secs: u64,
)
    ensures
        expired_jobs(jobs, now, ttl_secs).contains(id) <==> jobs.contains_key(id) && (
        jobs[id].entry.terminal_at matches Some(t) && now - t > ttl_secs * 1_000_000_000),
{
}

/// What a job came to is handed out as that: its value as it is, its cancellation and its running
/// out of time as such, and its failure with the code of the error and the words that were shown.
pub proof fn results_are_handed_out_as_they_are(r: JobResult, copy: JobResult)
    requires
        handed_out(r, copy),
    ensures
        r.end_state() == copy.end_state(),
        r matches JobResult::Succeeded(v) ==> copy == JobResult::Succeeded(v),
        r is Cancelled <==> copy is Cancelled,
        r is TimedOut <==> copy is TimedOut,
        r matches JobResult::Failed { error, shown } ==> copy matches JobResult::Failed {
            error: e,
            shown: s,
        } && s == shown && e@ == (ErrorView::InternalError {
            reason: "["@ + error@.code() + ("] "@ + shown@),
            tagged: error.tag() is Some,
        }),
{
}

} // verus!
