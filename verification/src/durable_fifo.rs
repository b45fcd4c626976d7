//! Durable FIFO state: two replicas with a revision, and the renderer-owner claim.
//!
//! The decisions live here: validating a state, choosing between replicas,
//! deciding whether a replica needs repair, and deciding an owner claim. Reading
//! and publishing the replica files is done by the caller.
use vstd::prelude::*;
use crate::text::{str_eq, concat_str, u64_text_string, nat_digits};

verus! {

pub const DURABLE_FIFO_VERSION: u8 = 1;
pub const DURABLE_OWNER_VERSION: u8 = 1;

/// Domain payload stored in a FIFO.
pub trait DurableFifoEntry: Sized {
    /// The entry's id.
    spec fn spec_fifo_id(&self) -> Seq<char>;

    fn durable_fifo_id(&self) -> (r: &str)
        ensures
            r@ == self.spec_fifo_id();

    /// The entry belongs to `scope`.
    spec fn spec_valid_for(&self, scope: Seq<char>) -> bool;

    fn validate_for_scope(&self, scope: &str) -> (r: Result<(), String>)
        ensures
            r is Ok <==> self.spec_valid_for(scope@);

    /// The entry once moved from `old_scope` to `new_scope`.
    spec fn relocated(&self, old_scope: Seq<char>, new_scope: Seq<char>) -> Self;

    fn relocate(&mut self, old_scope: &str, new_scope: &str)
        ensures
            *final(self) == old(self).relocated(old_scope@, new_scope@);
}

/// Every batch moved from `old_scope` to `new_scope`.
pub open spec fn relocated_all<T: DurableFifoEntry>(b: Seq<T>, old_scope: Seq<char>, new_scope: Seq<char>) -> Seq<T> {
    Seq::new(b.len(), |i: int| b[i].relocated(old_scope, new_scope))
}

pub struct DurableFifoLayout {
    pub primary_file: String,
    pub recovery_file: String,
    pub lock_file: String,
    pub owner_file: String,
    pub owner_recovery_file: String,
}

impl Default for DurableFifoLayout {
    fn default() -> (r: Self)
        ensures
            r.primary_file@ == "active.json"@,
            r.recovery_file@ == ".active.recovery.json"@,
            r.lock_file@ == "operation.lock"@,
            r.owner_file@ == "renderer-owner.json"@,
            r.owner_recovery_file@ == ".renderer-owner.recovery.json"@,
    {
        DurableFifoLayout {
            primary_file: "active.json".to_owned(),
            recovery_file: ".active.recovery.json".to_owned(),
            lock_file: "operation.lock".to_owned(),
            owner_file: "renderer-owner.json".to_owned(),
            owner_recovery_file: ".renderer-owner.recovery.json".to_owned(),
        }
    }
}

pub struct DurableFifoState<T> {
    pub version: u8,
    pub scope: String,
    pub revision: u64,
    pub batches: Vec<T>,
    pub updated_unix_ms: u128,
}

impl<T> DurableFifoState<T> {
    /// An empty queue at revision 0 for `scope` (already normalized by the caller).
    pub fn empty(scope: &str, now_unix_ms: u128) -> (r: Self)
        ensures
            r.version == DURABLE_FIFO_VERSION,
            r.scope@ == scope@,
            r.revision == 0,
            r.batches@.len() == 0,
            r.updated_unix_ms == now_unix_ms,
    {
        DurableFifoState {
            version: DURABLE_FIFO_VERSION,
            scope: scope.to_owned(),
            revision: 0,
            batches: Vec::new(),
            updated_unix_ms: now_unix_ms,
        }
    }
}

/// State decoded from a domain's former active format.
pub struct LegacyFifoState<T> {
    pub scope: String,
    pub revision: u64,
    pub batches: Vec<T>,
    pub updated_unix_ms: u128,
}

/// The current-format state of a decoded legacy state.
pub fn migrate_legacy<T>(legacy: LegacyFifoState<T>) -> (r: DurableFifoState<T>)
    ensures
        r.version == DURABLE_FIFO_VERSION,
        r.scope == legacy.scope,
        r.revision == legacy.revision,
        r.batches == legacy.batches,
        r.updated_unix_ms == legacy.updated_unix_ms,
{
    DurableFifoState {
        version: DURABLE_FIFO_VERSION,
        scope: legacy.scope,
        revision: legacy.revision,
        batches: legacy.batches,
        updated_unix_ms: legacy.updated_unix_ms,
    }
}

pub open spec fn ids_of<T: DurableFifoEntry>(b: Seq<T>) -> Seq<Seq<char>> {
    b.map_values(|x: T| x.spec_fifo_id())
}

/// Ids are non-empty and pairwise distinct.
pub open spec fn ids_ok(ids: Seq<Seq<char>>) -> bool {
    &&& forall|i: int| 0 <= i < ids.len() ==> (#[trigger] ids[i]).len() > 0
    &&& forall|i: int, j: int| 0 <= i < j < ids.len() ==> #[trigger] ids[i] != #[trigger] ids[j]
}

/// Batch `k` passes validation: its id is non-empty, differs from every earlier
/// id, and the entry accepts `scope`.
pub open spec fn batch_passes<T: DurableFifoEntry>(b: Seq<T>, k: int, scope: Seq<char>) -> bool {
    &&& ids_of(b)[k].len() > 0
    &&& forall|j: int| 0 <= j < k ==> ids_of(b)[j] != ids_of(b)[k]
    &&& b[k].spec_valid_for(scope)
}

/// Batch `k` is the first batch that does not pass.
pub open spec fn fails_first_at<T: DurableFifoEntry>(b: Seq<T>, scope: Seq<char>, k: int) -> bool {
    &&& 0 <= k < b.len()
    &&& forall|j: int| 0 <= j < k ==> #[trigger] batch_passes(b, j, scope)
    &&& !batch_passes(b, k, scope)
}

/// Structural checks of a state for `scope`: version, scope, then for each
/// batch in order a non-empty id, an id not seen before, and the entry's own
/// scope check. The first failing check gives the error.
pub fn validate_state<T: DurableFifoEntry>(state: &DurableFifoState<T>, scope: &str) -> (r: Result<(), String>)
    ensures
        r is Ok <==> (state.version == DURABLE_FIFO_VERSION && state.scope@ == scope@
            && forall|k: int| 0 <= k < state.batches@.len() ==> #[trigger] batch_passes(state.batches@, k, scope@)),
        r is Ok ==> ids_ok(ids_of(state.batches@)),
        state.version != DURABLE_FIFO_VERSION ==> (r matches Err(e)
            && e@ == "unsupported durable FIFO version "@ + nat_digits(state.version as nat)),
        (state.version == DURABLE_FIFO_VERSION && state.scope@ != scope@) ==> (
            r matches Err(e) && e@ == "durable FIFO scope "@ + state.scope@ + " does not match "@ + scope@),
        forall|k: int| state.version == DURABLE_FIFO_VERSION && state.scope@ == scope@
            && #[trigger] fails_first_at(state.batches@, scope@, k) ==> (
            if ids_of(state.batches@)[k].len() == 0 {
                r matches Err(e) && e@ == "durable FIFO batch id is empty"@
            } else if exists|j: int| 0 <= j < k && ids_of(state.batches@)[j] == ids_of(state.batches@)[k] {
                r matches Err(e) && e@ == "durable FIFO contains duplicate batch "@ + ids_of(state.batches@)[k]
            } else {
                r is Err
            }),
{
    if state.version != DURABLE_FIFO_VERSION {
        let v = u64_text_string(state.version as u128);
        return Err(concat_str("unsupported durable FIFO version ", v.as_str()));
    }
    if !str_eq(state.scope.as_str(), scope) {
        let mut m = concat_str("durable FIFO scope ", state.scope.as_str());
        m = concat_str(m.as_str(), " does not match ");
        return Err(concat_str(m.as_str(), scope));
    }
    let ghost b = state.batches@;
    let ghost ids = ids_of(b);
    let mut i: usize = 0;
    while i < state.batches.len()
        invariant
            i <= b.len(),
            b == state.batches@,
            ids == ids_of(b),
            state.version == DURABLE_FIFO_VERSION,
            state.scope@ == scope@,
            forall|a: int| 0 <= a < i ==> #[trigger] batch_passes(b, a, scope@),
        decreases b.len() - i,
    {
        let id = state.batches[i].durable_fifo_id();
        if id.is_empty() {
            proof { lemma_first_failure(b, scope@, i as int); }
            return Err("durable FIFO batch id is empty".to_owned());
        }
        let mut j: usize = 0;
        while j < i
            invariant
                j <= i,
                i < b.len(),
                b == state.batches@,
                ids == ids_of(b),
                id@ == ids[i as int],
                id@.len() > 0,
                state.version == DURABLE_FIFO_VERSION,
                state.scope@ == scope@,
                forall|a: int| 0 <= a < i ==> #[trigger] batch_passes(b, a, scope@),
                forall|a: int| 0 <= a < j ==> ids[a] != ids[i as int],
            decreases i - j,
        {
            if str_eq(state.batches[j].durable_fifo_id(), id) {
                let mut m = "durable FIFO contains duplicate batch ".to_owned();
                m.append(id);
                proof {
                    assert(ids[j as int] == ids[i as int]);
                    lemma_first_failure(b, scope@, i as int);
                }
                return Err(m);
            }
            j = j + 1;
        }
        match state.batches[i].validate_for_scope(scope) {
            Ok(()) => {},
            Err(e) => {
                proof { lemma_first_failure(b, scope@, i as int); }
                return Err(e);
            },
        }
        i = i + 1;
    }
    proof { lemma_passing_ids_ok(b, scope@); }
    Ok(())
}

/// When every batch before `i` passes and batch `i` does not, `i` is the only
/// index at which the batches first fail.
proof fn lemma_first_failure<T: DurableFifoEntry>(b: Seq<T>, scope: Seq<char>, i: int)
    requires
        0 <= i < b.len(),
        forall|a: int| 0 <= a < i ==> #[trigger] batch_passes(b, a, scope),
        !batch_passes(b, i, scope),
    ensures
        fails_first_at(b, scope, i),
        forall|k: int| #[trigger] fails_first_at(b, scope, k) ==> k == i,
{
    assert forall|k: int| #[trigger] fails_first_at(b, scope, k) implies k == i by {
        if k < i {
            assert(batch_passes(b, k, scope));
        } else if k > i {
            assert(batch_passes(b, i, scope));
        }
    }
}

/// Batches that all pass have non-empty, pairwise distinct ids.
proof fn lemma_passing_ids_ok<T: DurableFifoEntry>(b: Seq<T>, scope: Seq<char>)
    requires
        forall|k: int| 0 <= k < b.len() ==> #[trigger] batch_passes(b, k, scope),
    ensures
        ids_ok(ids_of(b)),
{
    let ids = ids_of(b);
    assert forall|i: int| 0 <= i < ids.len() implies (#[trigger] ids[i]).len() > 0 by {
        assert(batch_passes(b, i, scope));
    }
    assert forall|i: int, j: int| 0 <= i < j < ids.len() implies #[trigger] ids[i] != #[trigger] ids[j] by {
        assert(batch_passes(b, j, scope));
    }
}

/// What was read from one replica file.
pub struct Replica<S> {
    /// The file exists.
    pub exists: bool,
    /// The valid state it holds, if any.
    pub state: Option<S>,
    /// It was read from a former format or another scope and must be republished.
    pub migrated: bool,
    /// Why an existing file holds no valid state.
    pub error: Option<String>,
}


/// The replica that a state parsed from a file gives for `scope`: refused
/// when its version is not the current one, then when its scope is empty;
/// moved to `scope` (each entry relocated, and the replica marked for
/// republishing) when it belongs elsewhere; then checked by
/// `validate_state`, whose error marks the replica invalid.
pub fn settle_replica<T: DurableFifoEntry>(state: DurableFifoState<T>, scope: &str, migrated: bool)
    -> (r: Replica<DurableFifoState<T>>)
    ensures
        r.exists,
        r.state is Some <==> r.error is None,
        r.state is None ==> !r.migrated,
        state.version != DURABLE_FIFO_VERSION ==> (r.state is None
            && (r.error matches Some(e) && e@ == "unsupported durable FIFO version "@ + nat_digits(state.version as nat))),
        (state.version == DURABLE_FIFO_VERSION && state.scope@.len() == 0) ==> (r.state is None
            && (r.error matches Some(e) && e@ == "durable FIFO scope is empty"@)),
        r.state matches Some(s) ==> (
            s.version == DURABLE_FIFO_VERSION && s.scope@ == scope@ && s.revision == state.revision
            && s.updated_unix_ms == state.updated_unix_ms && s.batches@.len() == state.batches@.len()
            && (forall|k: int| 0 <= k < s.batches@.len() ==> #[trigger] batch_passes(s.batches@, k, scope@))
            && r.migrated == (migrated || state.scope@ != scope@)
        ),
        (state.scope@.len() > 0 && state.scope@ == scope@) ==> (
            (r.state is Some <==> (state.version == DURABLE_FIFO_VERSION
                && forall|k: int| 0 <= k < state.batches@.len() ==> #[trigger] batch_passes(state.batches@, k, scope@)))
            && (r.state matches Some(s) ==> s == state)
        ),
        (state.scope@.len() > 0 && state.scope@ != scope@) ==> (
            (r.state is Some <==> (state.version == DURABLE_FIFO_VERSION
                && forall|k: int| 0 <= k < state.batches@.len()
                    ==> #[trigger] batch_passes(relocated_all(state.batches@, state.scope@, scope@), k, scope@)))
            && (r.state matches Some(s) ==> s.batches@ == relocated_all(state.batches@, state.scope@, scope@))
        ),
{
    if state.version != DURABLE_FIFO_VERSION {
        let v = u64_text_string(state.version as u128);
        return Replica { exists: true, state: None, migrated: false,
            error: Some(concat_str("unsupported durable FIFO version ", v.as_str())) };
    }
    if state.scope.unicode_len() == 0 {
        return Replica { exists: true, state: None, migrated: false, error: Some("durable FIFO scope is empty".to_owned()) };
    }
    let ghost rev = state.revision;
    let ghost ms = state.updated_unix_ms;
    let ghost orig = state.batches@;
    let ghost from = state.scope@;
    let mut state = state;
    let mut migrated = migrated;
    if !str_eq(state.scope.as_str(), scope) {
        let old_scope = state.scope.as_str().to_owned();
        let n = state.batches.len();
        let ghost moved = relocated_all(orig, from, scope@);
        let mut i: usize = 0;
        while i < n
            invariant
                n == state.batches@.len(),
                n == orig.len(),
                i <= n,
                old_scope@ == from,
                moved == relocated_all(orig, from, scope@),
                state.batches@ == moved.subrange(0, i as int) + orig.subrange(i as int, n as int),
                state.version == DURABLE_FIFO_VERSION,
                state.revision == rev,
                state.updated_unix_ms == ms,
            decreases n - i,
        {
            let ghost before = state.batches@;
            let mut b = state.batches.remove(i);
            assert(b == orig[i as int]);
            b.relocate(old_scope.as_str(), scope);
            state.batches.insert(i, b);
            assert(state.batches@ =~= moved.subrange(0, i + 1) + orig.subrange(i + 1, n as int));
            i = i + 1;
        }
        assert(state.batches@ =~= moved);
        state.scope = scope.to_owned();
        migrated = true;
    }
    match validate_state(&state, scope) {
        Ok(()) => Replica { exists: true, state: Some(state), migrated, error: None },
        Err(e) => Replica { exists: true, state: None, migrated: false, error: Some(e) },
    }
}

/// Outcome of choosing between two replicas.
pub enum ReplicaChoice {
    /// Neither file exists.
    Absent,
    /// Replica `index` holds the newest valid state; `repair` asks to republish both.
    Selected { index: usize, repair: bool },
}

/// Index of the replica whose revision is selected: the higher revision, the
/// second on a tie (the order of a stable sort by revision).
pub open spec fn newest(r0: Option<u64>, r1: Option<u64>) -> Option<int> {
    match (r0, r1) {
        (None, None) => None,
        (Some(_), None) => Some(0),
        (None, Some(_)) => Some(1),
        (Some(a), Some(b)) => if a > b { Some(0) } else { Some(1) },
    }
}

/// The replicas' read errors joined with ` | `.
pub open spec fn error_details(errors: [Option<&str>; 2]) -> Seq<char> {
    match (errors[0], errors[1]) {
        (Some(a), Some(b)) => a@ + " | "@ + b@,
        (Some(a), None) => a@,
        (None, Some(b)) => b@,
        (None, None) => Seq::empty(),
    }
}

/// The error when both replica files exist and neither holds a valid state.
pub open spec fn invalid_replicas_message(directory: Seq<char>, errors: [Option<&str>; 2]) -> Seq<char> {
    "both durable FIFO replicas are invalid in "@ + directory
        + if error_details(errors).len() == 0 { Seq::empty() } else { ": "@ + error_details(errors) }
}

/// The error when both replicas are valid at one revision and differ.
pub open spec fn disagree_message(revision: u64, directory: Seq<char>) -> Seq<char> {
    "durable FIFO replicas disagree at revision "@ + nat_digits(revision as nat) + " in "@ + directory
}

/// Chooses between two replicas of `directory` given their revisions, whether
/// the two valid states are equal, and the read errors of the replicas. Errors:
/// both files exist but neither is valid, or both are valid at one revision
/// and differ.
pub fn choose_replica(
    exists: [bool; 2],
    revisions: [Option<u64>; 2],
    migrated: [bool; 2],
    states_equal: bool,
    directory: &str,
    errors: [Option<&str>; 2],
) -> (r: Result<ReplicaChoice, String>)
    ensures
        (revisions[0] is None && revisions[1] is None) ==> (
            (exists[0] || exists[1]) <==> r is Err
        ),
        (revisions[0] is None && revisions[1] is None && (exists[0] || exists[1])) ==> (
            r matches Err(e) && e@ == invalid_replicas_message(directory@, errors)),
        (revisions[0] is None && revisions[1] is None && !exists[0] && !exists[1]) ==> r matches Ok(ReplicaChoice::Absent),
        (revisions[0] is Some && revisions[1] is Some && revisions[0] == revisions[1] && !states_equal) ==> (
            r matches Err(e) && e@ == disagree_message(revisions[0].unwrap(), directory@)),
        (newest(revisions[0], revisions[1]) is Some && !(revisions[0] is Some && revisions[1] is Some
            && revisions[0] == revisions[1] && !states_equal)) ==> (
            r matches Ok(ReplicaChoice::Selected { index, repair }) && index == newest(revisions[0], revisions[1]).unwrap()
            && repair == (migrated[0] || migrated[1] || revisions[0] is None || revisions[1] is None || !states_equal)
        ),
{
    match (revisions[0], revisions[1]) {
        (None, None) => {
            if exists[0] || exists[1] {
                let details = match (errors[0], errors[1]) {
                    (Some(a), Some(b)) => concat_str(concat_str(a, " | ").as_str(), b),
                    (Some(a), None) => a.to_owned(),
                    (None, Some(b)) => b.to_owned(),
                    (None, None) => String::new(),
                };
                let head = concat_str("both durable FIFO replicas are invalid in ", directory);
                if details.unicode_len() == 0 {
                    proof { reveal_strlit(""); }
                    let e = String::new();
                    assert(head@ + e@ =~= head@);
                    Err(concat_str(head.as_str(), e.as_str()))
                } else {
                    Err(concat_str(head.as_str(), concat_str(": ", details.as_str()).as_str()))
                }
            } else {
                Ok(ReplicaChoice::Absent)
            }
        },
        (Some(_), None) => Ok(ReplicaChoice::Selected { index: 0, repair: true }),
        (None, Some(_)) => Ok(ReplicaChoice::Selected { index: 1, repair: true }),
        (Some(a), Some(b)) => {
            if a == b && !states_equal {
                let mut m = concat_str("durable FIFO replicas disagree at revision ", u64_text_string(a as u128).as_str());
                m = concat_str(m.as_str(), " in ");
                Err(concat_str(m.as_str(), directory))
            } else {
                let index: usize = if a > b { 0 } else { 1 };
                Ok(ReplicaChoice::Selected { index, repair: migrated[0] || migrated[1] || !states_equal })
            }
        },
    }
}

/// The state as published by `persist`: current version, `scope`, next revision
/// (saturating), and the publication time.
pub fn prepare_persist<T>(state: &mut DurableFifoState<T>, scope: &str, now_unix_ms: u128)
    ensures
        final(state).version == DURABLE_FIFO_VERSION,
        final(state).scope@ == scope@,
        final(state).revision == (if old(state).revision < u64::MAX { (old(state).revision + 1) as u64 } else { u64::MAX }),
        final(state).batches == old(state).batches,
        final(state).updated_unix_ms == now_unix_ms,
{
    state.version = DURABLE_FIFO_VERSION;
    state.scope = scope.to_owned();
    state.revision = state.revision.saturating_add(1);
    state.updated_unix_ms = now_unix_ms;
}

pub struct DurableOwnerClaim {
    pub version: u8,
    pub scope: String,
    pub revision: u64,
    pub app_instance: String,
    pub process_id: u32,
    pub generation: u64,
    pub claim_id: String,
    pub updated_unix_ms: u128,
}

pub ghost struct OwnerClaimView {
    pub version: u8,
    pub scope: Seq<char>,
    pub revision: u64,
    pub app_instance: Seq<char>,
    pub process_id: u32,
    pub generation: u64,
    pub claim_id: Seq<char>,
    pub updated_unix_ms: u128,
}

impl View for DurableOwnerClaim {
    type V = OwnerClaimView;

    open spec fn view(&self) -> OwnerClaimView {
        OwnerClaimView {
            version: self.version,
            scope: self.scope@,
            revision: self.revision,
            app_instance: self.app_instance@,
            process_id: self.process_id,
            generation: self.generation,
            claim_id: self.claim_id@,
            updated_unix_ms: self.updated_unix_ms,
        }
    }
}

pub struct LegacyOwnerClaim {
    pub scope: String,
    pub revision: u64,
    pub app_instance: String,
    pub process_id: u32,
    pub generation: u64,
    pub claim_id: String,
    pub updated_unix_ms: u128,
}

pub enum OwnerClaimOutcome {
    Retained(DurableOwnerClaim),
    Published { previous_process_id: Option<u32>, claim: DurableOwnerClaim },
}

pub enum OwnerClaimError {
    Durable(String),
    Live(DurableOwnerClaim),
}

/// Field-by-field copy of a claim.
pub fn copy_claim(c: &DurableOwnerClaim) -> (r: DurableOwnerClaim)
    ensures
        r@ == c@,
{
    DurableOwnerClaim {
        version: c.version,
        scope: c.scope.clone(),
        revision: c.revision,
        app_instance: c.app_instance.clone(),
        process_id: c.process_id,
        generation: c.generation,
        claim_id: c.claim_id.clone(),
        updated_unix_ms: c.updated_unix_ms,
    }
}

/// Equality of two claims by their fields.
pub fn claims_equal(a: &DurableOwnerClaim, b: &DurableOwnerClaim) -> (r: bool)
    ensures
        r == (a@ == b@),
{
    a.version == b.version && str_eq(a.scope.as_str(), b.scope.as_str()) && a.revision == b.revision
        && str_eq(a.app_instance.as_str(), b.app_instance.as_str()) && a.process_id == b.process_id
        && a.generation == b.generation && str_eq(a.claim_id.as_str(), b.claim_id.as_str())
        && a.updated_unix_ms == b.updated_unix_ms
}

/// The current-format claim of a decoded legacy claim.
pub fn migrate_legacy_claim(legacy: LegacyOwnerClaim) -> (r: DurableOwnerClaim)
    ensures
        r.version == DURABLE_OWNER_VERSION,
        r.scope == legacy.scope && r.revision == legacy.revision && r.app_instance == legacy.app_instance
            && r.process_id == legacy.process_id && r.generation == legacy.generation
            && r.claim_id == legacy.claim_id && r.updated_unix_ms == legacy.updated_unix_ms,
{
    DurableOwnerClaim {
        version: DURABLE_OWNER_VERSION,
        scope: legacy.scope,
        revision: legacy.revision,
        app_instance: legacy.app_instance,
        process_id: legacy.process_id,
        generation: legacy.generation,
        claim_id: legacy.claim_id,
        updated_unix_ms: legacy.updated_unix_ms,
    }
}

/// A decoded claim is usable when scope, app instance, process id, generation and claim id are all set.
pub open spec fn claim_complete(c: OwnerClaimView) -> bool {
    c.scope.len() > 0 && c.app_instance.len() > 0 && c.process_id != 0 && c.generation != 0 && c.claim_id.len() > 0
}

/// Checks a decoded claim and moves it to `scope`; the flag tells whether it moved.
pub fn check_claim(claim: DurableOwnerClaim, scope: &str) -> (r: Result<(DurableOwnerClaim, bool), String>)
    ensures
        r is Ok <==> claim_complete(claim@),
        r matches Ok((c, moved)) ==> c@ == (OwnerClaimView { scope: scope@, ..claim@ }) && moved == (claim.scope@ != scope@),
{
    if claim.scope.as_str().is_empty() || claim.app_instance.as_str().is_empty() || claim.process_id == 0
        || claim.generation == 0 || claim.claim_id.as_str().is_empty() {
        return Err("invalid durable owner claim".to_owned());
    }
    let moved = !str_eq(claim.scope.as_str(), scope);
    let mut c = claim;
    c.scope = scope.to_owned();
    Ok((c, moved))
}

/// The decision of a claim attempt: a live owner of another app instance
/// blocks it; the same instance, process and generation keep the current
/// claim; otherwise a new claim is published at the next revision.
pub fn decide_claim(
    previous: Option<&DurableOwnerClaim>,
    previous_alive: bool,
    scope: &str,
    app_instance: &str,
    process_id: u32,
    generation: u64,
    claim_id: &str,
    now_unix_ms: u128,
) -> (r: Result<OwnerClaimOutcome, OwnerClaimError>)
    ensures
        (app_instance@.len() == 0 || process_id == 0 || generation == 0) ==> r matches Err(OwnerClaimError::Durable(_)),
        !(app_instance@.len() == 0 || process_id == 0 || generation == 0) ==> match previous {
            Some(p) => if p.app_instance@ != app_instance@ && previous_alive {
                r matches Err(OwnerClaimError::Live(c)) && c@ == p@
            } else if p.app_instance@ == app_instance@ && p.process_id == process_id && p.generation == generation {
                r matches Ok(OwnerClaimOutcome::Retained(c)) && c@ == p@
            } else {
                r matches Ok(OwnerClaimOutcome::Published { previous_process_id, claim })
                    && previous_process_id == Some(p.process_id)
                    && claim@ == (OwnerClaimView {
                        version: DURABLE_OWNER_VERSION,
                        scope: scope@,
                        revision: if p.revision < u64::MAX { (p.revision + 1) as u64 } else { u64::MAX },
                        app_instance: app_instance@,
                        process_id,
                        generation,
                        claim_id: claim_id@,
                        updated_unix_ms: now_unix_ms,
                    })
            },
            None => r matches Ok(OwnerClaimOutcome::Published { previous_process_id, claim })
                && previous_process_id is None
                && claim@ == (OwnerClaimView {
                    version: DURABLE_OWNER_VERSION,
                    scope: scope@,
                    revision: 1,
                    app_instance: app_instance@,
                    process_id,
                    generation,
                    claim_id: claim_id@,
                    updated_unix_ms: now_unix_ms,
                }),
        },
{
    if app_instance.is_empty() || process_id == 0 || generation == 0 {
        return Err(OwnerClaimError::Durable(
            "durable owner claim requires app instance, process id, and generation".to_owned(),
        ));
    }
    let mut revision: u64 = 1;
    let mut previous_process_id: Option<u32> = None;
    match previous {
        Some(p) => {
            let same_app = str_eq(p.app_instance.as_str(), app_instance);
            if !same_app && previous_alive {
                return Err(OwnerClaimError::Live(copy_claim(p)));
            }
            if same_app && p.process_id == process_id && p.generation == generation {
                return Ok(OwnerClaimOutcome::Retained(copy_claim(p)));
            }
            revision = p.revision.saturating_add(1);
            previous_process_id = Some(p.process_id);
        },
        None => {},
    }
    let claim = DurableOwnerClaim {
        version: DURABLE_OWNER_VERSION,
        scope: scope.to_owned(),
        revision,
        app_instance: app_instance.to_owned(),
        process_id,
        generation,
        claim_id: claim_id.to_owned(),
        updated_unix_ms: now_unix_ms,
    };
    Ok(OwnerClaimOutcome::Published { previous_process_id, claim })
}

/// `{unix_ms}-{process_id}-{sequence}`, the id of a new claim.
pub fn claim_id_text(now_unix_ms: u128, process_id: u32, sequence: u64) -> (r: String)
    ensures
        r@ == nat_digits(now_unix_ms as nat) + seq!['-'] + nat_digits(process_id as nat) + seq!['-'] + nat_digits(sequence as nat),
{
    let a = u64_text_string(now_unix_ms);
    let b = u64_text_string(process_id as u128);
    let c = u64_text_string(sequence as u128);
    let ab = concat_str(a.as_str(), "-");
    let ab2 = concat_str(ab.as_str(), b.as_str());
    let ab3 = concat_str(ab2.as_str(), "-");
    let r = concat_str(ab3.as_str(), c.as_str());
    proof { reveal_strlit("-"); }
    r
}

} // verus!
