//! Crash-safe transaction workflow: envelopes, the phase state machine, fair
//! scope ordering, owner election decisions, and the queue/history rules for
//! enqueue, dispatch, acknowledgement, cancellation intent and compaction.
//!
//! Storage is the caller's: the workflow here keeps the active queue and the
//! terminal history in memory and reports which durable publications a step
//! needs, in order.
use vstd::prelude::*;
use crate::text::{str_eq, concat_str, usize_to_string, nat_digits};
use crate::path_order::{path_order, same_path, path_lt};
use crate::hashing::{sha256_hex, hex_lower, sha256_of};
use crate::clock::unix_ms;

verus! {

pub const TRANSACTION_ENVELOPE_VERSION: u8 = 1;
pub const REQUEST_CANCELLED_CODE: i32 = -32800;

#[derive(PartialEq, Eq, Structural, Clone, Copy, Debug)]
pub enum TransactionStatus {
    Pending,
    CancellationPending,
    SidecarCommitted,
    Completed,
    Cancelled,
    RequestCancelled,
}

pub open spec fn recoverable(s: TransactionStatus) -> bool {
    s == TransactionStatus::Pending || s == TransactionStatus::CancellationPending
        || s == TransactionStatus::SidecarCommitted
}

/// Statuses that never carry a product receipt.
pub open spec fn receipt_free(s: TransactionStatus) -> bool {
    s == TransactionStatus::Pending || s == TransactionStatus::CancellationPending
        || s == TransactionStatus::Cancelled || s == TransactionStatus::RequestCancelled
}

/// Statuses that carry the request-cancelled code.
pub open spec fn cancelling(s: TransactionStatus) -> bool {
    s == TransactionStatus::CancellationPending || s == TransactionStatus::RequestCancelled
}

/// The variant's name, as `{:?}` prints it.
pub open spec fn status_name(s: TransactionStatus) -> Seq<char> {
    match s {
        TransactionStatus::Pending => "Pending"@,
        TransactionStatus::CancellationPending => "CancellationPending"@,
        TransactionStatus::SidecarCommitted => "SidecarCommitted"@,
        TransactionStatus::Completed => "Completed"@,
        TransactionStatus::Cancelled => "Cancelled"@,
        TransactionStatus::RequestCancelled => "RequestCancelled"@,
    }
}

impl TransactionStatus {
    pub fn is_recoverable(self) -> (r: bool)
        ensures
            r == recoverable(self),
    {
        match self {
            TransactionStatus::Pending | TransactionStatus::CancellationPending
            | TransactionStatus::SidecarCommitted => true,
            _ => false,
        }
    }

    /// The variant's name.
    pub fn name(self) -> (r: String)
        ensures
            r@ == status_name(self),
    {
        match self {
            TransactionStatus::Pending => "Pending".to_owned(),
            TransactionStatus::CancellationPending => "CancellationPending".to_owned(),
            TransactionStatus::SidecarCommitted => "SidecarCommitted".to_owned(),
            TransactionStatus::Completed => "Completed".to_owned(),
            TransactionStatus::Cancelled => "Cancelled".to_owned(),
            TransactionStatus::RequestCancelled => "RequestCancelled".to_owned(),
        }
    }
}

/// A product receipt: the manifest's SHA-256 (lower-case hex) and its item count.
pub struct TransactionCommit {
    pub manifest_sha256: String,
    pub manifest_items: u64,
}

pub ghost struct CommitView {
    pub manifest_sha256: Seq<char>,
    pub manifest_items: u64,
}

impl View for TransactionCommit {
    type V = CommitView;

    open spec fn view(&self) -> CommitView {
        CommitView { manifest_sha256: self.manifest_sha256@, manifest_items: self.manifest_items }
    }
}

/// The receipt of the manifest whose JSON bytes are `bytes`.
pub open spec fn receipt_of(bytes: Seq<u8>, items: u64) -> CommitView {
    CommitView { manifest_sha256: hex_lower(sha256_of(bytes)), manifest_items: items }
}

pub open spec fn commit_view(c: Option<TransactionCommit>) -> Option<CommitView> {
    match c {
        Some(x) => Some(x@),
        None => None,
    }
}

/// One transaction's durable envelope. `project_root` is kept in the normal
/// form the caller gives it.
pub struct TransactionEnvelope<T> {
    pub version: u8,
    pub project_root: String,
    pub generation: u64,
    pub batch_id: String,
    pub status: TransactionStatus,
    pub error_code: Option<i32>,
    pub updated_unix_ms: u128,
    pub payload: T,
    pub commit: Option<TransactionCommit>,
}

/// Why an envelope is not valid for `root`, as the message the check gives; the
/// checks run in this order.
pub open spec fn envelope_problem<T>(e: TransactionEnvelope<T>, root: Seq<char>) -> Option<Seq<char>> {
    if e.version != TRANSACTION_ENVELOPE_VERSION {
        Some("unsupported transaction envelope version "@ + nat_digits(e.version as nat))
    } else if e.batch_id@.len() == 0 {
        Some("transaction envelope batch id is empty"@)
    } else if !same_path(e.project_root@, root) {
        Some("transaction envelope root "@ + e.project_root@ + " does not match "@ + root)
    } else if cancelling(e.status) && e.error_code != Some(REQUEST_CANCELLED_CODE) {
        Some("cancelling transaction envelope must carry -32800"@)
    } else if e.status == TransactionStatus::SidecarCommitted && e.commit is None {
        Some("sidecar-committed transaction envelope has no product receipt"@)
    } else if receipt_free(e.status) && e.commit is Some {
        Some(status_name(e.status) + " transaction envelope must not carry a product receipt"@)
    } else {
        None
    }
}

fn msg(s: &str) -> (r: String)
    ensures
        r@ == s@,
{
    s.to_owned()
}

impl<T> TransactionEnvelope<T> {
    /// A new pending envelope for `project_root` (already in normal form),
    /// stamped with the current time.
    pub fn pending(project_root: &str, generation: u64, batch_id: String, payload: T) -> (r: Self)
        ensures
            r.version == TRANSACTION_ENVELOPE_VERSION,
            r.project_root@ == project_root@,
            r.generation == generation,
            r.batch_id == batch_id,
            r.status == TransactionStatus::Pending,
            r.error_code is None,
            r.payload == payload,
            r.commit is None,
    {
        TransactionEnvelope {
            version: TRANSACTION_ENVELOPE_VERSION,
            project_root: project_root.to_owned(),
            generation,
            batch_id,
            status: TransactionStatus::Pending,
            error_code: None,
            updated_unix_ms: unix_ms(),
            payload,
            commit: None,
        }
    }

    /// Structural validation against the project root (in normal form).
    pub fn validate_for_root(&self, root: &str) -> (r: Result<(), String>)
        ensures
            r is Ok <==> envelope_problem(*self, root@) is None,
            r matches Err(m) ==> envelope_problem(*self, root@) == Some(m@),
    {
        if self.version != TRANSACTION_ENVELOPE_VERSION {
            let v = usize_to_string(self.version as usize);
            return Err(concat_str("unsupported transaction envelope version ", v.as_str()));
        }
        if self.batch_id.as_str().is_empty() {
            return Err(msg("transaction envelope batch id is empty"));
        }
        if path_order(self.project_root.as_str(), root) != 0 {
            let a = concat_str("transaction envelope root ", self.project_root.as_str());
            let b = concat_str(a.as_str(), " does not match ");
            return Err(concat_str(b.as_str(), root));
        }
        let is_cancelling = match self.status {
            TransactionStatus::CancellationPending | TransactionStatus::RequestCancelled => true,
            _ => false,
        };
        let carries_code = match self.error_code {
            Some(c) => c == REQUEST_CANCELLED_CODE,
            None => false,
        };
        if is_cancelling && !carries_code {
            return Err(msg("cancelling transaction envelope must carry -32800"));
        }
        if self.status == TransactionStatus::SidecarCommitted && self.commit.is_none() {
            return Err(msg("sidecar-committed transaction envelope has no product receipt"));
        }
        let free = match self.status {
            TransactionStatus::Pending | TransactionStatus::CancellationPending
            | TransactionStatus::Cancelled | TransactionStatus::RequestCancelled => true,
            _ => false,
        };
        if free && self.commit.is_some() {
            let n = self.status.name();
            return Err(concat_str(n.as_str(), " transaction envelope must not carry a product receipt"));
        }
        Ok(())
    }

    /// Stamp the envelope with the current time.
    pub fn touch(&mut self)
        ensures
            final(self).version == old(self).version,
            final(self).project_root == old(self).project_root,
            final(self).generation == old(self).generation,
            final(self).batch_id == old(self).batch_id,
            final(self).status == old(self).status,
            final(self).error_code == old(self).error_code,
            final(self).payload == old(self).payload,
            final(self).commit == old(self).commit,
    {
        self.updated_unix_ms = unix_ms();
    }

    /// Move the envelope to another owner generation.
    pub fn restamp_generation(&mut self, generation: u64)
        ensures
            final(self).generation == generation,
            final(self).version == old(self).version,
            final(self).project_root == old(self).project_root,
            final(self).batch_id == old(self).batch_id,
            final(self).status == old(self).status,
            final(self).error_code == old(self).error_code,
            final(self).payload == old(self).payload,
            final(self).commit == old(self).commit,
    {
        self.generation = generation;
        self.touch();
    }

    /// Change status and error code; a status without a receipt drops it.
    pub fn transition(&mut self, status: TransactionStatus, error_code: Option<i32>)
        ensures
            final(self).status == status,
            final(self).error_code == error_code,
            receipt_free(status) ==> final(self).commit is None,
            !receipt_free(status) ==> final(self).commit == old(self).commit,
            final(self).version == old(self).version,
            final(self).project_root == old(self).project_root,
            final(self).generation == old(self).generation,
            final(self).batch_id == old(self).batch_id,
            final(self).payload == old(self).payload,
    {
        self.status = status;
        self.error_code = error_code;
        let free = match status {
            TransactionStatus::Pending | TransactionStatus::CancellationPending
            | TransactionStatus::Cancelled | TransactionStatus::RequestCancelled => true,
            _ => false,
        };
        if free {
            self.commit = None;
        }
        self.touch();
    }

    /// Attach the receipt of a product manifest, given as the outcome of its JSON
    /// serialization, and move to `status` (side-car committed or completed).
    pub fn commit_product(&mut self, status: TransactionStatus, manifest_json: Result<Vec<u8>, String>, manifest_items: u64) -> (r: Result<(), String>)
        ensures
            !(status == TransactionStatus::SidecarCommitted || status == TransactionStatus::Completed) ==> {
                &&& r matches Err(m) && m@ == "cannot attach a product receipt to "@ + status_name(status)
                &&& *final(self) == *old(self)
            },
            (status == TransactionStatus::SidecarCommitted || status == TransactionStatus::Completed) ==> match manifest_json {
                Err(e) => r matches Err(m) && m@ == "serialize transaction product manifest: "@ + e@
                    && *final(self) == *old(self),
                Ok(bytes) => r is Ok
                    && commit_view(final(self).commit) == Some(receipt_of(bytes@, manifest_items))
                    && final(self).status == status
                    && final(self).error_code is None
                    && final(self).version == old(self).version
                    && final(self).project_root == old(self).project_root
                    && final(self).generation == old(self).generation
                    && final(self).batch_id == old(self).batch_id
                    && final(self).payload == old(self).payload,
            },
    {
        if !(status == TransactionStatus::SidecarCommitted || status == TransactionStatus::Completed) {
            let n = status.name();
            return Err(concat_str("cannot attach a product receipt to ", n.as_str()));
        }
        let bytes = match manifest_json {
            Ok(b) => b,
            Err(e) => {
                return Err(concat_str("serialize transaction product manifest: ", e.as_str()));
            },
        };
        let digest = sha256_hex(bytes.as_slice());
        self.commit = Some(TransactionCommit { manifest_sha256: digest, manifest_items });
        self.status = status;
        self.error_code = None;
        self.touch();
        Ok(())
    }

    /// Whether the receipt is that of the manifest (given as its JSON bytes, or
    /// `None` where serialization failed).
    pub fn verify_product(&self, manifest_json: Option<&[u8]>, manifest_items: u64) -> (r: bool)
        ensures
            r == match manifest_json {
                None => false,
                Some(bytes) => commit_view(self.commit) == Some(receipt_of(bytes@, manifest_items)),
            },
    {
        let bytes = match manifest_json {
            None => { return false; },
            Some(b) => b,
        };
        match &self.commit {
            None => false,
            Some(c) => {
                let digest = sha256_hex(bytes);
                str_eq(c.manifest_sha256.as_str(), digest.as_str()) && c.manifest_items == manifest_items
            },
        }
    }
}


/// Storage-neutral phase used to enforce transition ordering.
#[derive(PartialEq, Eq, Structural, Clone, Copy, Debug)]
pub enum DurableTransactionPhase {
    Pending,
    CancellationPending,
    Committed,
    Terminal,
    Acknowledged,
}

pub open spec fn phase_terminal(p: DurableTransactionPhase) -> bool {
    p == DurableTransactionPhase::Terminal || p == DurableTransactionPhase::Acknowledged
}

/// The transitions of the unified transaction state machine.
pub open spec fn phase_allows(from: DurableTransactionPhase, to: DurableTransactionPhase) -> bool {
    match from {
        DurableTransactionPhase::Pending => true,
        DurableTransactionPhase::CancellationPending => to == DurableTransactionPhase::CancellationPending
            || phase_terminal(to),
        DurableTransactionPhase::Committed => to == DurableTransactionPhase::Committed
            || to == DurableTransactionPhase::CancellationPending || phase_terminal(to),
        DurableTransactionPhase::Terminal => phase_terminal(to),
        DurableTransactionPhase::Acknowledged => to == DurableTransactionPhase::Acknowledged,
    }
}

impl DurableTransactionPhase {
    pub fn is_terminal(self) -> (r: bool)
        ensures
            r == phase_terminal(self),
    {
        match self {
            DurableTransactionPhase::Terminal | DurableTransactionPhase::Acknowledged => true,
            _ => false,
        }
    }

    pub fn is_dispatchable(self) -> (r: bool)
        ensures
            r == (self == DurableTransactionPhase::Committed),
    {
        match self {
            DurableTransactionPhase::Committed => true,
            _ => false,
        }
    }

    /// Whether replacing an active row in this phase with one in `next` keeps
    /// the state machine.
    pub fn allows(self, next: Self) -> (r: bool)
        ensures
            r == phase_allows(self, next),
    {
        match self {
            DurableTransactionPhase::Pending => true,
            DurableTransactionPhase::CancellationPending => match next {
                DurableTransactionPhase::CancellationPending | DurableTransactionPhase::Terminal
                | DurableTransactionPhase::Acknowledged => true,
                _ => false,
            },
            DurableTransactionPhase::Committed => match next {
                DurableTransactionPhase::Committed | DurableTransactionPhase::CancellationPending
                | DurableTransactionPhase::Terminal | DurableTransactionPhase::Acknowledged => true,
                _ => false,
            },
            DurableTransactionPhase::Terminal => match next {
                DurableTransactionPhase::Terminal | DurableTransactionPhase::Acknowledged => true,
                _ => false,
            },
            DurableTransactionPhase::Acknowledged => match next {
                DurableTransactionPhase::Acknowledged => true,
                _ => false,
            },
        }
    }
}

/// Every phase may be replaced by a row in the same phase.
pub proof fn law_phase_allows_reflexive(p: DurableTransactionPhase)
    ensures
        phase_allows(p, p),
{
}

/// Allowed replacements compose: the state machine has no shortcut that a
/// sequence of allowed steps would not also reach.
pub proof fn law_phase_allows_transitive(a: DurableTransactionPhase, b: DurableTransactionPhase, c: DurableTransactionPhase)
    requires
        phase_allows(a, b),
        phase_allows(b, c),
    ensures
        phase_allows(a, c),
{
}

/// Once terminal, a transaction stays terminal, and an acknowledged one stays
/// acknowledged.
pub proof fn law_terminal_is_closed(p: DurableTransactionPhase, next: DurableTransactionPhase)
    requires
        phase_allows(p, next),
    ensures
        phase_terminal(p) ==> phase_terminal(next),
        p == DurableTransactionPhase::Acknowledged ==> next == DurableTransactionPhase::Acknowledged,
        next == DurableTransactionPhase::Pending ==> p == DurableTransactionPhase::Pending,
{
}

/// Only committed rows are dispatched, and a dispatchable row is not terminal.
pub proof fn law_dispatchable_not_terminal(p: DurableTransactionPhase)
    ensures
        p == DurableTransactionPhase::Committed ==> !phase_terminal(p),
{
}

/// Domain record contract for the shared transaction state machine.
pub trait DurableTransactionRecord: Sized {
    spec fn spec_id(&self) -> Seq<char>;

    spec fn spec_phase(&self) -> DurableTransactionPhase;

    fn transaction_id(&self) -> (r: &str)
        ensures
            r@ == self.spec_id();

    fn transaction_phase(&self) -> (r: DurableTransactionPhase)
        ensures
            r == self.spec_phase();

    /// A copy equal to the record.
    fn duplicate(&self) -> (r: Self)
        ensures
            r == *self;

    /// Whether two records are equal.
    fn same_record(&self, other: &Self) -> (r: bool)
        ensures
            r == (*self == *other);
}

/// File names of one transaction workflow's stores.
pub struct DurableTransactionLayout {
    pub fifo: crate::durable_fifo::DurableFifoLayout,
    pub history_name: String,
    pub migration_seed_file: String,
}

impl DurableTransactionLayout {
    /// The layout of the workflow called `name`: the default FIFO files, a
    /// history called `{name}-history` and a hidden migration seed file.
    pub fn named(name: &str) -> (r: Self)
        ensures
            r.fifo.primary_file@ == "active.json"@,
            r.history_name@ == name@ + "-history"@,
            r.migration_seed_file@ == "."@ + name@ + "-history-migration.ndjson"@,
    {
        let h = concat_str(name, "-history");
        let a = concat_str(".", name);
        let seed = concat_str(a.as_str(), "-history-migration.ndjson");
        DurableTransactionLayout {
            fifo: crate::durable_fifo::DurableFifoLayout::default(),
            history_name: h,
            migration_seed_file: seed,
        }
    }
}

/// Result of an idempotent acknowledgement.
pub enum DurableAcknowledgement<T> {
    Published(T),
    AlreadyPublished(T),
}


pub open spec fn cand_view(c: Seq<(String, u128)>) -> Seq<(Seq<char>, u128)> {
    c.map_values(|x: (String, u128)| (x.0@, x.1))
}

/// The newest timestamp among the candidates naming scope `p`; -1 where none does.
pub open spec fn latest(c: Seq<(Seq<char>, u128)>, p: Seq<char>) -> int
    decreases c.len(),
{
    if c.len() == 0 {
        -1
    } else {
        let m = latest(c.drop_last(), p);
        if same_path(c.last().0, p) && c.last().1 > m { c.last().1 as int } else { m }
    }
}

/// The spelling of scope `p` in the first candidate that names it.
pub open spec fn first_spelling(c: Seq<(Seq<char>, u128)>, p: Seq<char>) -> Option<Seq<char>>
    decreases c.len(),
{
    if c.len() == 0 {
        None
    } else {
        match first_spelling(c.drop_last(), p) {
            Some(x) => Some(x),
            None => if same_path(c.last().0, p) { Some(c.last().0) } else { None },
        }
    }
}

/// Scope `a` is visited before `b`: older newest-timestamp first, then by path.
pub open spec fn scope_before(c: Seq<(Seq<char>, u128)>, a: Seq<char>, b: Seq<char>) -> bool {
    latest(c, a) < latest(c, b) || (latest(c, a) == latest(c, b) && path_lt(a, b))
}

/// `out` lists each scope of the candidates once, in its first spelling, in
/// fair order.
pub open spec fn fair_order_ok(c: Seq<(Seq<char>, u128)>, out: Seq<Seq<char>>) -> bool {
    &&& forall|a: int| 0 <= a < out.len() ==> first_spelling(c, #[trigger] out[a]) == Some(out[a])
    &&& forall|k: int| 0 <= k < c.len() ==> #[trigger] listed(out, c[k].0)
    &&& forall|a: int, b: int| 0 <= a < b < out.len() ==> scope_before(c, #[trigger] out[a], #[trigger] out[b])
}

/// Some entry of `out` names the scope `p`.
pub open spec fn listed(out: Seq<Seq<char>>, p: Seq<char>) -> bool {
    exists|a: int| 0 <= a < out.len() && same_path(#[trigger] out[a], p)
}

proof fn lemma_absent(c: Seq<(Seq<char>, u128)>, p: Seq<char>)
    requires
        forall|k: int| 0 <= k < c.len() ==> !same_path(#[trigger] c[k].0, p),
    ensures
        latest(c, p) == -1,
        first_spelling(c, p) is None,
    decreases c.len(),
{
    if c.len() > 0 {
        let d = c.drop_last();
        assert forall|k: int| 0 <= k < d.len() implies !same_path(#[trigger] d[k].0, p) by {
            assert(d[k] == c[k]);
        }
        lemma_absent(d, p);
        assert(!same_path(c[c.len() - 1].0, p));
    }
}

proof fn lemma_latest_ge(c: Seq<(Seq<char>, u128)>, p: Seq<char>)
    ensures
        latest(c, p) >= -1,
    decreases c.len(),
{
    if c.len() > 0 {
        lemma_latest_ge(c.drop_last(), p);
    }
}

pub open spec fn key_before(a: (Seq<char>, u128), b: (Seq<char>, u128)) -> bool {
    a.1 < b.1 || (a.1 == b.1 && path_lt(a.0, b.0))
}

proof fn lemma_key_order(a: (Seq<char>, u128), b: (Seq<char>, u128), d: (Seq<char>, u128))
    ensures
        !key_before(a, a),
        key_before(a, b) && key_before(b, d) ==> key_before(a, d),
        !same_path(a.0, b.0) ==> key_before(a, b) || key_before(b, a),
        key_before(a, b) ==> !key_before(b, a),
{
    crate::path_order::lemma_comps_irrefl(crate::path_order::components(a.0));
    if path_lt(a.0, b.0) && path_lt(b.0, d.0) {
        crate::path_order::lemma_comps_trans(
            crate::path_order::components(a.0), crate::path_order::components(b.0), crate::path_order::components(d.0));
    }
    crate::path_order::lemma_comps_total(crate::path_order::components(a.0), crate::path_order::components(b.0));
    if path_lt(a.0, b.0) {
        crate::path_order::lemma_comps_asym(crate::path_order::components(a.0), crate::path_order::components(b.0));
    }
}

/// One row per scope: its first spelling and its newest timestamp.
fn scope_rows(candidates: &Vec<(String, u128)>) -> (rows: Vec<(String, u128)>)
    ensures
        rows_ok(cand_view(candidates@), rows@),
        rows_cover(cand_view(candidates@), rows@),
        forall|j: int, l: int| 0 <= j < l < rows@.len() ==> !same_path(#[trigger] rows@[j].0@, #[trigger] rows@[l].0@),
{
    let ghost cv = cand_view(candidates@);
    let mut rows: Vec<(String, u128)> = Vec::new();
    let mut i: usize = 0;
    while i < candidates.len()
        invariant
            i <= candidates@.len(),
            cv == cand_view(candidates@),
            forall|j: int| 0 <= j < rows@.len() ==>
                first_spelling(cv.subrange(0, i as int), #[trigger] rows@[j].0@) == Some(rows@[j].0@),
            forall|j: int| 0 <= j < rows@.len() ==>
                #[trigger] rows@[j].1 as int == latest(cv.subrange(0, i as int), rows@[j].0@),
            forall|j: int, l: int| 0 <= j < l < rows@.len() ==> !same_path(#[trigger] rows@[j].0@, #[trigger] rows@[l].0@),
            forall|k: int| #![trigger cv[k]] 0 <= k < i ==> exists|j: int| 0 <= j < rows@.len() && same_path(#[trigger] rows@[j].0@, cv[k].0),
        decreases candidates@.len() - i,
    {
        let ghost pre = cv.subrange(0, i as int);
        let ghost post = cv.subrange(0, i + 1);
        assert(post.drop_last() =~= pre);
        assert(post.last() == cv[i as int]);
        let cand = &candidates[i];
        let ghost p = cand.0@;
        assert(cv[i as int] == (p, cand.1));
        let mut found: Option<usize> = None;
        let mut j: usize = 0;
        while j < rows.len()
            invariant
                j <= rows@.len(),
                found matches Some(f) ==> f < rows@.len() && same_path(rows@[f as int].0@, p),
                found is None ==> forall|m: int| 0 <= m < j ==> !same_path(#[trigger] rows@[m].0@, p),
                p == cand.0@,
            decreases rows@.len() - j,
        {
            if found.is_none() && path_order(rows[j].0.as_str(), cand.0.as_str()) == 0 {
                found = Some(j);
            }
            j = j + 1;
        }
        match found {
            Some(f) => {
                let old_ts = rows[f].1;
                let ts = if cand.1 > old_ts { cand.1 } else { old_ts };
                let name = rows[f].0.clone();
                let ghost before = rows@;
                rows.set(f, (name, ts));
                proof {
                    assert forall|m: int| 0 <= m < rows@.len() && m != f implies !same_path(#[trigger] rows@[m].0@, p) by {
                        assert(rows@[m] == before[m]);
                        if m < f { assert(!same_path(before[m].0@, before[f as int].0@)); }
                        else { assert(!same_path(before[f as int].0@, before[m].0@)); }
                    }
                    assert forall|m: int| 0 <= m < rows@.len() implies
                        first_spelling(post, #[trigger] rows@[m].0@) == Some(rows@[m].0@) by {
                        assert(rows@[m].0@ == before[m].0@);
                    }
                    assert forall|m: int| 0 <= m < rows@.len() implies
                        #[trigger] rows@[m].1 as int == latest(post, rows@[m].0@) by {
                        assert(rows@[m].0@ == before[m].0@);
                    }
                    assert forall|m: int, l: int| 0 <= m < l < rows@.len() implies
                        !same_path(#[trigger] rows@[m].0@, #[trigger] rows@[l].0@) by {
                        assert(rows@[m].0@ == before[m].0@);
                        assert(rows@[l].0@ == before[l].0@);
                    }
                    assert forall|k: int| #![trigger cv[k]] 0 <= k < i + 1 implies
                        exists|jj: int| 0 <= jj < rows@.len() && same_path(#[trigger] rows@[jj].0@, cv[k].0) by {
                        if k < i {
                            let jj = choose|jj: int| 0 <= jj < before.len() && same_path(#[trigger] before[jj].0@, cv[k].0);
                            assert(rows@[jj].0@ == before[jj].0@);
                        } else {
                            assert(rows@[f as int].0@ == before[f as int].0@);
                        }
                    }
                }
            },
            None => {
                proof {
                    assert forall|k: int| 0 <= k < pre.len() implies !same_path(#[trigger] pre[k].0, p) by {
                        let jj = choose|jj: int| 0 <= jj < rows@.len() && same_path(#[trigger] rows@[jj].0@, cv[k].0);
                        assert(pre[k] == cv[k]);
                    }
                    lemma_absent(pre, p);
                }
                let ghost before = rows@;
                let name = cand.0.clone();
                rows.push((name, cand.1));
                proof {
                    assert forall|m: int| 0 <= m < rows@.len() implies
                        first_spelling(post, #[trigger] rows@[m].0@) == Some(rows@[m].0@) by {
                        if m < before.len() { assert(rows@[m] == before[m]); }
                    }
                    assert forall|m: int| 0 <= m < rows@.len() implies
                        #[trigger] rows@[m].1 as int == latest(post, rows@[m].0@) by {
                        if m < before.len() { assert(rows@[m] == before[m]); }
                    }
                    assert forall|m: int, l: int| 0 <= m < l < rows@.len() implies
                        !same_path(#[trigger] rows@[m].0@, #[trigger] rows@[l].0@) by {
                        assert(rows@[m] == before[m]);
                        if l < before.len() { assert(rows@[l] == before[l]); }
                    }
                    assert forall|k: int| #![trigger cv[k]] 0 <= k < i + 1 implies
                        exists|jj: int| 0 <= jj < rows@.len() && same_path(#[trigger] rows@[jj].0@, cv[k].0) by {
                        if k < i {
                            let jj = choose|jj: int| 0 <= jj < before.len() && same_path(#[trigger] before[jj].0@, cv[k].0);
                            assert(rows@[jj] == before[jj]);
                        } else {
                            assert(rows@[before.len() as int].0@ == p);
                        }
                    }
                }
            },
        }
        i = i + 1;
    }
    assert(cv.subrange(0, candidates@.len() as int) =~= cv);
    rows
}

pub open spec fn rows_sorted(v: Seq<(String, u128)>) -> bool {
    forall|a: int, b: int| 0 <= a < b < v.len() ==> key_before(kv(#[trigger] v[a]), kv(#[trigger] v[b]))
}

/// Insert `item` at its place in a sorted list; the place is returned.
fn insert_sorted(sorted: &mut Vec<(String, u128)>, item: (String, u128)) -> (pos: usize)
    requires
        rows_sorted(old(sorted)@),
        forall|a: int| 0 <= a < old(sorted)@.len() ==> !same_path((#[trigger] old(sorted)@[a]).0@, item.0@),
    ensures
        pos <= old(sorted)@.len(),
        final(sorted)@ == old(sorted)@.insert(pos as int, item),
        rows_sorted(final(sorted)@),
{
    let ghost x = kv(item);
    let mut pos: usize = 0;
    while pos < sorted.len() && !before_exec(&item, &sorted[pos])
        invariant
            x == kv(item),
            pos <= sorted@.len(),
            forall|a: int| 0 <= a < sorted@.len() ==> !same_path((#[trigger] sorted@[a]).0@, item.0@),
            forall|a: int| 0 <= a < pos ==> key_before(kv(#[trigger] sorted@[a]), x),
        decreases sorted@.len() - pos,
    {
        proof {
            lemma_key_order(kv(sorted@[pos as int]), x, x);
        }
        pos = pos + 1;
    }
    let ghost before = sorted@;
    sorted.insert(pos, item);
    proof {
        assert forall|a: int, b: int| 0 <= a < b < sorted@.len() implies
            key_before(kv(#[trigger] sorted@[a]), kv(#[trigger] sorted@[b])) by {
            if b < pos {
                assert(sorted@[a] == before[a] && sorted@[b] == before[b]);
            } else if b == pos {
                assert(sorted@[a] == before[a]);
            } else if a == pos {
                assert(sorted@[b] == before[b - 1]);
                if b - 1 > pos {
                    lemma_key_order(x, kv(before[pos as int]), kv(before[b - 1]));
                }
            } else if a < pos {
                assert(sorted@[a] == before[a] && sorted@[b] == before[b - 1]);
                lemma_key_order(kv(before[a]), x, kv(before[b - 1]));
                if b - 1 > pos {
                    lemma_key_order(x, kv(before[pos as int]), kv(before[b - 1]));
                }
            } else {
                assert(sorted@[a] == before[a - 1] && sorted@[b] == before[b - 1]);
            }
        }
    }
    pos
}

/// The rows of one scope each, each in its first spelling in `cv` and with the
/// newest timestamp there.
pub open spec fn rows_ok(cv: Seq<(Seq<char>, u128)>, rows: Seq<(String, u128)>) -> bool {
    &&& forall|j: int| 0 <= j < rows.len() ==> first_spelling(cv, #[trigger] rows[j].0@) == Some(rows[j].0@)
    &&& forall|j: int| 0 <= j < rows.len() ==> #[trigger] rows[j].1 as int == latest(cv, rows[j].0@)
}

/// Every candidate's scope has a row.
pub open spec fn rows_cover(cv: Seq<(Seq<char>, u128)>, rows: Seq<(String, u128)>) -> bool {
    forall|k: int| 0 <= k < cv.len() ==> #[trigger] row_for(cv[k].0, rows)
}

/// Some row names the scope `p`.
pub open spec fn row_for(p: Seq<char>, rows: Seq<(String, u128)>) -> bool {
    exists|j: int| 0 <= j < rows.len() && same_path(#[trigger] rows[j].0@, p)
}

/// The rows in increasing (timestamp, path) order.
fn sort_rows(rows: Vec<(String, u128)>, Ghost(cv): Ghost<Seq<(Seq<char>, u128)>>) -> (sorted: Vec<(String, u128)>)
    requires
        forall|j: int, l: int| 0 <= j < l < rows@.len() ==> !same_path(#[trigger] rows@[j].0@, #[trigger] rows@[l].0@),
        rows_ok(cv, rows@),
        rows_cover(cv, rows@),
    ensures
        rows_sorted(sorted@),
        rows_ok(cv, sorted@),
        rows_cover(cv, sorted@),
{
    let mut sorted: Vec<(String, u128)> = Vec::new();
    let ghost mut idx: Seq<int> = Seq::empty();
    let ghost mut at: Seq<int> = Seq::empty();
    let mut r: usize = 0;
    while r < rows.len()
        invariant
            r <= rows@.len(),
            forall|j: int, l: int| 0 <= j < l < rows@.len() ==> !same_path(#[trigger] rows@[j].0@, #[trigger] rows@[l].0@),
            rows_ok(cv, rows@),
            rows_cover(cv, rows@),
            rows_sorted(sorted@),
            idx.len() == sorted@.len(),
            at.len() == r,
            forall|a: int| 0 <= a < sorted@.len() ==> 0 <= #[trigger] idx[a] < r && sorted@[a] == rows@[idx[a]],
            forall|j: int| 0 <= j < r ==> 0 <= #[trigger] at[j] < sorted@.len() && sorted@[at[j]] == rows@[j],
        decreases rows@.len() - r,
    {
        let item = (rows[r].0.clone(), rows[r].1);
        assert(item == rows@[r as int]);
        proof {
            assert forall|a: int| 0 <= a < sorted@.len() implies !same_path((#[trigger] sorted@[a]).0@, item.0@) by {
                let j = idx[a];
                assert(!same_path(rows@[j].0@, rows@[r as int].0@));
            }
        }
        let ghost before = sorted@;
        let pos = insert_sorted(&mut sorted, item);
        proof {
            let p = pos as int;
            let idx2 = idx.insert(p, r as int);
            let at2 = Seq::new((r + 1) as nat, |j: int| if j == r { p } else if at[j] >= p { at[j] + 1 } else { at[j] });
            assert forall|a: int| 0 <= a < sorted@.len() implies 0 <= #[trigger] idx2[a] < r + 1 && sorted@[a] == rows@[idx2[a]] by {
                if a < p {
                    assert(sorted@[a] == before[a] && idx2[a] == idx[a]);
                } else if a == p {
                } else {
                    assert(sorted@[a] == before[a - 1] && idx2[a] == idx[a - 1]);
                }
            }
            assert forall|j: int| 0 <= j < r + 1 implies 0 <= #[trigger] at2[j] < sorted@.len() && sorted@[at2[j]] == rows@[j] by {
                if j < r {
                    if at[j] >= p { assert(sorted@[at[j] + 1] == before[at[j]]); }
                    else { assert(sorted@[at[j]] == before[at[j]]); }
                }
            }
            idx = idx2;
            at = at2;
        }
        r = r + 1;
    }
    proof {
        assert forall|a: int| 0 <= a < sorted@.len() implies first_spelling(cv, #[trigger] sorted@[a].0@) == Some(sorted@[a].0@) by {
            assert(sorted@[a] == rows@[idx[a]]);
        }
        assert forall|a: int| 0 <= a < sorted@.len() implies #[trigger] sorted@[a].1 as int == latest(cv, sorted@[a].0@) by {
            assert(sorted@[a] == rows@[idx[a]]);
        }
        lemma_cover_moves(cv, rows@, sorted@, at);
    }
    sorted
}

proof fn lemma_cover_moves(cv: Seq<(Seq<char>, u128)>, rows: Seq<(String, u128)>, sorted: Seq<(String, u128)>, at: Seq<int>)
    requires
        rows_cover(cv, rows),
        at.len() == rows.len(),
        forall|j: int| 0 <= j < rows.len() ==> 0 <= #[trigger] at[j] < sorted.len() && sorted[at[j]] == rows[j],
    ensures
        rows_cover(cv, sorted),
{
    assert forall|k: int| 0 <= k < cv.len() implies #[trigger] row_for(cv[k].0, sorted) by {
        assert(row_for(cv[k].0, rows));
        let j = choose|j: int| 0 <= j < rows.len() && same_path(#[trigger] rows[j].0@, cv[k].0);
        assert(sorted[at[j]] == rows[j]);
        assert(sorted[at[j]].0@ == rows[j].0@);
    }
}

/// Distinct scopes, each in its first spelling, ordered by their newest
/// timestamp and then by path: each owner gets a turn before a scope that
/// acknowledged more recently. Paths are compared in the normal form the
/// caller gives them.
pub fn fair_scope_order(candidates: Vec<(String, u128)>) -> (out: Vec<String>)
    ensures
        fair_order_ok(cand_view(candidates@), out@.map_values(|s: String| s@)),
{
    let ghost cv = cand_view(candidates@);
    let rows = scope_rows(&candidates);
    let sorted = sort_rows(rows, Ghost(cv));
    let mut out: Vec<String> = Vec::new();
    let mut a: usize = 0;
    while a < sorted.len()
        invariant
            a <= sorted@.len(),
            out@.len() == a,
            forall|b: int| 0 <= b < a ==> #[trigger] out@[b] == sorted@[b].0,
        decreases sorted@.len() - a,
    {
        out.push(sorted[a].0.clone());
        a = a + 1;
    }
    proof {
        let ov = out@.map_values(|s: String| s@);
        assert forall|b: int| 0 <= b < ov.len() implies first_spelling(cv, #[trigger] ov[b]) == Some(ov[b]) by {
            assert(ov[b] == sorted@[b].0@);
        }
        assert forall|k: int| 0 <= k < cv.len() implies #[trigger] listed(ov, cv[k].0) by {
            assert(row_for(cv[k].0, sorted@));
            let b = choose|b: int| 0 <= b < sorted@.len() && same_path(#[trigger] sorted@[b].0@, cv[k].0);
            assert(ov[b] == sorted@[b].0@);
        }
        assert forall|b: int, d: int| 0 <= b < d < ov.len() implies scope_before(cv, #[trigger] ov[b], #[trigger] ov[d]) by {
            assert(ov[b] == sorted@[b].0@);
            assert(ov[d] == sorted@[d].0@);
            assert(key_before(kv(sorted@[b]), kv(sorted@[d])));
        }
    }
    out
}

pub open spec fn kv(x: (String, u128)) -> (Seq<char>, u128) {
    (x.0@, x.1)
}

fn before_exec(x: &(String, u128), y: &(String, u128)) -> (r: bool)
    ensures
        r == key_before(kv(*x), kv(*y)),
{
    x.1 < y.1 || (x.1 == y.1 && path_order(x.0.as_str(), y.0.as_str()) == -1)
}


/// A scope with a strictly newer timestamp than every other listed scope is
/// visited last: acknowledging one root gives every other root a turn first.
pub proof fn law_fair_order_newest_last(c: Seq<(Seq<char>, u128)>, out: Seq<Seq<char>>, a: int)
    requires
        fair_order_ok(c, out),
        0 <= a < out.len(),
        forall|b: int| 0 <= b < out.len() && b != a ==> latest(c, #[trigger] out[b]) < latest(c, out[a]),
    ensures
        a == out.len() - 1,
{
    if a < out.len() - 1 {
        let l = out.len() - 1;
        assert(scope_before(c, out[a], out[l]));
        assert(latest(c, out[l]) < latest(c, out[a]));
    }
}

/// No scope is listed twice.
pub proof fn law_fair_order_distinct(c: Seq<(Seq<char>, u128)>, out: Seq<Seq<char>>, a: int, b: int)
    requires
        fair_order_ok(c, out),
        0 <= a < b < out.len(),
    ensures
        !same_path(out[a], out[b]),
{
    assert(scope_before(c, out[a], out[b]));
    if same_path(out[a], out[b]) {
        lemma_latest_same(c, out[a], out[b]);
        crate::path_order::lemma_comps_irrefl(crate::path_order::components(out[a]));
    }
}

proof fn lemma_latest_same(c: Seq<(Seq<char>, u128)>, p: Seq<char>, q: Seq<char>)
    requires
        same_path(p, q),
    ensures
        latest(c, p) == latest(c, q),
    decreases c.len(),
{
    if c.len() > 0 {
        lemma_latest_same(c.drop_last(), p, q);
    }
}

/// The identity of one dispatcher process.
pub struct DurableOwnerIdentity {
    pub app_instance: String,
    pub process_id: u32,
    pub generation: u64,
}

impl DurableOwnerIdentity {
    /// An identity; app instance, process id and generation must all be set.
    pub fn new(app_instance: String, process_id: u32, generation: u64) -> (r: Result<Self, String>)
        ensures
            r is Ok <==> app_instance@.len() > 0 && process_id != 0 && generation != 0,
            r matches Ok(id) ==> id.app_instance == app_instance && id.process_id == process_id
                && id.generation == generation,
            r matches Err(m) ==> m@ == "durable owner identity requires app instance, process id, and generation"@,
    {
        if app_instance.as_str().is_empty() || process_id == 0 || generation == 0 {
            return Err(msg("durable owner identity requires app instance, process id, and generation"));
        }
        Ok(DurableOwnerIdentity { app_instance, process_id, generation })
    }
}

/// How long to wait for a live owner, in milliseconds, and through how many
/// owner deaths.
pub struct DurableOwnerRetry {
    pub timeout_ms: u64,
    pub max_owner_deaths: usize,
    pub poll_interval_ms: u64,
}

/// The poll interval: the retry's own where it is set and non-zero, else 25 ms.
pub fn poll_interval_ms(retry: &Option<DurableOwnerRetry>) -> (r: u64)
    ensures
        r == match retry {
            Some(o) => if o.poll_interval_ms != 0 { o.poll_interval_ms } else { 25 },
            None => 25,
        },
{
    match retry {
        Some(o) => if o.poll_interval_ms != 0 { o.poll_interval_ms } else { 25 },
        None => 25,
    }
}

pub struct DurableOwnerElection {
    pub claim: crate::durable_fifo::DurableOwnerClaim,
    pub previous_owner_process_ids: Vec<u32>,
}

pub enum DurableOwnerElectionError {
    Busy,
    Live(crate::durable_fifo::DurableOwnerClaim),
    RetryRejected {
        previous_owner_process_id: u32,
        current_owner: crate::durable_fifo::DurableOwnerClaim,
    },
    Cancelled,
    TimedOut(Option<crate::durable_fifo::DurableOwnerClaim>),
    Durable(String),
}

pub open spec fn owned_by_text(app: Seq<char>, pid: u32) -> Seq<char> {
    "transaction dispatcher is owned by live app "@ + app + " (pid "@ + nat_digits(pid as nat) + ")"@
}

pub open spec fn election_error_text(e: DurableOwnerElectionError) -> Seq<char> {
    match e {
        DurableOwnerElectionError::Busy => "durable transaction coordinator is locked"@,
        DurableOwnerElectionError::Live(c) => owned_by_text(c.app_instance@, c.process_id),
        DurableOwnerElectionError::RetryRejected { previous_owner_process_id, current_owner } =>
            "replacement retry after owner pid "@ + nat_digits(previous_owner_process_id as nat)
                + " exited was rejected: "@ + owned_by_text(current_owner.app_instance@, current_owner.process_id),
        DurableOwnerElectionError::Cancelled => "durable owner election was cancelled"@,
        DurableOwnerElectionError::TimedOut(Some(c)) => "timed out waiting for transaction dispatcher "@
            + c.app_instance@ + " (pid "@ + nat_digits(c.process_id as nat) + ")"@,
        DurableOwnerElectionError::TimedOut(None) => "timed out waiting for durable transaction coordinator"@,
        DurableOwnerElectionError::Durable(m) => m@,
    }
}

fn owned_by(app: &str, pid: u32) -> (r: String)
    ensures
        r@ == owned_by_text(app@, pid),
{
    let a = concat_str("transaction dispatcher is owned by live app ", app);
    let b = concat_str(a.as_str(), " (pid ");
    let n = usize_to_string(pid as usize);
    let c = concat_str(b.as_str(), n.as_str());
    concat_str(c.as_str(), ")")
}

impl DurableOwnerElectionError {
    /// The error's text.
    pub fn message(&self) -> (r: String)
        ensures
            r@ == election_error_text(*self),
    {
        match self {
            DurableOwnerElectionError::Busy => msg("durable transaction coordinator is locked"),
            DurableOwnerElectionError::Live(c) => owned_by(c.app_instance.as_str(), c.process_id),
            DurableOwnerElectionError::RetryRejected { previous_owner_process_id, current_owner } => {
                let n = usize_to_string(*previous_owner_process_id as usize);
                let a = concat_str("replacement retry after owner pid ", n.as_str());
                let b = concat_str(a.as_str(), " exited was rejected: ");
                let o = owned_by(current_owner.app_instance.as_str(), current_owner.process_id);
                concat_str(b.as_str(), o.as_str())
            },
            DurableOwnerElectionError::Cancelled => msg("durable owner election was cancelled"),
            DurableOwnerElectionError::TimedOut(Some(c)) => {
                let a = concat_str("timed out waiting for transaction dispatcher ", c.app_instance.as_str());
                let b = concat_str(a.as_str(), " (pid ");
                let n = usize_to_string(c.process_id as usize);
                let d = concat_str(b.as_str(), n.as_str());
                concat_str(d.as_str(), ")")
            },
            DurableOwnerElectionError::TimedOut(None) => msg("timed out waiting for durable transaction coordinator"),
            DurableOwnerElectionError::Durable(m) => m.clone(),
        }
    }
}

#[derive(PartialEq, Eq, Structural, Clone, Copy, Debug)]
pub enum DurableCoordinatorLockMode {
    Try,
    Wait,
}

pub enum DurableCoordinatorOpenError {
    Locked,
    Durable(String),
}

impl DurableCoordinatorOpenError {
    /// The error's text.
    pub fn message(&self) -> (r: String)
        ensures
            r@ == match self {
                DurableCoordinatorOpenError::Locked => "durable transaction coordinator is locked"@,
                DurableCoordinatorOpenError::Durable(m) => m@,
            },
    {
        match self {
            DurableCoordinatorOpenError::Locked => msg("durable transaction coordinator is locked"),
            DurableCoordinatorOpenError::Durable(m) => m.clone(),
        }
    }
}


/// Where an owner election stands between two observations of the caller.
pub enum ElectionStage {
    /// Before an attempt: the caller reports whether the election is cancelled.
    Top,
    /// A lock attempt is under way: the caller reports its outcome.
    Locking,
    /// The lock was busy: the caller reports cancellation and the deadline.
    LockWait,
    /// A live owner was found: the caller reports the waiting notification.
    Notifying(crate::durable_fifo::DurableOwnerClaim),
    /// The caller reports whether the owner's process is alive.
    Probing(crate::durable_fifo::DurableOwnerClaim),
    /// The owner is alive: the caller reports cancellation and the deadline.
    OwnerWait(crate::durable_fifo::DurableOwnerClaim),
    Done,
}

/// The outcome of one lock attempt, with the locked preparation and the claim
/// made under the lock.
pub enum LockAttempt {
    Failed(String),
    Busy,
    PrepareFailed(String),
    Claimed(Result<crate::durable_fifo::OwnerClaimOutcome, crate::durable_fifo::OwnerClaimError>),
}

/// What the caller observed.
pub enum ElectionEvent {
    Cancelled(bool),
    Lock(LockAttempt),
    Limits { cancelled: bool, deadline_passed: bool },
    Notified(Result<(), String>),
    OwnerAlive(bool),
}

/// What the caller does next.
pub enum ElectionAction {
    CheckCancelled,
    TryLock,
    CheckLimits,
    SleepThenTryLock,
    NotifyWaiting(crate::durable_fifo::DurableOwnerClaim),
    ProbeOwner(u32),
    SleepThenProbeOwner(u32),
    Finish(Result<DurableOwnerElection, DurableOwnerElectionError>),
}

/// An election in progress.
pub struct ElectionState {
    pub retrying: bool,
    pub max_owner_deaths: usize,
    pub previous_owner_process_ids: Vec<u32>,
    pub last_live_owner: Option<crate::durable_fifo::DurableOwnerClaim>,
    pub stage: ElectionStage,
}

/// The event a stage waits for.
pub open spec fn event_fits(stage: ElectionStage, e: ElectionEvent) -> bool {
    match stage {
        ElectionStage::Top => e is Cancelled,
        ElectionStage::Locking => e is Lock,
        ElectionStage::LockWait => e is Limits,
        ElectionStage::Notifying(_) => e is Notified,
        ElectionStage::Probing(_) => e is OwnerAlive,
        ElectionStage::OwnerWait(_) => e is Limits,
        ElectionStage::Done => false,
    }
}

pub open spec fn claim_view_of(c: Option<crate::durable_fifo::DurableOwnerClaim>) -> Option<crate::durable_fifo::OwnerClaimView> {
    match c {
        Some(x) => Some(x@),
        None => None,
    }
}

/// An election waits through at most `max_owner_deaths` owner deaths, and
/// through none without a retry.
pub open spec fn election_inv(s: ElectionState) -> bool {
    &&& s.previous_owner_process_ids@.len() <= (if s.retrying { s.max_owner_deaths as int } else { 0 })
    &&& (s.stage is Notifying || s.stage is Probing || s.stage is OwnerWait) ==>
            s.retrying && s.previous_owner_process_ids@.len() < s.max_owner_deaths
}

impl ElectionState {
    /// A new election; `retry` says whether and how long to wait for a live owner.
    pub fn new(retry: &Option<DurableOwnerRetry>) -> (r: Self)
        ensures
            r.retrying == retry is Some,
            retry matches Some(o) ==> r.max_owner_deaths == o.max_owner_deaths,
            r.previous_owner_process_ids@.len() == 0,
            r.last_live_owner is None,
            r.stage is Top,
            election_inv(r),
    {
        let max = match retry {
            Some(o) => o.max_owner_deaths,
            None => 0,
        };
        ElectionState {
            retrying: retry.is_some(),
            max_owner_deaths: max,
            previous_owner_process_ids: Vec::new(),
            last_live_owner: None,
            stage: ElectionStage::Top,
        }
    }
}

/// One step of an owner election: from what the caller observed, the next
/// stage and what the caller does. Every attempt runs under the lock; a
/// cancellation is observed only between attempts and while waiting.
pub fn election_step(state: &mut ElectionState, event: ElectionEvent) -> (action: ElectionAction)
    requires
        event_fits(old(state).stage, event),
    ensures
        final(state).retrying == old(state).retrying,
        final(state).max_owner_deaths == old(state).max_owner_deaths,
        election_inv(*old(state)) ==> election_inv(*final(state)),
        // an election ends, or the stage moves on
        action is Finish <==> final(state).stage is Done,
        match (old(state).stage, event) {
            (ElectionStage::Top, ElectionEvent::Cancelled(c)) =>
                if c { action matches ElectionAction::Finish(Err(DurableOwnerElectionError::Cancelled)) }
                else { action is TryLock && final(state).stage is Locking
                    && final(state).previous_owner_process_ids == old(state).previous_owner_process_ids
                    && final(state).last_live_owner == old(state).last_live_owner },
            (ElectionStage::Locking, ElectionEvent::Lock(LockAttempt::Failed(e))) =>
                action matches ElectionAction::Finish(Err(DurableOwnerElectionError::Durable(m))) && m == e,
            (ElectionStage::Locking, ElectionEvent::Lock(LockAttempt::PrepareFailed(e))) =>
                action matches ElectionAction::Finish(Err(DurableOwnerElectionError::Durable(m))) && m == e,
            (ElectionStage::Locking, ElectionEvent::Lock(LockAttempt::Busy)) =>
                if !old(state).retrying { action matches ElectionAction::Finish(Err(DurableOwnerElectionError::Busy)) }
                else { action is CheckLimits && final(state).stage is LockWait
                    && final(state).previous_owner_process_ids == old(state).previous_owner_process_ids
                    && final(state).last_live_owner == old(state).last_live_owner },
            (ElectionStage::Locking, ElectionEvent::Lock(LockAttempt::Claimed(Ok(crate::durable_fifo::OwnerClaimOutcome::Retained(c))))) =>
                action matches ElectionAction::Finish(Ok(el)) && el.claim == c
                    && el.previous_owner_process_ids@ == old(state).previous_owner_process_ids@,
            (ElectionStage::Locking, ElectionEvent::Lock(LockAttempt::Claimed(Ok(crate::durable_fifo::OwnerClaimOutcome::Published { claim, .. })))) =>
                action matches ElectionAction::Finish(Ok(el)) && el.claim == claim
                    && el.previous_owner_process_ids@ == old(state).previous_owner_process_ids@,
            (ElectionStage::Locking, ElectionEvent::Lock(LockAttempt::Claimed(Err(crate::durable_fifo::OwnerClaimError::Durable(e))))) =>
                action matches ElectionAction::Finish(Err(DurableOwnerElectionError::Durable(m))) && m == e,
            (ElectionStage::Locking, ElectionEvent::Lock(LockAttempt::Claimed(Err(crate::durable_fifo::OwnerClaimError::Live(c))))) =>
                if !old(state).retrying {
                    action matches ElectionAction::Finish(Err(DurableOwnerElectionError::Live(x))) && x == c
                } else if old(state).previous_owner_process_ids@.len() >= old(state).max_owner_deaths {
                    action matches ElectionAction::Finish(Err(DurableOwnerElectionError::RetryRejected { previous_owner_process_id, current_owner }))
                        && current_owner == c
                        && previous_owner_process_id == (if old(state).previous_owner_process_ids@.len() > 0 {
                            old(state).previous_owner_process_ids@.last() } else { c.process_id })
                } else {
                    (action matches ElectionAction::NotifyWaiting(x) && x@ == c@)
                        && (final(state).stage matches ElectionStage::Notifying(y) && y == c)
                        && final(state).previous_owner_process_ids == old(state).previous_owner_process_ids
                        && final(state).last_live_owner == old(state).last_live_owner
                },
            (ElectionStage::LockWait, ElectionEvent::Limits { cancelled, deadline_passed }) =>
                if cancelled { action matches ElectionAction::Finish(Err(DurableOwnerElectionError::Cancelled)) }
                else if deadline_passed {
                    action matches ElectionAction::Finish(Err(DurableOwnerElectionError::TimedOut(t)))
                        && claim_view_of(t) == claim_view_of(old(state).last_live_owner)
                } else { action is SleepThenTryLock && final(state).stage is Locking
                    && final(state).previous_owner_process_ids == old(state).previous_owner_process_ids
                    && final(state).last_live_owner == old(state).last_live_owner },
            (ElectionStage::Notifying(c), ElectionEvent::Notified(r)) =>
                match r {
                    Err(e) => action matches ElectionAction::Finish(Err(DurableOwnerElectionError::Durable(m))) && m == e,
                    Ok(_) => action == ElectionAction::ProbeOwner(c.process_id)
                        && (final(state).stage matches ElectionStage::Probing(y) && y@ == c@)
                        && claim_view_of(final(state).last_live_owner) == Some(c@)
                        && final(state).previous_owner_process_ids == old(state).previous_owner_process_ids,
                },
            (ElectionStage::Probing(c), ElectionEvent::OwnerAlive(alive)) =>
                if alive {
                    action is CheckLimits && (final(state).stage matches ElectionStage::OwnerWait(y) && y == c)
                        && final(state).previous_owner_process_ids == old(state).previous_owner_process_ids
                        && final(state).last_live_owner == old(state).last_live_owner
                } else {
                    action is CheckCancelled && final(state).stage is Top
                        && final(state).previous_owner_process_ids@ == old(state).previous_owner_process_ids@.push(c.process_id)
                        && final(state).last_live_owner == old(state).last_live_owner
                },
            (ElectionStage::OwnerWait(c), ElectionEvent::Limits { cancelled, deadline_passed }) =>
                if cancelled { action matches ElectionAction::Finish(Err(DurableOwnerElectionError::Cancelled)) }
                else if deadline_passed {
                    action matches ElectionAction::Finish(Err(DurableOwnerElectionError::TimedOut(Some(x)))) && x == c
                } else {
                    action == ElectionAction::SleepThenProbeOwner(c.process_id)
                        && (final(state).stage matches ElectionStage::Probing(y) && y == c)
                        && final(state).previous_owner_process_ids == old(state).previous_owner_process_ids
                        && final(state).last_live_owner == old(state).last_live_owner
                },
            _ => false,
        },
{
    let mut stage = ElectionStage::Done;
    std::mem::swap(&mut stage, &mut state.stage);
    match (stage, event) {
        (ElectionStage::Top, ElectionEvent::Cancelled(c)) => {
            if c {
                ElectionAction::Finish(Err(DurableOwnerElectionError::Cancelled))
            } else {
                state.stage = ElectionStage::Locking;
                ElectionAction::TryLock
            }
        },
        (ElectionStage::Locking, ElectionEvent::Lock(attempt)) => match attempt {
            LockAttempt::Failed(e) => ElectionAction::Finish(Err(DurableOwnerElectionError::Durable(e))),
            LockAttempt::PrepareFailed(e) => ElectionAction::Finish(Err(DurableOwnerElectionError::Durable(e))),
            LockAttempt::Busy => {
                if !state.retrying {
                    ElectionAction::Finish(Err(DurableOwnerElectionError::Busy))
                } else {
                    state.stage = ElectionStage::LockWait;
                    ElectionAction::CheckLimits
                }
            },
            LockAttempt::Claimed(outcome) => match outcome {
                Ok(crate::durable_fifo::OwnerClaimOutcome::Retained(claim)) => {
                    let ids = copy_ids(&state.previous_owner_process_ids);
                    ElectionAction::Finish(Ok(DurableOwnerElection { claim, previous_owner_process_ids: ids }))
                },
                Ok(crate::durable_fifo::OwnerClaimOutcome::Published { claim, .. }) => {
                    let ids = copy_ids(&state.previous_owner_process_ids);
                    ElectionAction::Finish(Ok(DurableOwnerElection { claim, previous_owner_process_ids: ids }))
                },
                Err(crate::durable_fifo::OwnerClaimError::Durable(e)) =>
                    ElectionAction::Finish(Err(DurableOwnerElectionError::Durable(e))),
                Err(crate::durable_fifo::OwnerClaimError::Live(claim)) => {
                    if !state.retrying {
                        ElectionAction::Finish(Err(DurableOwnerElectionError::Live(claim)))
                    } else if state.previous_owner_process_ids.len() >= state.max_owner_deaths {
                        let n = state.previous_owner_process_ids.len();
                        let previous = if n > 0 { state.previous_owner_process_ids[n - 1] } else { claim.process_id };
                        ElectionAction::Finish(Err(DurableOwnerElectionError::RetryRejected {
                            previous_owner_process_id: previous,
                            current_owner: claim,
                        }))
                    } else {
                        let copy = crate::durable_fifo::copy_claim(&claim);
                        state.stage = ElectionStage::Notifying(claim);
                        ElectionAction::NotifyWaiting(copy)
                    }
                },
            },
        },
        (ElectionStage::LockWait, ElectionEvent::Limits { cancelled, deadline_passed }) => {
            if cancelled {
                ElectionAction::Finish(Err(DurableOwnerElectionError::Cancelled))
            } else if deadline_passed {
                let last = match &state.last_live_owner {
                    Some(c) => Some(crate::durable_fifo::copy_claim(c)),
                    None => None,
                };
                ElectionAction::Finish(Err(DurableOwnerElectionError::TimedOut(last)))
            } else {
                state.stage = ElectionStage::Locking;
                ElectionAction::SleepThenTryLock
            }
        },
        (ElectionStage::Notifying(claim), ElectionEvent::Notified(r)) => match r {
            Err(e) => ElectionAction::Finish(Err(DurableOwnerElectionError::Durable(e))),
            Ok(()) => {
                let pid = claim.process_id;
                state.last_live_owner = Some(crate::durable_fifo::copy_claim(&claim));
                state.stage = ElectionStage::Probing(claim);
                ElectionAction::ProbeOwner(pid)
            },
        },
        (ElectionStage::Probing(claim), ElectionEvent::OwnerAlive(alive)) => {
            if alive {
                state.stage = ElectionStage::OwnerWait(claim);
                ElectionAction::CheckLimits
            } else {
                state.previous_owner_process_ids.push(claim.process_id);
                state.stage = ElectionStage::Top;
                ElectionAction::CheckCancelled
            }
        },
        (ElectionStage::OwnerWait(claim), ElectionEvent::Limits { cancelled, deadline_passed }) => {
            if cancelled {
                ElectionAction::Finish(Err(DurableOwnerElectionError::Cancelled))
            } else if deadline_passed {
                ElectionAction::Finish(Err(DurableOwnerElectionError::TimedOut(Some(claim))))
            } else {
                let pid = claim.process_id;
                state.stage = ElectionStage::Probing(claim);
                ElectionAction::SleepThenProbeOwner(pid)
            }
        },
        _ => ElectionAction::CheckCancelled,
    }
}

fn copy_ids(v: &Vec<u32>) -> (r: Vec<u32>)
    ensures
        r@ == v@,
{
    let mut r: Vec<u32> = Vec::new();
    let mut i: usize = 0;
    while i < v.len()
        invariant
            i <= v@.len(),
            r@ == v@.subrange(0, i as int),
        decreases v@.len() - i,
    {
        r.push(v[i]);
        i = i + 1;
    }
    assert(v@.subrange(0, v@.len() as int) =~= v@);
    r
}


pub open spec fn phase_name(p: DurableTransactionPhase) -> Seq<char> {
    match p {
        DurableTransactionPhase::Pending => "Pending"@,
        DurableTransactionPhase::CancellationPending => "CancellationPending"@,
        DurableTransactionPhase::Committed => "Committed"@,
        DurableTransactionPhase::Terminal => "Terminal"@,
        DurableTransactionPhase::Acknowledged => "Acknowledged"@,
    }
}

fn phase_name_exec(p: DurableTransactionPhase) -> (r: String)
    ensures
        r@ == phase_name(p),
{
    match p {
        DurableTransactionPhase::Pending => msg("Pending"),
        DurableTransactionPhase::CancellationPending => msg("CancellationPending"),
        DurableTransactionPhase::Committed => msg("Committed"),
        DurableTransactionPhase::Terminal => msg("Terminal"),
        DurableTransactionPhase::Acknowledged => msg("Acknowledged"),
    }
}

/// Index of the first record with id `id`.
pub open spec fn first_id<T: DurableTransactionRecord>(q: Seq<T>, id: Seq<char>) -> Option<int>
    decreases q.len(),
{
    if q.len() == 0 {
        None
    } else if q[0].spec_id() == id {
        Some(0)
    } else {
        match first_id(q.drop_first(), id) {
            Some(i) => Some(i + 1),
            None => None,
        }
    }
}

proof fn lemma_first_id<T: DurableTransactionRecord>(q: Seq<T>, id: Seq<char>, i: int)
    requires
        0 <= i <= q.len(),
        forall|j: int| 0 <= j < i ==> (#[trigger] q[j]).spec_id() != id,
    ensures
        i < q.len() && q[i].spec_id() == id ==> first_id(q, id) == Some(i),
        i == q.len() ==> first_id(q, id) is None,
    decreases q.len(),
{
    if q.len() > 0 && i > 0 {
        let d = q.drop_first();
        assert forall|j: int| 0 <= j < i - 1 implies (#[trigger] d[j]).spec_id() != id by {
            assert(d[j] == q[j + 1]);
        }
        lemma_first_id(d, id, i - 1);
        if i < q.len() {
            assert(d[i - 1] == q[i]);
        }
    }
}

proof fn lemma_first_id_found<T: DurableTransactionRecord>(q: Seq<T>, id: Seq<char>)
    ensures
        first_id(q, id) matches Some(i) ==> 0 <= i < q.len() && q[i].spec_id() == id
            && forall|j: int| 0 <= j < i ==> (#[trigger] q[j]).spec_id() != id,
        first_id(q, id) is None ==> forall|j: int| 0 <= j < q.len() ==> (#[trigger] q[j]).spec_id() != id,
    decreases q.len(),
{
    if q.len() > 0 && q[0].spec_id() != id {
        let d = q.drop_first();
        lemma_first_id_found(d, id);
        match first_id(d, id) {
            Some(k) => {
                assert(q[k + 1] == d[k]);
                assert forall|j: int| 0 <= j < k + 1 implies (#[trigger] q[j]).spec_id() != id by {
                    if j > 0 { assert(q[j] == d[j - 1]); }
                }
            },
            None => {
                assert forall|j: int| 0 <= j < q.len() implies (#[trigger] q[j]).spec_id() != id by {
                    if j > 0 { assert(q[j] == d[j - 1]); }
                }
            },
        }
    }
}

/// The predicate "has id `id`".
pub open spec fn has_id<T: DurableTransactionRecord>(id: Seq<char>) -> spec_fn(T) -> bool {
    |x: T| x.spec_id() == id
}

/// Position of the first terminal record with id `id`.
fn parked_position<T: DurableTransactionRecord>(q: &Vec<T>, id: &str) -> (r: Option<usize>)
    ensures
        r matches Some(i) ==> i < q@.len() && first_parked(q@, id@) == Some(i as int),
        r is None ==> first_parked(q@, id@) is None,
{
    let mut i: usize = 0;
    while i < q.len()
        invariant
            i <= q@.len(),
            forall|j: int| 0 <= j < i ==> !((#[trigger] q@[j]).spec_id() == id@ && phase_terminal(q@[j].spec_phase())),
        decreases q@.len() - i,
    {
        if str_eq(q[i].transaction_id(), id) && q[i].transaction_phase().is_terminal() {
            proof { lemma_first_parked(q@, id@, i as int); }
            return Some(i);
        }
        i = i + 1;
    }
    proof { lemma_first_parked(q@, id@, i as int); }
    None
}

proof fn lemma_first_parked<T: DurableTransactionRecord>(q: Seq<T>, id: Seq<char>, i: int)
    requires
        0 <= i <= q.len(),
        forall|j: int| 0 <= j < i ==> !((#[trigger] q[j]).spec_id() == id && phase_terminal(q[j].spec_phase())),
    ensures
        i < q.len() && q[i].spec_id() == id && phase_terminal(q[i].spec_phase()) ==> first_parked(q, id) == Some(i),
        i == q.len() ==> first_parked(q, id) is None,
    decreases q.len(),
{
    if q.len() > 0 && i > 0 {
        let d = q.drop_first();
        assert forall|j: int| 0 <= j < i - 1 implies !((#[trigger] d[j]).spec_id() == id && phase_terminal(d[j].spec_phase())) by {
            assert(d[j] == q[j + 1]);
        }
        lemma_first_parked(d, id, i - 1);
        if i < q.len() {
            assert(d[i - 1] == q[i]);
        }
    }
}

/// Position of the first record with id `id`.
fn position_of<T: DurableTransactionRecord>(q: &Vec<T>, id: &str) -> (r: Option<usize>)
    ensures
        r matches Some(i) ==> i < q@.len() && first_id(q@, id@) == Some(i as int),
        r is None ==> first_id(q@, id@) is None,
{
    let mut i: usize = 0;
    while i < q.len()
        invariant
            i <= q@.len(),
            forall|j: int| 0 <= j < i ==> (#[trigger] q@[j]).spec_id() != id@,
        decreases q@.len() - i,
    {
        if str_eq(q[i].transaction_id(), id) {
            proof { lemma_first_id(q@, id@, i as int); }
            return Some(i);
        }
        i = i + 1;
    }
    proof { lemma_first_id(q@, id@, i as int); }
    None
}

/// The sole terminal decision recorded for an id: `Ok(None)` where there is
/// none, `Err(())` where two terminal rows for the id differ.
pub open spec fn terminal_of<T: DurableTransactionRecord>(h: Seq<T>, id: Seq<char>) -> Result<Option<T>, ()>
    decreases h.len(),
{
    if h.len() == 0 {
        Ok(None)
    } else {
        match terminal_of(h.drop_last(), id) {
            Err(()) => Err(()),
            Ok(acc) => {
                let r = h.last();
                if r.spec_id() == id && phase_terminal(r.spec_phase()) {
                    match acc {
                        Some(e) => if e == r { Ok(Some(e)) } else { Err(()) },
                        None => Ok(Some(r)),
                    }
                } else {
                    Ok(acc)
                }
            },
        }
    }
}

/// A durable publication the caller performs, in order, after a workflow step.
pub enum WorkflowStep<T> {
    /// Publish the active queue with these rows.
    PublishQueue(Vec<T>),
    /// Remove the active queue's files.
    ClearQueue,
    /// Append this row to the terminal history.
    AppendHistory(T),
    /// Run the domain cleanup for this row.
    Cleanup(T),
    /// A named crash boundary.
    Checkpoint(String),
}

/// A publication step, by the values it carries.
pub ghost enum StepView<T> {
    PublishQueue(Seq<T>),
    ClearQueue,
    AppendHistory(T),
    Cleanup(T),
    Checkpoint(Seq<char>),
}

pub open spec fn step_view<T>(s: WorkflowStep<T>) -> StepView<T> {
    match s {
        WorkflowStep::PublishQueue(v) => StepView::PublishQueue(v@),
        WorkflowStep::ClearQueue => StepView::ClearQueue,
        WorkflowStep::AppendHistory(x) => StepView::AppendHistory(x),
        WorkflowStep::Cleanup(x) => StepView::Cleanup(x),
        WorkflowStep::Checkpoint(m) => StepView::Checkpoint(m@),
    }
}

pub open spec fn steps_view<T>(v: Seq<WorkflowStep<T>>) -> Seq<StepView<T>> {
    v.map_values(|s: WorkflowStep<T>| step_view(s))
}

/// Publish the queue's rows, or remove its files where it is empty.
pub open spec fn publish_or_clear<T>(q: Seq<T>) -> StepView<T> {
    if q.len() == 0 { StepView::ClearQueue } else { StepView::PublishQueue(q) }
}

/// A terminal acknowledgement that does not fit its id.
pub open spec fn ack_bad<T: DurableTransactionRecord>(id: Seq<char>, t: T) -> bool {
    t.spec_id() != id || !phase_terminal(t.spec_phase())
}

/// Index of the first terminal row with the id.
pub open spec fn first_parked<T: DurableTransactionRecord>(q: Seq<T>, id: Seq<char>) -> Option<int>
    decreases q.len(),
{
    if q.len() == 0 {
        None
    } else if q[0].spec_id() == id && phase_terminal(q[0].spec_phase()) {
        Some(0)
    } else {
        match first_parked(q.drop_first(), id) {
            Some(i) => Some(i + 1),
            None => None,
        }
    }
}

/// The queue without the first row of the id.
pub open spec fn without_id<T: DurableTransactionRecord>(q: Seq<T>, id: Seq<char>) -> Seq<T> {
    match first_id(q, id) {
        Some(i) => q.remove(i),
        None => q,
    }
}

/// The publications after the terminal is parked: archive, cleanup, queue compaction.
pub open spec fn publish_tail<T: DurableTransactionRecord>(q1: Seq<T>, id: Seq<char>, t: T) -> Seq<StepView<T>> {
    seq![StepView::AppendHistory(t), StepView::Checkpoint("after_terminal_history_publish"@), StepView::Cleanup(t),
        publish_or_clear(without_id(q1, id)), StepView::Checkpoint("after_ack_queue_compaction"@)]
}

/// An acknowledgement already archived: the row, if still queued, is cleaned up
/// and removed.
pub open spec fn already_published<T: DurableTransactionRecord>(q0: Seq<T>, id: Seq<char>, e: T,
    r: Result<(DurableAcknowledgement<T>, Vec<WorkflowStep<T>>), String>, q: Seq<T>) -> bool {
    &&& r is Ok
    &&& r->Ok_0.0 == DurableAcknowledgement::AlreadyPublished(e)
    &&& q == without_id(q0, id)
    &&& steps_view(r->Ok_0.1@) == (if first_id(q0, id) is Some {
            seq![StepView::Cleanup(e), publish_or_clear(q), StepView::Checkpoint("after_ack_queue_compaction"@)]
        } else { seq![] })
}

/// A newly published acknowledgement from the parked queue `q1`.
pub open spec fn published<T: DurableTransactionRecord>(q0: Seq<T>, q1: Seq<T>, id: Seq<char>, t: T, before: Seq<StepView<T>>,
    r: Result<(DurableAcknowledgement<T>, Vec<WorkflowStep<T>>), String>, q: Seq<T>) -> bool {
    &&& r is Ok
    &&& r->Ok_0.0 == DurableAcknowledgement::Published(t)
    &&& q == without_id(q1, id)
    &&& steps_view(r->Ok_0.1@) == before + publish_tail(q1, id, t)
}

/// The terminal replaces the head row in place, the parked queue is published,
/// then the terminal is archived and the row removed.
pub open spec fn parked_then_published<T: DurableTransactionRecord>(q0: Seq<T>, id: Seq<char>, t: T,
    r: Result<(DurableAcknowledgement<T>, Vec<WorkflowStep<T>>), String>, q: Seq<T>) -> bool {
    let k = first_id(q0, id)->0;
    let q1 = q0.update(k, t);
    &&& phase_allows(q0[k].spec_phase(), t.spec_phase())
    &&& published(q0, q1, id, t,
        seq![StepView::PublishQueue(q1), StepView::Checkpoint("after_terminal_queue_publish"@)], r, q)
}

/// One opened transaction queue and its terminal history, in memory.
pub struct DurableTransactionWorkflow<T: DurableTransactionRecord> {
    pub scope: String,
    pub layout: DurableTransactionLayout,
    pub queue: crate::durable_fifo::DurableFifoState<T>,
    pub history: Vec<T>,
    pub imported_legacy_history: bool,
}

/// Row `i` is the first the predicate accepted.
pub open spec fn head_at<T, P: Fn(&T) -> bool>(q: Seq<T>, p: P, i: int) -> bool {
    &&& 0 <= i < q.len()
    &&& p.ensures((&q[i],), true)
    &&& forall|j: int| 0 <= j < i ==> p.ensures((&q[j],), false)
}

/// Row `i` is the first with the id that the predicate accepted.
pub open spec fn receipt_at<T: DurableTransactionRecord, P: Fn(&T) -> bool>(q: Seq<T>, id: Seq<char>, p: P, i: int) -> bool {
    &&& 0 <= i < q.len()
    &&& q[i].spec_id() == id
    &&& p.ensures((&q[i],), true)
    &&& forall|j: int| 0 <= j < i && (#[trigger] q[j]).spec_id() == id ==> p.ensures((&q[j],), false)
}

/// Everything but the queue's rows (and the history, where said) is unchanged.
pub open spec fn keeps_rest<T: DurableTransactionRecord>(a: DurableTransactionWorkflow<T>, b: DurableTransactionWorkflow<T>) -> bool {
    &&& a.scope == b.scope
    &&& a.layout == b.layout
    &&& a.history == b.history
    &&& a.imported_legacy_history == b.imported_legacy_history
    &&& a.queue.version == b.queue.version
    &&& a.queue.scope == b.queue.scope
    &&& a.queue.revision == b.queue.revision
    &&& a.queue.updated_unix_ms == b.queue.updated_unix_ms
}

/// Once two terminal rows disagree, longer histories disagree too.
proof fn lemma_terminal_err_sticks<T: DurableTransactionRecord>(h: Seq<T>, id: Seq<char>, k: int)
    requires
        0 <= k <= h.len(),
        terminal_of(h.subrange(0, k), id) is Err,
    ensures
        terminal_of(h, id) is Err,
    decreases h.len() - k,
{
    if k < h.len() {
        let s1 = h.subrange(0, k + 1);
        assert(s1.drop_last() =~= h.subrange(0, k));
        lemma_terminal_err_sticks(h, id, k + 1);
    } else {
        assert(h.subrange(0, k) =~= h);
    }
}

fn copy_records<T: DurableTransactionRecord>(v: &Vec<T>) -> (r: Vec<T>)
    ensures
        r@ == v@,
{
    let mut r: Vec<T> = Vec::new();
    let mut i: usize = 0;
    while i < v.len()
        invariant
            i <= v@.len(),
            r@ == v@.subrange(0, i as int),
        decreases v@.len() - i,
    {
        r.push(v[i].duplicate());
        i = i + 1;
    }
    assert(v@.subrange(0, v@.len() as int) =~= v@);
    r
}

impl<T: DurableTransactionRecord> DurableTransactionWorkflow<T> {
    /// A workflow over stores the caller has opened and recovered.
    pub fn from_parts(
        scope: String,
        layout: DurableTransactionLayout,
        queue: crate::durable_fifo::DurableFifoState<T>,
        history: Vec<T>,
        imported_legacy_history: bool,
    ) -> (r: Self)
        ensures
            r.scope == scope,
            r.layout == layout,
            r.queue == queue,
            r.history == history,
            r.imported_legacy_history == imported_legacy_history,
    {
        DurableTransactionWorkflow { scope, layout, queue, history, imported_legacy_history }
    }

    pub fn queue(&self) -> (r: &crate::durable_fifo::DurableFifoState<T>)
        ensures
            *r == self.queue,
    {
        &self.queue
    }

    pub fn queue_mut(&mut self) -> (r: &mut crate::durable_fifo::DurableFifoState<T>)
        ensures
            *r == old(self).queue,
            final(self).queue == *final(r),
            final(self).history == old(self).history,
            final(self).scope == old(self).scope,
    {
        &mut self.queue
    }

    pub fn into_queue(self) -> (r: crate::durable_fifo::DurableFifoState<T>)
        ensures
            r == self.queue,
    {
        self.queue
    }

    pub fn into_history(self) -> (r: Vec<T>)
        ensures
            r == self.history,
    {
        self.history
    }

    pub fn imported_legacy_history(&self) -> (r: bool)
        ensures
            r == self.imported_legacy_history,
    {
        self.imported_legacy_history
    }

    /// Insert or replace one record without changing its FIFO position; a
    /// replacement must be an allowed phase transition.
    pub fn upsert(&mut self, record: T) -> (r: Result<(), String>)
        ensures
            keeps_rest(*old(self), *final(self)),
            record.spec_id().len() == 0 ==> (r matches Err(m) && m@ == "durable transaction id is empty"@)
                && final(self).queue.batches@ == old(self).queue.batches@,
            record.spec_id().len() > 0 ==> match first_id(old(self).queue.batches@, record.spec_id()) {
                Some(i) => if phase_allows(old(self).queue.batches@[i].spec_phase(), record.spec_phase()) {
                    r is Ok && final(self).queue.batches@ == old(self).queue.batches@.update(i, record)
                } else {
                    (r matches Err(m) && m@ == "invalid durable transaction transition "@
                        + phase_name(old(self).queue.batches@[i].spec_phase()) + " -> "@
                        + phase_name(record.spec_phase()) + " for "@ + record.spec_id())
                    && final(self).queue.batches@ == old(self).queue.batches@
                },
                None => r is Ok && final(self).queue.batches@ == old(self).queue.batches@.push(record),
            },
    {
        let id = record.transaction_id().to_owned();
        if id.as_str().is_empty() {
            return Err(msg("durable transaction id is empty"));
        }
        match position_of(&self.queue.batches, id.as_str()) {
            Some(i) => {
                proof { lemma_first_id_found(self.queue.batches@, id@); }
                let current = self.queue.batches[i].transaction_phase();
                let next = record.transaction_phase();
                if !current.allows(next) {
                    let a = phase_name_exec(current);
                    let b = phase_name_exec(next);
                    let m1 = concat_str("invalid durable transaction transition ", a.as_str());
                    let m2 = concat_str(m1.as_str(), " -> ");
                    let m3 = concat_str(m2.as_str(), b.as_str());
                    let m4 = concat_str(m3.as_str(), " for ");
                    return Err(concat_str(m4.as_str(), id.as_str()));
                }
                self.queue.batches.set(i, record);
            },
            None => {
                self.queue.batches.push(record);
            },
        }
        Ok(())
    }

    /// Remove the first record with the id, returning it.
    pub fn remove(&mut self, transaction_id: &str) -> (r: Option<T>)
        ensures
            keeps_rest(*old(self), *final(self)),
            match first_id(old(self).queue.batches@, transaction_id@) {
                Some(i) => r == Some(old(self).queue.batches@[i])
                    && final(self).queue.batches@ == old(self).queue.batches@.remove(i),
                None => r is None && final(self).queue.batches@ == old(self).queue.batches@,
            },
    {
        match position_of(&self.queue.batches, transaction_id) {
            Some(i) => Some(self.queue.batches.remove(i)),
            None => None,
        }
    }

    /// Empty the active queue; the caller removes its files.
    pub fn clear_queue(&mut self) -> (steps: Vec<WorkflowStep<T>>)
        ensures
            keeps_rest(*old(self), *final(self)),
            final(self).queue.batches@.len() == 0,
            steps@.len() == 1 && steps@[0] is ClearQueue,
    {
        self.queue.batches.clear();
        vec![WorkflowStep::ClearQueue]
    }

    /// The publication that leaves the queue as it is now: its rows, or the
    /// removal of its files where it is empty.
    pub fn persist_or_clear_queue(&self) -> (step: WorkflowStep<T>)
        ensures
            self.queue.batches@.len() == 0 ==> step is ClearQueue,
            self.queue.batches@.len() > 0 ==> (step matches WorkflowStep::PublishQueue(rows) && rows@ == self.queue.batches@),
    {
        if self.queue.batches.len() == 0 {
            WorkflowStep::ClearQueue
        } else {
            WorkflowStep::PublishQueue(copy_records(&self.queue.batches))
        }
    }

    /// The sole terminal decision for an id; repeated equal rows are accepted,
    /// contradictory ones fail closed.
    pub fn terminal_record(&self, transaction_id: &str) -> (r: Result<Option<T>, String>)
        ensures
            match terminal_of(self.history@, transaction_id@) {
                Ok(x) => r == Ok::<Option<T>, String>(x),
                Err(_) => r matches Err(m) && m@ == "durable transaction terminal result disagrees for "@ + transaction_id@,
            },
    {
        let mut acc: Option<T> = None;
        let mut i: usize = 0;
        while i < self.history.len()
            invariant
                i <= self.history@.len(),
                terminal_of(self.history@.subrange(0, i as int), transaction_id@) == Ok::<Option<T>, ()>(acc),
            decreases self.history@.len() - i,
        {
            let ghost sub1 = self.history@.subrange(0, i + 1);
            assert(sub1.drop_last() =~= self.history@.subrange(0, i as int));
            assert(sub1.last() == self.history@[i as int]);
            let rec = &self.history[i];
            if str_eq(rec.transaction_id(), transaction_id) && rec.transaction_phase().is_terminal() {
                match &acc {
                    Some(e) => {
                        if !e.same_record(rec) {
                            proof {
                                lemma_terminal_err_sticks(self.history@, transaction_id@, i + 1);
                            }
                            return Err(concat_str("durable transaction terminal result disagrees for ", transaction_id));
                        }
                    },
                    None => {
                        acc = Some(rec.duplicate());
                    },
                }
            }
            i = i + 1;
        }
        assert(self.history@.subrange(0, self.history@.len() as int) =~= self.history@);
        Ok(acc)
    }

    /// Append a terminal decision exactly once: an equal decision already
    /// recorded is not appended again (`false`), a different one is refused.
    pub fn append_terminal(&mut self, terminal: T) -> (r: Result<bool, String>)
        ensures
            final(self).queue == old(self).queue,
            final(self).scope == old(self).scope,
            final(self).layout == old(self).layout,
            final(self).imported_legacy_history == old(self).imported_legacy_history,
            !phase_terminal(terminal.spec_phase()) ==> (r matches Err(m)
                && m@ == "durable transaction "@ + terminal.spec_id() + " is not terminal"@)
                && final(self).history == old(self).history,
            phase_terminal(terminal.spec_phase()) ==> match terminal_of(old(self).history@, terminal.spec_id()) {
                Err(_) => (r matches Err(m) && m@ == "durable transaction terminal result disagrees for "@ + terminal.spec_id())
                    && final(self).history == old(self).history,
                Ok(Some(e)) => if e == terminal { r == Ok::<bool, String>(false) && final(self).history == old(self).history }
                    else { (r matches Err(m) && m@ == "durable transaction terminal result disagrees for "@ + terminal.spec_id())
                        && final(self).history == old(self).history },
                Ok(None) => r == Ok::<bool, String>(true) && final(self).history@ == old(self).history@.push(terminal),
            },
    {
        let id = terminal.transaction_id().to_owned();
        if !terminal.transaction_phase().is_terminal() {
            let a = concat_str("durable transaction ", id.as_str());
            return Err(concat_str(a.as_str(), " is not terminal"));
        }
        match self.terminal_record(id.as_str()) {
            Err(e) => Err(e),
            Ok(Some(existing)) => {
                if !existing.same_record(&terminal) {
                    Err(concat_str("durable transaction terminal result disagrees for ", id.as_str()))
                } else {
                    Ok(false)
                }
            },
            Ok(None) => {
                self.history.push(terminal);
                Ok(true)
            },
        }
    }

    /// The first queued record the predicate accepts, in FIFO order.
    pub fn dispatch_head<P: Fn(&T) -> bool>(&self, is_dispatchable: &P) -> (r: Option<T>)
        requires
            forall|x: &T| #[trigger] is_dispatchable.requires((x,)),
        ensures
            r is Some ==> exists|i: int| #[trigger] head_at(self.queue.batches@, *is_dispatchable, i)
                && r->0 == self.queue.batches@[i],
            r is None ==> forall|j: int| 0 <= j < self.queue.batches@.len()
                ==> is_dispatchable.ensures((&self.queue.batches@[j],), false),
    {
        let q = &self.queue.batches;
        let mut i: usize = 0;
        while i < q.len()
            invariant
                i <= q@.len(),
                q@ == self.queue.batches@,
                forall|x: &T| #[trigger] is_dispatchable.requires((x,)),
                forall|j: int| 0 <= j < i ==> is_dispatchable.ensures((&q@[j],), false),
            decreases q@.len() - i,
        {
            let ok = is_dispatchable(&q[i]);
            if ok {
                let d = q[i].duplicate();
                assert(head_at(self.queue.batches@, *is_dispatchable, i as int) && d == self.queue.batches@[i as int]);
                return Some(d);
            }
            i = i + 1;
        }
        None
    }

    /// Discover one exact receipt for an id without changing queue order.
    pub fn receipt<P: Fn(&T) -> bool>(&self, transaction_id: &str, is_receipt: &P) -> (r: Option<T>)
        requires
            forall|x: &T| #[trigger] is_receipt.requires((x,)),
        ensures
            r is Some ==> exists|i: int| #[trigger] receipt_at(self.queue.batches@, transaction_id@, *is_receipt, i)
                && r->0 == self.queue.batches@[i],
            r is None ==> forall|j: int| 0 <= j < self.queue.batches@.len() && (#[trigger] self.queue.batches@[j]).spec_id() == transaction_id@
                ==> is_receipt.ensures((&self.queue.batches@[j],), false),
    {
        let q = &self.queue.batches;
        let mut i: usize = 0;
        while i < q.len()
            invariant
                i <= q@.len(),
                q@ == self.queue.batches@,
                forall|x: &T| #[trigger] is_receipt.requires((x,)),
                forall|j: int| 0 <= j < i && (#[trigger] q@[j]).spec_id() == transaction_id@ ==> is_receipt.ensures((&q@[j],), false),
            decreases q@.len() - i,
        {
            if str_eq(q[i].transaction_id(), transaction_id) {
                let ok = is_receipt(&q[i]);
                if ok {
                    let d = q[i].duplicate();
                    assert(receipt_at(self.queue.batches@, transaction_id@, *is_receipt, i as int) && d == self.queue.batches@[i as int]);
                    return Some(d);
                }
            }
            i = i + 1;
        }
        None
    }

    /// Record a cancellation intent in place, keeping the target's FIFO
    /// position even when it is not the dispatch head; the queue is then
    /// published.
    pub fn persist_cancellation_intent(&mut self, transaction_id: &str, cancelling: T) -> (r: Result<Vec<WorkflowStep<T>>, String>)
        ensures
            keeps_rest(*old(self), *final(self)),
            (cancelling.spec_id() != transaction_id@ || cancelling.spec_phase() != DurableTransactionPhase::CancellationPending)
                ==> (r matches Err(m) && m@ == "invalid durable cancellation intent for "@ + transaction_id@)
                    && final(self).queue.batches@ == old(self).queue.batches@,
            (cancelling.spec_id() == transaction_id@ && cancelling.spec_phase() == DurableTransactionPhase::CancellationPending)
                ==> match first_id(old(self).queue.batches@, transaction_id@) {
                    None => (r matches Err(m) && m@ == "unknown durable transaction cancellation target "@ + transaction_id@)
                        && final(self).queue.batches@ == old(self).queue.batches@,
                    Some(i) => if transaction_id@.len() > 0 && phase_allows(old(self).queue.batches@[i].spec_phase(), cancelling.spec_phase()) {
                        final(self).queue.batches@ == old(self).queue.batches@.update(i, cancelling)
                            && (r matches Ok(steps) && steps_view(steps@) == seq![StepView::PublishQueue(final(self).queue.batches@)])
                    } else {
                        r is Err && final(self).queue.batches@ == old(self).queue.batches@
                    },
                },
    {
        if !str_eq(cancelling.transaction_id(), transaction_id)
            || cancelling.transaction_phase() != DurableTransactionPhase::CancellationPending {
            return Err(concat_str("invalid durable cancellation intent for ", transaction_id));
        }
        if position_of(&self.queue.batches, transaction_id).is_none() {
            return Err(concat_str("unknown durable transaction cancellation target ", transaction_id));
        }
        match self.upsert(cancelling) {
            Err(e) => Err(e),
            Ok(()) => {
                let rows = copy_records(&self.queue.batches);
                let steps = vec![WorkflowStep::PublishQueue(rows)];
                assert(steps_view(steps@) =~= seq![StepView::PublishQueue(self.queue.batches@)]);
                Ok(steps)
            },
        }
    }

    /// Converge a dispatch acknowledgement. The terminal is first parked in the
    /// active queue (unless it is already there), then archived, then its domain
    /// cleanup runs, and only then is the queue row removed; the publications are
    /// returned in that order, with the crash boundaries between them.
    pub fn acknowledge_head<P: Fn(&T) -> bool>(&mut self, transaction_id: &str, terminal: T, is_dispatchable: &P)
        -> (r: Result<(DurableAcknowledgement<T>, Vec<WorkflowStep<T>>), String>)
        requires
            forall|x: &T| #[trigger] is_dispatchable.requires((x,)),
        ensures
            final(self).scope == old(self).scope,
            final(self).layout == old(self).layout,
            final(self).imported_legacy_history == old(self).imported_legacy_history,
            final(self).queue.revision == old(self).queue.revision,
            final(self).queue.scope == old(self).queue.scope,
            r is Err ==> final(self).queue.batches@ == old(self).queue.batches@ && final(self).history@ == old(self).history@,
            ack_bad(transaction_id@, terminal) ==>
                (r matches Err(m) && m@ == "invalid durable transaction terminal acknowledgement "@ + transaction_id@),
            !ack_bad(transaction_id@, terminal) ==> match terminal_of(old(self).history@, transaction_id@) {
                Err(_) => r matches Err(m) && m@ == "durable transaction terminal result disagrees for "@ + transaction_id@,
                Ok(Some(e)) => if e != terminal {
                    r matches Err(m) && m@ == "durable transaction acknowledgement disagrees for "@ + transaction_id@
                } else {
                    already_published(old(self).queue.batches@, transaction_id@, e, r, final(self).queue.batches@)
                        && final(self).history@ == old(self).history@
                },
                Ok(None) => match first_parked(old(self).queue.batches@, transaction_id@) {
                    Some(j) => if old(self).queue.batches@[j] != terminal {
                        r matches Err(m) && m@ == "durable transaction acknowledgement disagrees for "@ + transaction_id@
                    } else {
                        published(old(self).queue.batches@, old(self).queue.batches@, transaction_id@, terminal, seq![], r,
                            final(self).queue.batches@)
                            && final(self).history@ == old(self).history@.push(terminal)
                    },
                    None => {
                        &&& r is Ok ==> exists|i: int| #[trigger] head_at(old(self).queue.batches@, *is_dispatchable, i)
                            && old(self).queue.batches@[i].spec_id() == transaction_id@
                            && first_id(old(self).queue.batches@, transaction_id@) is Some
                            && parked_then_published(old(self).queue.batches@, transaction_id@, terminal, r, final(self).queue.batches@)
                            && final(self).history@ == old(self).history@.push(terminal)
                        &&& r is Err ==> {
                            ||| (forall|j: int| 0 <= j < old(self).queue.batches@.len()
                                    ==> is_dispatchable.ensures((&old(self).queue.batches@[j],), false))
                                && (r matches Err(m) && m@ == "unknown durable transaction acknowledgement "@ + transaction_id@)
                            ||| exists|i: int| #[trigger] head_at(old(self).queue.batches@, *is_dispatchable, i)
                                && old(self).queue.batches@[i].spec_id() != transaction_id@
                                && (r matches Err(m) && m@ == "durable transaction FIFO head is "@
                                    + old(self).queue.batches@[i].spec_id() + ", not "@ + transaction_id@)
                            ||| exists|i: int| #[trigger] head_at(old(self).queue.batches@, *is_dispatchable, i)
                                && old(self).queue.batches@[i].spec_id() == transaction_id@
                                && first_id(old(self).queue.batches@, transaction_id@) is Some
                                && (transaction_id@.len() == 0
                                    || !phase_allows(old(self).queue.batches@[first_id(old(self).queue.batches@, transaction_id@)->0].spec_phase(), terminal.spec_phase()))
                        }
                    },
                },
            },
    {
        if !str_eq(terminal.transaction_id(), transaction_id) || !terminal.transaction_phase().is_terminal() {
            return Err(concat_str("invalid durable transaction terminal acknowledgement ", transaction_id));
        }
        match self.terminal_record(transaction_id) {
            Err(e) => { return Err(e); },
            Ok(Some(existing)) => {
                if !existing.same_record(&terminal) {
                    return Err(concat_str("durable transaction acknowledgement disagrees for ", transaction_id));
                }
                let mut steps: Vec<WorkflowStep<T>> = Vec::new();
                let ghost q0 = self.queue.batches@;
                if position_of(&self.queue.batches, transaction_id).is_some() {
                    steps.push(WorkflowStep::Cleanup(existing.duplicate()));
                    self.remove(transaction_id);
                    steps.push(self.persist_or_clear_queue());
                    steps.push(WorkflowStep::Checkpoint(msg("after_ack_queue_compaction")));
                    assert(steps_view(steps@) =~= seq![StepView::Cleanup(existing), publish_or_clear(self.queue.batches@),
                        StepView::Checkpoint("after_ack_queue_compaction"@)]);
                } else {
                    assert(steps_view(steps@) =~= seq![]);
                }
                return Ok((DurableAcknowledgement::AlreadyPublished(existing), steps));
            },
            Ok(None) => {},
        }
        let ghost q0 = self.queue.batches@;
        let mut steps: Vec<WorkflowStep<T>> = Vec::new();
        match parked_position(&self.queue.batches, transaction_id) {
            Some(j) => {
                if !self.queue.batches[j].same_record(&terminal) {
                    return Err(concat_str("durable transaction acknowledgement disagrees for ", transaction_id));
                }
                assert(steps_view(steps@) =~= seq![]);
            },
            None => {
                let head = self.dispatch_head(is_dispatchable);
                match head {
                    None => {
                        return Err(concat_str("unknown durable transaction acknowledgement ", transaction_id));
                    },
                    Some(h) => {
                        if !str_eq(h.transaction_id(), transaction_id) {
                            let a = concat_str("durable transaction FIFO head is ", h.transaction_id());
                            let b = concat_str(a.as_str(), ", not ");
                            return Err(concat_str(b.as_str(), transaction_id));
                        }
                    },
                }
                proof {
                    let i = choose|i: int| #[trigger] head_at(q0, *is_dispatchable, i) && head->0 == q0[i];
                    lemma_first_id(q0, transaction_id@, 0);
                    lemma_first_id_found(q0, transaction_id@);
                    if first_id(q0, transaction_id@) is None {
                        assert(q0[i].spec_id() != transaction_id@);
                    }
                }
                match self.upsert(terminal.duplicate()) {
                    Err(e) => { return Err(e); },
                    Ok(()) => {},
                }
                steps.push(WorkflowStep::PublishQueue(copy_records(&self.queue.batches)));
                steps.push(WorkflowStep::Checkpoint(msg("after_terminal_queue_publish")));
                assert(self.queue.batches@ == q0.update(first_id(q0, transaction_id@)->0, terminal));
                assert(steps_view(steps@) =~= seq![StepView::PublishQueue(q0.update(first_id(q0, transaction_id@)->0, terminal)),
                    StepView::Checkpoint("after_terminal_queue_publish"@)]);
            },
        }
        let ghost q1 = self.queue.batches@;
        let ghost pre = steps_view(steps@);
        let _archived = self.append_terminal(terminal.duplicate());
        assert(self.history@ == old(self).history@.push(terminal));
        steps.push(WorkflowStep::AppendHistory(terminal.duplicate()));
        steps.push(WorkflowStep::Checkpoint(msg("after_terminal_history_publish")));
        steps.push(WorkflowStep::Cleanup(terminal.duplicate()));
        self.remove(transaction_id);
        steps.push(self.persist_or_clear_queue());
        steps.push(WorkflowStep::Checkpoint(msg("after_ack_queue_compaction")));
        assert(steps_view(steps@) =~= pre + publish_tail(q1, transaction_id@, terminal));
        Ok((DurableAcknowledgement::Published(terminal), steps))
    }

    /// The history rows of one transaction, oldest first.
    pub fn history_records(&self, transaction_id: &str) -> (r: Vec<T>)
        ensures
            r@ == self.history@.filter(has_id::<T>(transaction_id@)),
    {
        let mut r: Vec<T> = Vec::new();
        let mut i: usize = 0;
        assert(self.history@.subrange(0, 0).filter(has_id::<T>(transaction_id@)) =~= Seq::empty()) by {
            reveal(Seq::filter);
        }
        while i < self.history.len()
            invariant
                i <= self.history@.len(),
                r@ == self.history@.subrange(0, i as int).filter(has_id::<T>(transaction_id@)),
            decreases self.history@.len() - i,
        {
            let ghost pre = self.history@.subrange(0, i as int);
            let ghost sub1 = self.history@.subrange(0, i + 1);
            let ghost f = has_id::<T>(transaction_id@);
            assert(sub1.drop_last() =~= pre);
            assert(sub1.last() == self.history@[i as int]);
            assert(sub1.filter(f) == (if f(sub1.last()) { pre.filter(f).push(sub1.last()) } else { pre.filter(f) })) by {
                reveal(Seq::filter);
            }
            if str_eq(self.history[i].transaction_id(), transaction_id) {
                r.push(self.history[i].duplicate());
            }
            i = i + 1;
        }
        assert(self.history@.subrange(0, self.history@.len() as int) =~= self.history@);
        r
    }
}


/// An upsert keeps every queued transaction at its FIFO position: a
/// replacement stays in place and a new id joins the tail.
pub proof fn law_upsert_keeps_fifo_positions<T: DurableTransactionRecord>(q: Seq<T>, record: T)
    ensures
        first_id(q, record.spec_id()) matches Some(i) ==>
            forall|j: int| 0 <= j < q.len() ==> (#[trigger] q.update(i, record)[j]).spec_id() == q[j].spec_id(),
        first_id(q, record.spec_id()) is None ==>
            forall|j: int| 0 <= j < q.len() ==> #[trigger] q.push(record)[j] == q[j],
{
    lemma_first_id_found(q, record.spec_id());
}

/// An acknowledgement removes exactly the acknowledged row and keeps the
/// other rows in FIFO order.
pub proof fn law_acknowledge_keeps_fifo_order<T: DurableTransactionRecord>(q: Seq<T>, id: Seq<char>)
    requires
        first_id(q, id) is Some,
    ensures
        without_id(q, id).len() == q.len() - 1,
        forall|j: int| 0 <= j < first_id(q, id)->0 ==> #[trigger] without_id(q, id)[j] == q[j],
        forall|j: int| first_id(q, id)->0 <= j < q.len() - 1 ==> #[trigger] without_id(q, id)[j] == q[j + 1],
        forall|j: int| 0 <= j < without_id(q, id).len() ==> (#[trigger] without_id(q, id)[j]).spec_id() != id
            || j >= first_id(q, id)->0,
{
    lemma_first_id_found(q, id);
}

/// A terminal decision is recorded once: after it is appended to a history
/// that held none for its id, the history's sole decision for the id is it, so
/// appending or acknowledging it again publishes nothing new.
pub proof fn law_terminal_recorded_once<T: DurableTransactionRecord>(h: Seq<T>, t: T)
    requires
        terminal_of(h, t.spec_id()) == Ok::<Option<T>, ()>(None),
        phase_terminal(t.spec_phase()),
    ensures
        terminal_of(h.push(t), t.spec_id()) == Ok::<Option<T>, ()>(Some(t)),
{
    assert(h.push(t).drop_last() =~= h);
}

/// Appending an equal terminal decision again changes nothing.
pub proof fn law_terminal_append_idempotent<T: DurableTransactionRecord>(h: Seq<T>, t: T)
    requires
        terminal_of(h, t.spec_id()) == Ok::<Option<T>, ()>(Some(t)),
        phase_terminal(t.spec_phase()),
    ensures
        terminal_of(h.push(t), t.spec_id()) == Ok::<Option<T>, ()>(Some(t)),
{
    assert(h.push(t).drop_last() =~= h);
}

} // verus!
