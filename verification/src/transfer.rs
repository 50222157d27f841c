//! The per-file transfer state machine.
//!
//! One attempt runs Probe, Reconcile, Resume decision, Fetch, Finalize.
//! The functions here make every decision of that sequence from plain
//! values (probed size, on-disk sizes, status codes); the process around
//! the library performs the requests and file operations they call for.

use vstd::prelude::*;
use crate::models::DownloadState;

verus! {

/// A file finalized without a known expected size must exceed this many
/// bytes to count as plausible content rather than an error page.
pub const MIN_UNKNOWN_SIZE: u64 = 1024;

/// Whether an already-completed output file of `actual_size` bytes is kept
/// as-is, given the probed expected size: sizes must match when the size is
/// known; an unknown size accepts any non-empty file.
pub open spec fn existing_valid(total_bytes: Option<u64>, actual_size: u64) -> bool {
    match total_bytes {
        Some(expected) => actual_size == expected,
        None => actual_size > 0,
    }
}

/// Whether a freshly finalized file of `actual_size` bytes passes the
/// integrity check: equal to a known positive expected size, above the
/// sanity threshold otherwise.
pub open spec fn final_size_valid(total_bytes: Option<u64>, actual_size: u64) -> bool {
    if total_bytes is Some && total_bytes->0 > 0 {
        actual_size == total_bytes->0
    } else {
        actual_size > MIN_UNKNOWN_SIZE
    }
}

/// The starting offset of an attempt's fetch: the partial file's length
/// when resuming is enabled and a partial file exists, zero otherwise.
pub open spec fn resume_offset_spec(resume: bool, partial_size: Option<u64>) -> u64 {
    if resume && partial_size is Some {
        partial_size->0
    } else {
        0
    }
}

/// What one attempt does after probing and inspecting the disk.
#[derive(Clone, Copy, PartialEq, Eq, Structural, Debug)]
pub enum PlanAction {
    /// The existing completed file is valid: report success, fetch nothing.
    SkipValid,
    /// The partial file is longer than the expected total: fail at once,
    /// without a fetch — a corruption signal, never silently truncated.
    FailPartialExceedsTotal,
    /// The partial file already holds all expected bytes: rename it to the
    /// completed name and validate, without a fetch.
    FinalizeStaged { offset: u64 },
    /// Fetch from `offset` (with a range request iff `offset > 0`), append
    /// to the partial file, then rename and validate.
    Fetch { offset: u64 },
}

/// The full decision of one attempt.
#[derive(Clone, Copy, PartialEq, Eq, Structural, Debug)]
pub struct AttemptPlan {
    /// Delete the stale completed file before acting.
    pub remove_existing: bool,
    pub action: PlanAction,
}

/// The decision table of one attempt: reconcile an existing output file,
/// then choose the offset and the action.
pub open spec fn plan_spec(
    resume: bool,
    total_bytes: Option<u64>,
    existing_size: Option<u64>,
    partial_size: Option<u64>,
) -> AttemptPlan {
    if existing_size is Some && existing_valid(total_bytes, existing_size->0) {
        AttemptPlan { remove_existing: false, action: PlanAction::SkipValid }
    } else {
        let remove_existing = existing_size is Some;
        let offset = resume_offset_spec(resume, partial_size);
        if total_bytes is Some && offset > total_bytes->0 {
            AttemptPlan { remove_existing, action: PlanAction::FailPartialExceedsTotal }
        } else if total_bytes is Some && offset == total_bytes->0 {
            AttemptPlan { remove_existing, action: PlanAction::FinalizeStaged { offset } }
        } else {
            AttemptPlan { remove_existing, action: PlanAction::Fetch { offset } }
        }
    }
}

/// Decide one attempt from the probed size and the on-disk sizes
/// (`None` where the file does not exist).
pub fn plan_attempt(
    resume: bool,
    total_bytes: Option<u64>,
    existing_size: Option<u64>,
    partial_size: Option<u64>,
) -> (p: AttemptPlan)
    ensures
        p == plan_spec(resume, total_bytes, existing_size, partial_size),
{
    if let Some(actual) = existing_size {
        let valid = match total_bytes {
            Some(expected) => actual == expected,
            None => actual > 0,
        };
        if valid {
            return AttemptPlan { remove_existing: false, action: PlanAction::SkipValid };
        }
    }
    let remove_existing = existing_size.is_some();
    let offset: u64 = if resume {
        match partial_size {
            Some(n) => n,
            None => 0,
        }
    } else {
        0
    };
    match total_bytes {
        Some(total) => {
            if offset > total {
                AttemptPlan { remove_existing, action: PlanAction::FailPartialExceedsTotal }
            } else if offset == total {
                AttemptPlan { remove_existing, action: PlanAction::FinalizeStaged { offset } }
            } else {
                AttemptPlan { remove_existing, action: PlanAction::Fetch { offset } }
            }
        },
        None => AttemptPlan { remove_existing, action: PlanAction::Fetch { offset } },
    }
}

/// Whether a fetch response status is accepted: full or partial content in
/// the success range; anything else is a hard failure for the attempt.
pub open spec fn status_acceptable(status: u16) -> bool {
    (200 <= status && status < 300) || status == 206
}

pub fn accept_status(status: u16) -> (ok: bool)
    ensures
        ok == status_acceptable(status),
{
    (200 <= status && status < 300) || status == 206
}

/// Byte accounting of one in-flight fetch: `offset` bytes were already
/// staged, `appended` have been appended by this attempt so far.
pub struct FetchSession {
    pub offset: u64,
    pub appended: u64,
}

impl FetchSession {
    pub fn begin(offset: u64) -> (s: Self)
        ensures
            s.offset == offset,
            s.appended == 0,
    {
        FetchSession { offset, appended: 0 }
    }

    /// Account one received chunk of `n` bytes; returns the new total byte
    /// count, `offset + bytes appended so far`, to be recorded as progress.
    pub fn on_chunk(&mut self, n: u64) -> (downloaded: u64)
        requires
            old(self).offset + old(self).appended + n <= u64::MAX,
        ensures
            final(self).offset == old(self).offset,
            final(self).appended == old(self).appended + n,
            downloaded == old(self).offset + old(self).appended + n,
    {
        self.appended = self.appended + n;
        self.offset + self.appended
    }
}

/// Record the probed total size, never clearing a known size back to
/// unknown.
pub fn set_total(st: &mut DownloadState, total_bytes: Option<u64>)
    ensures
        final(st).file_name == old(st).file_name,
        final(st).downloaded_bytes == old(st).downloaded_bytes,
        final(st).completed == old(st).completed,
        final(st).total_bytes == (if total_bytes is Some { total_bytes } else { old(st).total_bytes }),
{
    if total_bytes.is_some() {
        st.total_bytes = total_bytes;
    }
}

/// Record a valid existing file: the entry is completed with its size.
pub fn mark_skipped(st: &mut DownloadState, actual_size: u64)
    ensures
        final(st).file_name == old(st).file_name,
        final(st).total_bytes == old(st).total_bytes,
        final(st).downloaded_bytes == actual_size,
        final(st).completed,
{
    st.completed = true;
    st.downloaded_bytes = actual_size;
}

/// Record the running byte count after a chunk.
pub fn record_progress(st: &mut DownloadState, downloaded: u64)
    ensures
        final(st).file_name == old(st).file_name,
        final(st).total_bytes == old(st).total_bytes,
        final(st).completed == old(st).completed,
        final(st).downloaded_bytes == downloaded,
{
    st.downloaded_bytes = downloaded;
}

/// Validate a finalized file and record the outcome: `completed` is set
/// exactly when the size check passes, and the byte count becomes the
/// actual on-disk size.
pub fn finalize_state(st: &mut DownloadState, total_bytes: Option<u64>, actual_size: u64) -> (valid: bool)
    ensures
        valid == final_size_valid(total_bytes, actual_size),
        final(st).file_name == old(st).file_name,
        final(st).total_bytes == old(st).total_bytes,
        final(st).downloaded_bytes == actual_size,
        final(st).completed == valid,
{
    let valid = match total_bytes {
        Some(expected) => {
            if expected > 0 {
                actual_size == expected
            } else {
                actual_size > MIN_UNKNOWN_SIZE
            }
        },
        None => actual_size > MIN_UNKNOWN_SIZE,
    };
    st.completed = valid;
    st.downloaded_bytes = actual_size;
    valid
}

// ---------------------------------------------------------------------------
// A model of one whole attempt against its surroundings, and the laws the
// state machine obeys under it.
// ---------------------------------------------------------------------------

/// Everything outside the process that one attempt observes: the remote
/// object's bytes, what the probe reported, the files on disk, and whether
/// resuming is enabled.
pub struct AttemptEnv {
    pub remote: Seq<u8>,
    pub probe_total: Option<u64>,
    pub existing: Option<Seq<u8>>,
    pub partial: Option<Seq<u8>>,
    pub resume: bool,
}

pub open spec fn size_of(b: Option<Seq<u8>>) -> Option<u64> {
    match b {
        Some(s) => Some(s.len() as u64),
        None => None,
    }
}

pub open spec fn env_wf(env: AttemptEnv) -> bool {
    &&& env.remote.len() <= u64::MAX
    &&& (env.existing is Some ==> env.existing->0.len() <= u64::MAX)
    &&& (env.partial is Some ==> env.partial->0.len() <= u64::MAX)
}

/// The plan the state machine picks in this environment.
pub open spec fn attempt_plan_of(env: AttemptEnv) -> AttemptPlan {
    plan_spec(env.resume, env.probe_total, size_of(env.existing), size_of(env.partial))
}

/// The bytes already staged in the partial file; a fetch appends after
/// them, since the partial file is only ever opened for appending.
pub open spec fn staged_prefix(env: AttemptEnv) -> Seq<u8> {
    if env.partial is Some {
        env.partial->0
    } else {
        Seq::<u8>::empty()
    }
}

/// The bytes of the completed output file after one attempt, or `None`
/// when the attempt fails, assuming a remote that serves exactly the byte
/// suffix asked of it. Renaming a partial file that does not exist is a
/// storage failure; an invalid finalized file is deleted and the attempt
/// reported failed.
pub open spec fn attempt_outcome(env: AttemptEnv) -> Option<Seq<u8>> {
    let plan = attempt_plan_of(env);
    match plan.action {
        PlanAction::SkipValid => Some(env.existing->0),
        PlanAction::FailPartialExceedsTotal => None,
        PlanAction::FinalizeStaged { offset } => {
            if env.partial is Some {
                let file = env.partial->0;
                if final_size_valid(env.probe_total, file.len() as u64) {
                    Some(file)
                } else {
                    None
                }
            } else {
                None
            }
        },
        PlanAction::Fetch { offset } => {
            let served = if offset <= env.remote.len() {
                env.remote.skip(offset as int)
            } else {
                Seq::<u8>::empty()
            };
            let file = staged_prefix(env) + served;
            if final_size_valid(env.probe_total, file.len() as u64) {
                Some(file)
            } else {
                None
            }
        },
    }
}

/// Resume idempotence: when the probe reports the remote's true length and
/// the partial file holds any prefix of the remote object, the attempt
/// ends exactly as an uninterrupted attempt with no partial file would.
pub proof fn lemma_resume_idempotent(env: AttemptEnv, fresh: AttemptEnv, k: int)
    requires
        env_wf(env),
        env.resume,
        env.existing is None,
        env.probe_total == Some(env.remote.len() as u64),
        0 <= k <= env.remote.len(),
        env.partial == Some(env.remote.take(k)),
        fresh == (AttemptEnv { partial: None, ..env }),
    ensures
        attempt_outcome(env) == attempt_outcome(fresh),
{
    let n = env.remote.len() as int;
    assert(env.remote.take(k).len() == k);
    if k < n {
        assert(env.remote.take(k) + env.remote.skip(k) =~= env.remote);
        assert(attempt_outcome(env) == Some(env.remote));
        assert(Seq::<u8>::empty() + env.remote.skip(0) =~= env.remote);
        assert(attempt_outcome(fresh) == Some(env.remote));
    } else {
        // the partial file already holds the whole object
        if n > 0 {
            assert(env.remote.take(k) =~= env.remote);
            assert(attempt_outcome(env) == Some(env.remote));
            assert(Seq::<u8>::empty() + env.remote.skip(0) =~= env.remote);
            assert(attempt_outcome(fresh) == Some(env.remote));
        } else {
            // an empty remote object cannot be finalized either way
            assert(attempt_outcome(env) is None);
            assert(attempt_outcome(fresh) is None);
        }
    }
}

/// Skip correctness: a completed file whose size equals the probed
/// expected size is kept; the attempt succeeds with it and fetches
/// nothing.
pub proof fn lemma_skip_correct(env: AttemptEnv)
    requires
        env_wf(env),
        env.existing is Some,
        env.probe_total == Some(env.existing->0.len() as u64),
    ensures
        attempt_plan_of(env).action is SkipValid,
        !attempt_plan_of(env).remove_existing,
        attempt_outcome(env) == Some(env.existing->0),
{
}

/// Corruption recovery: a completed file whose size differs from the
/// probed expected size is deleted and the attempt fetches from zero;
/// when the remote really has the probed (positive) length, the attempt
/// then produces it whole.
pub proof fn lemma_corruption_recovery(env: AttemptEnv)
    requires
        env_wf(env),
        env.existing is Some,
        env.probe_total is Some,
        env.probe_total->0 > 0,
        env.existing->0.len() as u64 != env.probe_total->0,
        env.partial is None,
    ensures
        attempt_plan_of(env).remove_existing,
        attempt_plan_of(env).action == (PlanAction::Fetch { offset: 0u64 }),
        env.remote.len() as u64 == env.probe_total->0 && env.remote.len() > 0
            ==> attempt_outcome(env) == Some(env.remote),
{
    let t = env.probe_total->0;
    if env.remote.len() as u64 == t && env.remote.len() > 0 {
        assert(Seq::<u8>::empty() + env.remote.skip(0) =~= env.remote);
    }
}

/// Partial-exceeds-total guard: a partial file longer than the probed
/// expected size fails the attempt at once, and no fetch is attempted.
pub proof fn lemma_partial_exceeds_total_fails(env: AttemptEnv)
    requires
        env_wf(env),
        env.resume,
        env.existing is None,
        env.probe_total is Some,
        env.partial is Some,
        env.partial->0.len() > env.probe_total->0,
    ensures
        attempt_plan_of(env).action is FailPartialExceedsTotal,
        attempt_outcome(env) is None,
{
}

} // verus!
