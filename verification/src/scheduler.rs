//! The concurrency scheduler: runs a batch of entries with a bounded
//! number of transfers active at once, and merges each entry's final
//! progress into the shared mapping.
//!
//! The admission and completion bookkeeping lives here; the process
//! around the library spawns the tasks and performs the transfers.

use vstd::prelude::*;
use crate::models::DownloadState;

verus! {

/// Where one entry of the batch stands.
#[derive(Clone, Copy, PartialEq, Eq, Structural, Debug)]
pub enum EntryStatus {
    Pending,
    Active,
    Succeeded,
    Failed,
}

/// How many entries of `s` have status `t`.
pub open spec fn count_status(s: Seq<EntryStatus>, t: EntryStatus) -> int
    decreases s.len(),
{
    if s.len() == 0 {
        0
    } else {
        count_status(s.drop_last(), t) + if s.last() == t {
            1int
        } else {
            0int
        }
    }
}

proof fn lemma_count_push(s: Seq<EntryStatus>, t: EntryStatus, x: EntryStatus)
    ensures
        count_status(s.push(x), t) == count_status(s, t) + if x == t {
            1int
        } else {
            0int
        },
{
    assert(s.push(x).drop_last() =~= s);
    assert(s.push(x).last() == x);
}

proof fn lemma_count_update(s: Seq<EntryStatus>, t: EntryStatus, i: int, x: EntryStatus)
    requires
        0 <= i < s.len(),
    ensures
        count_status(s.update(i, x), t) == count_status(s, t) - (if s[i] == t {
            1int
        } else {
            0int
        }) + (if x == t {
            1int
        } else {
            0int
        }),
    decreases s.len(),
{
    if i == s.len() - 1 {
        assert(s.update(i, x).drop_last() =~= s.drop_last());
        assert(s.update(i, x).last() == x);
        assert(s.last() == s[i]);
    } else {
        assert(s.update(i, x).drop_last() =~= s.drop_last().update(i, x));
        assert(s.update(i, x).last() == s.last());
        assert(s.drop_last()[i] == s[i]);
        lemma_count_update(s.drop_last(), t, i, x);
    }
}

proof fn lemma_count_bounds(s: Seq<EntryStatus>, t: EntryStatus)
    ensures
        0 <= count_status(s, t) <= s.len(),
    decreases s.len(),
{
    if s.len() > 0 {
        lemma_count_bounds(s.drop_last(), t);
    }
}

proof fn lemma_count_at_least_one(s: Seq<EntryStatus>, t: EntryStatus, i: int)
    requires
        0 <= i < s.len(),
        s[i] == t,
    ensures
        count_status(s, t) >= 1,
    decreases s.len(),
{
    lemma_count_bounds(s.drop_last(), t);
    if i < s.len() - 1 {
        assert(s.drop_last()[i] == s[i]);
        lemma_count_at_least_one(s.drop_last(), t, i);
    }
}

proof fn lemma_count_take_step(s: Seq<EntryStatus>, t: EntryStatus, i: int)
    requires
        0 <= i < s.len(),
    ensures
        count_status(s.take(i + 1), t) == count_status(s.take(i), t) + if s[i] == t {
            1int
        } else {
            0int
        },
{
    assert(s.take(i + 1).drop_last() =~= s.take(i));
    assert(s.take(i + 1).last() == s[i]);
}

/// The admission bookkeeping of one batch: one status per entry, the
/// number of currently active transfers, and the configured bound.
pub struct BatchScheduler {
    pub statuses: Vec<EntryStatus>,
    pub active: usize,
    pub limit: usize,
}

impl BatchScheduler {
    /// `active` counts exactly the active entries and never exceeds the
    /// bound.
    pub open spec fn wf(self) -> bool {
        &&& self.active as int == count_status(self.statuses@, EntryStatus::Active)
        &&& self.active <= self.limit
    }

    /// A batch of `n` entries, none started, with at most `limit`
    /// transfers allowed at once.
    pub fn new(n: usize, limit: usize) -> (s: Self)
        ensures
            s.wf(),
            s.limit == limit,
            s.active == 0,
            s.statuses@.len() == n,
            forall|i: int| 0 <= i < n ==> s.statuses@[i] is Pending,
    {
        let mut statuses: Vec<EntryStatus> = Vec::new();
        let mut k: usize = 0;
        while k < n
            invariant
                k <= n,
                statuses@.len() == k,
                count_status(statuses@, EntryStatus::Active) == 0,
                forall|i: int| 0 <= i < k ==> statuses@[i] is Pending,
            decreases n - k,
        {
            proof {
                lemma_count_push(statuses@, EntryStatus::Active, EntryStatus::Pending);
            }
            statuses.push(EntryStatus::Pending);
            k = k + 1;
        }
        BatchScheduler { statuses, active: 0, limit }
    }

    /// Admit entry `i` if a slot is free: succeeds exactly when fewer than
    /// `limit` transfers are active, and then occupies one slot.
    pub fn try_admit(&mut self, i: usize) -> (ok: bool)
        requires
            old(self).wf(),
            i < old(self).statuses@.len(),
            old(self).statuses@[i as int] is Pending,
        ensures
            final(self).wf(),
            final(self).limit == old(self).limit,
            final(self).statuses@.len() == old(self).statuses@.len(),
            ok == (old(self).active < old(self).limit),
            ok ==> {
                &&& final(self).statuses@ == old(self).statuses@.update(i as int, EntryStatus::Active)
                &&& final(self).active == old(self).active + 1
            },
            !ok ==> {
                &&& final(self).statuses@ == old(self).statuses@
                &&& final(self).active == old(self).active
            },
    {
        if self.active < self.limit {
            proof {
                lemma_count_update(self.statuses@, EntryStatus::Active, i as int, EntryStatus::Active);
            }
            self.statuses.set(i, EntryStatus::Active);
            self.active = self.active + 1;
            true
        } else {
            false
        }
    }

    /// Record entry `i`'s outcome and release its slot; the release
    /// happens on success and failure alike.
    pub fn finish(&mut self, i: usize, success: bool)
        requires
            old(self).wf(),
            i < old(self).statuses@.len(),
            old(self).statuses@[i as int] is Active,
        ensures
            final(self).wf(),
            final(self).limit == old(self).limit,
            final(self).statuses@ == old(self).statuses@.update(
                i as int,
                if success {
                    EntryStatus::Succeeded
                } else {
                    EntryStatus::Failed
                },
            ),
            final(self).active == old(self).active - 1,
    {
        let outcome = if success {
            EntryStatus::Succeeded
        } else {
            EntryStatus::Failed
        };
        proof {
            lemma_count_at_least_one(self.statuses@, EntryStatus::Active, i as int);
            lemma_count_update(self.statuses@, EntryStatus::Active, i as int, outcome);
        }
        self.statuses.set(i, outcome);
        self.active = self.active - 1;
    }

    /// Counts of succeeded and failed entries, for the run summary.
    pub fn summary(&self) -> (r: (usize, usize))
        ensures
            r.0 as int == count_status(self.statuses@, EntryStatus::Succeeded),
            r.1 as int == count_status(self.statuses@, EntryStatus::Failed),
    {
        let mut s: usize = 0;
        let mut f: usize = 0;
        let mut k: usize = 0;
        let n = self.statuses.len();
        while k < n
            invariant
                k <= n,
                n == self.statuses@.len(),
                s as int == count_status(self.statuses@.take(k as int), EntryStatus::Succeeded),
                f as int == count_status(self.statuses@.take(k as int), EntryStatus::Failed),
            decreases n - k,
        {
            proof {
                lemma_count_take_step(self.statuses@, EntryStatus::Succeeded, k as int);
                lemma_count_take_step(self.statuses@, EntryStatus::Failed, k as int);
                lemma_count_bounds(self.statuses@.take(k as int), EntryStatus::Succeeded);
                lemma_count_bounds(self.statuses@.take(k as int), EntryStatus::Failed);
            }
            match self.statuses[k] {
                EntryStatus::Succeeded => { s = s + 1; },
                EntryStatus::Failed => { f = f + 1; },
                _ => {},
            }
            k = k + 1;
        }
        proof {
            assert(self.statuses@.take(n as int) =~= self.statuses@);
        }
        (s, f)
    }
}

/// Concurrency bound: however admissions and completions interleave, a
/// well-formed scheduler never has more transfers active than its limit.
pub proof fn lemma_concurrency_bound(s: BatchScheduler)
    requires
        s.wf(),
    ensures
        count_status(s.statuses@, EntryStatus::Active) <= s.limit,
{
}

/// The progress an entry starts a run with: its record from the loaded
/// store when one exists (the first match by name), fresh progress
/// otherwise.
pub fn initial_state(states: &Vec<DownloadState>, name: &String) -> (st: DownloadState)
    ensures
        (exists|i: int| #![auto] 0 <= i < states@.len() && states@[i].file_name@ == name@) ==> (exists|i: int|
            #![auto]
            {
                &&& 0 <= i < states@.len()
                &&& states@[i].file_name@ == name@
                &&& st == states@[i]
                &&& forall|j: int| 0 <= j < i ==> states@[j].file_name@ != name@
            }),
        !(exists|i: int| #![auto] 0 <= i < states@.len() && states@[i].file_name@ == name@) ==> {
            &&& st.file_name@ == name@
            &&& st.downloaded_bytes == 0
            &&& st.total_bytes is None
            &&& !st.completed
        },
{
    let n = states.len();
    let mut j: usize = 0;
    while j < n
        invariant
            j <= n,
            n == states@.len(),
            forall|k: int| #![auto] 0 <= k < j ==> states@[k].file_name@ != name@,
        decreases n - j,
    {
        if states[j].file_name == *name {
            return states[j].clone();
        }
        j = j + 1;
    }
    DownloadState::new(name.clone())
}

/// Merge one entry's final progress into the shared mapping: replace the
/// first record with the same name, or append a new record. Each transfer
/// only ever touches its own key.
pub fn merge_state(states: &mut Vec<DownloadState>, st: DownloadState)
    ensures
        (exists|i: int| #![auto] 0 <= i < old(states)@.len() && old(states)@[i].file_name@ == st.file_name@)
            ==> (exists|i: int|
            #![auto]
            {
                &&& 0 <= i < old(states)@.len()
                &&& old(states)@[i].file_name@ == st.file_name@
                &&& final(states)@ == old(states)@.update(i, st)
                &&& forall|j: int| 0 <= j < i ==> old(states)@[j].file_name@ != st.file_name@
            }),
        !(exists|i: int| #![auto] 0 <= i < old(states)@.len() && old(states)@[i].file_name@ == st.file_name@)
            ==> final(states)@ == old(states)@.push(st),
{
    let n = states.len();
    let mut j: usize = 0;
    while j < n
        invariant
            j <= n,
            n == states@.len(),
            states@ == old(states)@,
            forall|k: int| #![auto] 0 <= k < j ==> states@[k].file_name@ != st.file_name@,
        decreases n - j,
    {
        if states[j].file_name == st.file_name {
            states.set(j, st);
            return ;
        }
        j = j + 1;
    }
    states.push(st);
}

} // verus!
