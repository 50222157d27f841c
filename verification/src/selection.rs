//! Selecting what a run works on: the whole catalog, one named entry, or
//! an inclusive index range, validated before any transfer is scheduled.

use vstd::prelude::*;
use crate::models::LinkEntry;

verus! {

/// How a run selects entries from the catalog.
#[derive(Clone, Copy, PartialEq, Eq, Structural, Debug)]
pub enum DownloadMode {
    All,
    Single,
    Range,
}

/// The run's parameters, as the command line hands them over.
pub struct Args {
    pub link_file: Option<String>,
    pub output: String,
    pub mode: DownloadMode,
    pub file: Option<String>,
    pub start: Option<usize>,
    pub end: Option<usize>,
    pub threads: usize,
    pub resume: bool,
    pub proxy: Option<String>,
    pub retries: u32,
}

/// An inclusive index range over a catalog of `len` entries is usable iff
/// it is in bounds and not inverted.
pub open spec fn range_valid(len: usize, start: usize, end: usize) -> bool {
    start < len && end < len && start <= end
}

pub fn validate_range(len: usize, start: usize, end: usize) -> (ok: bool)
    ensures
        ok == range_valid(len, start, end),
{
    start < len && end < len && start <= end
}

/// The sub-catalog for range mode: `Some` exactly on valid ranges,
/// holding entries `start..=end` in catalog order. An invalid range is
/// rejected here, before any network activity.
pub fn select_range(entries: &Vec<LinkEntry>, start: usize, end: usize) -> (r: Option<Vec<LinkEntry>>)
    ensures
        r is Some <==> range_valid(entries@.len() as usize, start, end),
        r is Some ==> r->0@ == entries@.subrange(start as int, end as int + 1),
{
    let n = entries.len();
    if !(start < n && end < n && start <= end) {
        return None;
    }
    let mut out: Vec<LinkEntry> = Vec::new();
    let mut j: usize = start;
    while j <= end
        invariant
            start <= j <= end + 1,
            n == entries@.len(),
            end < n,
            out@ == entries@.subrange(start as int, j as int),
        decreases end + 1 - j,
    {
        out.push(entries[j].clone());
        proof {
            assert(entries@.subrange(start as int, j as int + 1) =~= entries@.subrange(
                start as int,
                j as int,
            ).push(entries@[j as int]));
        }
        j = j + 1;
    }
    Some(out)
}

/// The single-mode lookup: the first catalog entry with this name, or
/// `None` when the name is not in the catalog.
pub fn find_entry(entries: &Vec<LinkEntry>, name: &String) -> (r: Option<LinkEntry>)
    ensures
        r is Some <==> (exists|i: int| #![auto] 0 <= i < entries@.len() && entries@[i].file_name@
            == name@),
        r is Some ==> (exists|i: int|
            #![auto]
            {
                &&& 0 <= i < entries@.len()
                &&& entries@[i].file_name@ == name@
                &&& r->0 == entries@[i]
                &&& forall|j: int| 0 <= j < i ==> entries@[j].file_name@ != name@
            }),
{
    let n = entries.len();
    let mut j: usize = 0;
    while j < n
        invariant
            j <= n,
            n == entries@.len(),
            forall|k: int| #![auto] 0 <= k < j ==> entries@[k].file_name@ != name@,
        decreases n - j,
    {
        if entries[j].file_name == *name {
            return Some(entries[j].clone());
        }
        j = j + 1;
    }
    None
}

} // verus!
