//! The data carried around by the fetcher: catalog entries and per-file
//! transfer progress.

use vstd::prelude::*;

verus! {

/// One catalog entry: the file to create, and the URL it is fetched from.
/// `file_name` is the unique key used everywhere else.
pub struct LinkEntry {
    pub file_name: String,
    pub url: String,
}

impl Clone for LinkEntry {
    fn clone(&self) -> (r: Self)
        ensures
            r == *self,
    {
        LinkEntry { file_name: self.file_name.clone(), url: self.url.clone() }
    }
}

/// Last-known transfer progress of one catalog entry.
pub struct DownloadState {
    pub file_name: String,
    pub downloaded_bytes: u64,
    pub total_bytes: Option<u64>,
    pub completed: bool,
}

impl Clone for DownloadState {
    fn clone(&self) -> (r: Self)
        ensures
            r == *self,
    {
        DownloadState {
            file_name: self.file_name.clone(),
            downloaded_bytes: self.downloaded_bytes,
            total_bytes: self.total_bytes,
            completed: self.completed,
        }
    }
}

impl DownloadState {
    /// The bytes downloaded so far never exceed a known total.
    pub open spec fn wf(self) -> bool {
        self.total_bytes is Some ==> self.downloaded_bytes <= self.total_bytes->0
    }

    /// Fresh progress: nothing downloaded, size unknown, not completed.
    pub fn new(file_name: String) -> (s: Self)
        ensures
            s.file_name == file_name,
            s.downloaded_bytes == 0,
            s.total_bytes is None,
            !s.completed,
            s.wf(),
    {
        DownloadState { file_name, downloaded_bytes: 0, total_bytes: None, completed: false }
    }

    /// The fields a round of the engine reports and persists, as one value.
    pub open spec fn view_fields(self) -> (Seq<char>, u64, Option<u64>, bool) {
        (self.file_name@, self.downloaded_bytes, self.total_bytes, self.completed)
    }
}

/// Field-for-field image of a whole progress sequence.
pub open spec fn states_view(s: Seq<DownloadState>) -> Seq<(Seq<char>, u64, Option<u64>, bool)> {
    s.map_values(|st: DownloadState| st.view_fields())
}

} // verus!
