//! The progress store: the durable record of per-entry transfer state,
//! read once at run start and written once at run end.
//!
//! The store's decisions and its record codec live here; reading and
//! writing the file itself is plain I/O done by the process around the
//! library, which should replace the record atomically (write a fresh
//! file, then rename it over the old one).

use vstd::prelude::*;
use vstd::string::StringExecFns;
use crate::codec::parse_states;
use crate::codec::ser_states;
use crate::codec::serialize_states;
use crate::codec::wf_states;
use crate::models::DownloadState;
use crate::models::states_view;

verus! {

/// Knows where the durable progress record lives.
pub struct StateManager {
    pub state_file: String,
}

impl StateManager {
    /// The record lives at `<output_dir>/.download_state.json`.
    pub fn new(output_dir: &str) -> (m: Self)
        ensures
            m.state_file@ == output_dir@ + "/.download_state.json"@,
    {
        let mut state_file = output_dir.to_owned();
        state_file.append("/.download_state.json");
        StateManager { state_file }
    }

    /// The mapping a run starts with. With resume disabled there is no
    /// prior progress, whatever is on disk; a missing record, or one the
    /// codec cannot read, also means no prior progress rather than an
    /// error. A record saved by `save_state` loads back field for field.
    pub fn load_state(&self, resume: bool, record: &Option<Vec<u8>>) -> (states: Vec<
        DownloadState,
    >)
        ensures
            !resume ==> states@.len() == 0,
            *record is None ==> states@.len() == 0,
            forall|s: Seq<DownloadState>|
                (resume && *record is Some && wf_states(s) && (*record)->0@ == ser_states(s))
                    ==> states_view(states@) == states_view(s),
    {
        if !resume {
            return Vec::new();
        }
        match record {
            None => Vec::new(),
            Some(bytes) => match parse_states(bytes) {
                Some(states) => states,
                None => Vec::new(),
            },
        }
    }

    /// The record bytes of the full current mapping, to be written over
    /// the old record in one atomic replacement.
    pub fn save_state(&self, states: &Vec<DownloadState>) -> (out: Vec<u8>)
        ensures
            out@ == ser_states(states@),
    {
        serialize_states(states)
    }
}

} // verus!
