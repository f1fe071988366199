use vstd::prelude::*;

use crate::domain::{candidate_names, Candidate};
use crate::errors::ConfigurationError;

verus! {

/// Which backend holds the durable snapshot.
#[derive(Debug, PartialEq, Eq, Clone, Copy)]
pub enum StorageType {
    Memory,
    File,
}

/// What the startup layer hands to the core: the candidate roster and the
/// backend selection.
#[derive(Debug, PartialEq, Eq)]
pub struct Configuration {
    pub candidates: Vec<String>,
    pub storage_type: StorageType,
}

impl Configuration {
    /// The validated roster. An empty candidate list is a configuration
    /// error; a non-empty one is returned as candidates, name for name.
    pub fn roster(&self) -> (r: Result<Vec<Candidate>, ConfigurationError>)
        ensures
            r is Ok <==> self.candidates@.len() > 0,
            r matches Ok(cs) ==> candidate_names(cs@) == self.candidates@.map_values(
                |s: String| s@,
            ),
    {
        if self.candidates.len() == 0 {
            return Err(ConfigurationError);
        }
        let mut roster: Vec<Candidate> = Vec::new();
        let mut i: usize = 0;
        while i < self.candidates.len()
            invariant
                i <= self.candidates@.len(),
                roster@.len() == i,
                forall|j: int| 0 <= j < i ==> roster@[j]@ == self.candidates@[j]@,
            decreases self.candidates.len() - i,
        {
            roster.push(Candidate(self.candidates[i].clone()));
            i += 1;
        }
        assert(candidate_names(roster@) =~= self.candidates@.map_values(|s: String| s@));
        Ok(roster)
    }
}

} // verus!
