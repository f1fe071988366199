use vstd::prelude::*;

use crate::domain::{MachineData, VotingMachine};
use crate::errors::UnavailableError;

verus! {

/// The persistence contract. A backend only ever moves whole snapshots:
/// `put_voting_machine` is a full replace, never a merge, and
/// `get_voting_machine` hands out a copy, so later mutation by the caller
/// cannot alias the stored snapshot.
pub trait Storage: Sized {
    /// The snapshot the backend durably holds right now.
    spec fn snapshot(&self) -> MachineData;

    /// The backend is ready to serve requests.
    spec fn inv(&self) -> bool;

    /// Fetch the current durable snapshot.
    fn get_voting_machine(&self) -> (r: Result<VotingMachine, UnavailableError>)
        requires
            self.inv(),
        ensures
            r matches Ok(m) ==> m@ == self.snapshot(),
    ;

    /// Replace the durable snapshot wholesale with the given one. On failure
    /// the durable state is left as it was.
    fn put_voting_machine(&mut self, machine: VotingMachine) -> (r: Result<(), UnavailableError>)
        requires
            old(self).inv(),
        ensures
            final(self).inv(),
            r is Ok ==> final(self).snapshot() == machine@,
            r is Err ==> final(self).snapshot() == old(self).snapshot(),
    ;
}

/// The in-memory backend: it owns the one snapshot outright, so neither
/// operation can fail.
pub struct MemoryStore {
    pub machine: VotingMachine,
}

impl MemoryStore {
    pub fn new(new_machine: VotingMachine) -> (r: MemoryStore)
        ensures
            r.machine == new_machine,
    {
        MemoryStore { machine: new_machine }
    }
}

impl Storage for MemoryStore {
    open spec fn snapshot(&self) -> MachineData {
        self.machine@
    }

    open spec fn inv(&self) -> bool {
        true
    }

    fn get_voting_machine(&self) -> (r: Result<VotingMachine, UnavailableError>)
        ensures
            r matches Ok(m) && m@ == self.snapshot(),
    {
        Ok(self.machine.clone())
    }

    fn put_voting_machine(&mut self, machine: VotingMachine) -> (r: Result<(), UnavailableError>)
        ensures
            r is Ok,
            final(self).snapshot() == machine@,
    {
        self.machine = machine;
        Ok(())
    }
}

} // verus!
