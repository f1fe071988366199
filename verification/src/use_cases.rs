use vstd::prelude::*;

use crate::domain::{
    apply_step, decide, insert_name, keys_of, lemma_bump_score, lemma_insert_name, score_in,
    BallotPaper, Candidate, VoteOutcome, Voter, VotingMachine,
};
use crate::errors::UnavailableError;
use crate::storage::Storage;

verus! {

/// A vote request as the command layer hands it over: two plain strings. An
/// empty candidate string stands for an explicit blank vote.
#[derive(Debug, PartialEq, Eq)]
pub struct VoteForm {
    pub voter: String,
    pub candidate: String,
}

/// The ballot a vote form stands for.
pub open spec fn ballot_of(form: VoteForm) -> BallotPaper {
    BallotPaper {
        voter: Voter(form.voter),
        candidate: if form.candidate@.len() == 0 {
            None
        } else {
            Some(Candidate(form.candidate))
        },
    }
}

impl BallotPaper {
    /// Turn a vote form into a ballot: an empty candidate field becomes an
    /// explicit blank vote.
    pub fn from(form: VoteForm) -> (r: BallotPaper)
        ensures
            r == ballot_of(form),
    {
        let candidate = if form.candidate.as_str().is_empty() {
            None
        } else {
            Some(Candidate(form.candidate))
        };
        BallotPaper { voter: Voter(form.voter), candidate }
    }
}

/// The decision reads nothing of a snapshot beyond its mathematical content.
pub proof fn lemma_decide_depends_on_view(m1: VotingMachine, m2: VotingMachine, b: BallotPaper)
    requires
        m1@ == m2@,
    ensures
        decide(m1, b) == decide(m2, b),
{
}

/// Fetch the current snapshot from the backend.
pub fn get_voting_machine<S: Storage>(store: &S) -> (r: Result<VotingMachine, UnavailableError>)
    requires
        store.inv(),
    ensures
        r matches Ok(m) ==> m@ == store.snapshot(),
{
    store.get_voting_machine()
}

/// Classify a vote form against the backend's current snapshot, without
/// recording anything.
pub fn vote<S: Storage>(store: &S, vote_form: VoteForm) -> (r: Result<
    VoteOutcome,
    UnavailableError,
>)
    requires
        store.inv(),
    ensures
        r matches Ok(o) ==> forall|m: VotingMachine|
            m@ == store.snapshot() ==> o == decide(m, ballot_of(vote_form)),
{
    let mut machine = match store.get_voting_machine() {
        Ok(m) => m,
        Err(e) => { return Err(e) },
    };
    let ghost fetched = machine;
    let ghost ballot = ballot_of(vote_form);
    let outcome = machine.vote(BallotPaper::from(vote_form));
    proof {
        assert forall|m: VotingMachine| m@ == store.snapshot() implies outcome == decide(
            m,
            ballot,
        ) by {
            lemma_decide_depends_on_view(fetched, m, ballot);
        }
    }
    Ok(outcome)
}

/// One whole vote cycle — fetch, decide, apply, store — run as a single
/// atomic update against the backend, so that no concurrent cycle can slip
/// between the fetch and the store. A rejected ballot stores nothing. On a
/// backend failure the durable snapshot is left as it was.
pub fn cast_ballot<S: Storage>(store: &mut S, ballot: BallotPaper) -> (r: Result<
    VoteOutcome,
    UnavailableError,
>)
    requires
        old(store).inv(),
        old(store).snapshot().wf(),
        old(store).snapshot().has_capacity(),
    ensures
        final(store).inv(),
        r matches Ok(o) ==> {
            &&& forall|m: VotingMachine| m@ == old(store).snapshot() ==> o == decide(m, ballot)
            &&& apply_step(old(store).snapshot(), o, final(store).snapshot())
        },
        r is Err ==> final(store).snapshot() == old(store).snapshot(),
{
    let ghost snap = old(store).snapshot();
    let mut machine = match store.get_voting_machine() {
        Ok(m) => m,
        Err(e) => { return Err(e) },
    };
    let ghost fetched = machine;
    let ghost b = ballot;
    let outcome = machine.vote(ballot);
    proof {
        assert forall|m: VotingMachine| m@ == snap implies outcome == decide(m, b) by {
            lemma_decide_depends_on_view(fetched, m, b);
        }
    }
    if let VoteOutcome::HasAlreadyVoted(_) = &outcome {
        return Ok(outcome);
    }
    assert(machine.wf()) by {
        assert(machine.voters.names() == snap.voters);
        assert(machine.scoreboard.entries() == snap.scores);
    }
    assert(outcome matches VoteOutcome::AcceptedVote(_, c) ==> machine.scoreboard.score_of(c@)
        < usize::MAX) by {
        assert(machine.scoreboard.entries() == snap.scores);
    }
    machine.apply(&outcome);
    match store.put_voting_machine(machine) {
        Ok(_) => Ok(outcome),
        Err(e) => Err(e),
    }
}

/// How many votes an outcome adds to one candidate's counter.
pub open spec fn accepted_votes_for(outcome: VoteOutcome, name: Seq<char>) -> nat {
    match outcome {
        VoteOutcome::AcceptedVote(_, c) => if c@ == name {
            1
        } else {
            0
        },
        _ => 0,
    }
}

/// How many votes an outcome adds to the blank counter.
pub open spec fn blank_votes(outcome: VoteOutcome) -> nat {
    if outcome is BlankVote {
        1
    } else {
        0
    }
}

/// How many votes an outcome adds to the invalid counter.
pub open spec fn invalid_votes(outcome: VoteOutcome) -> nat {
    if outcome is InvalidVote {
        1
    } else {
        0
    }
}

/// Two vote cycles for distinct voters not yet in attendance, run one after
/// the other as the atomic update serializes them, both land: neither ballot
/// is rejected, the final snapshot holds both voters, and every counter
/// reflects exactly the votes the two outcomes name.
pub proof fn lemma_serialized_cycles_record_both(
    m0: VotingMachine,
    m1: VotingMachine,
    m2: VotingMachine,
    b1: BallotPaper,
    b2: BallotPaper,
)
    requires
        !m0.voters.has_name(b1.voter@),
        !m0.voters.has_name(b2.voter@),
        b1.voter@ != b2.voter@,
        apply_step(m0@, decide(m0, b1), m1@),
        apply_step(m1@, decide(m1, b2), m2@),
    ensures
        !(decide(m0, b1) is HasAlreadyVoted),
        !(decide(m1, b2) is HasAlreadyVoted),
        m2.voters.has_name(b1.voter@),
        m2.voters.has_name(b2.voter@),
        m2@.blank == m0@.blank + blank_votes(decide(m0, b1)) + blank_votes(decide(m1, b2)),
        m2@.invalid == m0@.invalid + invalid_votes(decide(m0, b1)) + invalid_votes(
            decide(m1, b2),
        ),
        forall|n: Seq<char>| #![auto]
            keys_of(m0@.scores).contains(n) ==> score_in(m2@.scores, n) == score_in(m0@.scores, n)
                + accepted_votes_for(decide(m0, b1), n) + accepted_votes_for(decide(m1, b2), n),
{
    let o1 = decide(m0, b1);
    let o2 = decide(m1, b2);
    lemma_insert_name(m0@.voters, b1.voter@);
    assert(m1@.voters == insert_name(m0@.voters, b1.voter@));
    assert(!m1.voters.has_name(b2.voter@));
    lemma_insert_name(m1@.voters, b2.voter@);
    assert(m2@.voters == insert_name(m1@.voters, b2.voter@));
    assert(m2.voters.has_name(b2.voter@));
    assert(m2.voters.has_name(b1.voter@));
    assert forall|n: Seq<char>| #![auto] keys_of(m0@.scores).contains(n) implies score_in(
        m2@.scores,
        n,
    ) == score_in(m0@.scores, n) + accepted_votes_for(o1, n) + accepted_votes_for(o2, n) by {
        match o1 {
            VoteOutcome::AcceptedVote(_, c1) => {
                lemma_bump_score(m0@.scores, c1@);
            },
            _ => {},
        }
        match o2 {
            VoteOutcome::AcceptedVote(_, c2) => {
                lemma_bump_score(m1@.scores, c2@);
            },
            _ => {},
        }
    }
}

} // verus!
