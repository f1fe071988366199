use voting_machine::configuration::{Configuration, StorageType};
use voting_machine::domain::{BallotPaper, Candidate, VoteOutcome, Voter, VotingMachine};
use voting_machine::errors::ConfigurationError;
use voting_machine::storage::{MemoryStore, Storage};
use voting_machine::use_cases::{cast_ballot, get_voting_machine, vote, VoteForm};

fn setup_voting_machine() -> VotingMachine {
    let mut candidates: Vec<Candidate> = Vec::new();
    candidates.push(Candidate("E.Macron".to_string()));
    candidates.push(Candidate("M.Lepen".to_string()));
    candidates.push(Candidate("JL.Melanchon".to_string()));
    VotingMachine::new(candidates)
}

fn score_of(machine: &VotingMachine, name: &str) -> usize {
    machine.scoreboard.scores.iter().find(|p| p.0 .0 == name).expect("candidate missing").1 .0
}

fn ballot(voter: &str, candidate: Option<&str>) -> BallotPaper {
    BallotPaper {
        voter: Voter(voter.to_string()),
        candidate: candidate.map(|c| Candidate(c.to_string())),
    }
}

#[test]
fn memory_test_get_and_put_voting_machine() {
    let mut memory = MemoryStore::new(setup_voting_machine());

    let mut new_voting_machine = memory.get_voting_machine().unwrap();
    new_voting_machine.get_scoreboard().invalid_scores.0 += 1;
    memory.put_voting_machine(new_voting_machine.clone()).unwrap();

    let mut stored_machine = memory.get_voting_machine().unwrap();
    assert_eq!(
        stored_machine.get_scoreboard().invalid_scores.0,
        new_voting_machine.get_scoreboard().invalid_scores.0
    );
}

#[test]
fn memory_fetch_returns_a_copy() {
    let memory = MemoryStore::new(setup_voting_machine());
    let mut fetched = memory.get_voting_machine().unwrap();
    fetched.get_scoreboard().blank_scores.0 += 1;
    let fetched_again = memory.get_voting_machine().unwrap();
    assert_eq!(fetched_again.scoreboard.blank_scores.0, 0);
}

#[test]
fn vote_use_case_decides_without_recording() {
    let memory = MemoryStore::new(setup_voting_machine());
    let outcome = vote(
        &memory,
        VoteForm { voter: "Jean".to_string(), candidate: "E.Macron".to_string() },
    )
    .unwrap();
    assert_eq!(
        outcome,
        VoteOutcome::AcceptedVote(Voter("Jean".to_string()), Candidate("E.Macron".to_string()))
    );
    let stored = get_voting_machine(&memory).unwrap();
    assert_eq!(stored.voters.0.len(), 0);
    assert_eq!(score_of(&stored, "E.Macron"), 0);
}

#[test]
fn blank_vote_form_has_no_candidate() {
    let paper = BallotPaper::from(VoteForm {
        voter: "Jean".to_string(),
        candidate: "".to_string(),
    });
    assert_eq!(paper.voter, Voter("Jean".to_string()));
    assert_eq!(paper.candidate, None);
}

// The end-to-end cycle: accepted, rejected repeat, blank, invalid.
#[test]
fn end_to_end_example() {
    let mut candidates: Vec<Candidate> = Vec::new();
    candidates.push(Candidate("Macron".to_string()));
    candidates.push(Candidate("Lepen".to_string()));
    let mut memory = MemoryStore::new(VotingMachine::new(candidates));

    let outcome = cast_ballot(&mut memory, ballot("Jean", Some("Macron"))).unwrap();
    assert_eq!(
        outcome,
        VoteOutcome::AcceptedVote(Voter("Jean".to_string()), Candidate("Macron".to_string()))
    );
    assert_eq!(score_of(&memory.machine, "Macron"), 1);

    let before = memory.machine.clone();
    let outcome = cast_ballot(&mut memory, ballot("Jean", Some("Lepen"))).unwrap();
    assert_eq!(outcome, VoteOutcome::HasAlreadyVoted(Voter("Jean".to_string())));
    assert_eq!(memory.machine, before);

    let outcome = cast_ballot(&mut memory, ballot("Marie", None)).unwrap();
    assert_eq!(outcome, VoteOutcome::BlankVote(Voter("Marie".to_string())));
    assert_eq!(memory.machine.scoreboard.blank_scores.0, 1);

    let outcome = cast_ballot(&mut memory, ballot("Paul", Some("Chirac"))).unwrap();
    assert_eq!(outcome, VoteOutcome::InvalidVote(Voter("Paul".to_string())));
    assert_eq!(memory.machine.scoreboard.invalid_scores.0, 1);

    let names: Vec<&str> = memory.machine.voters.0.iter().map(|v| v.0.as_str()).collect();
    assert_eq!(names, vec!["Jean", "Marie", "Paul"]);
    assert_eq!(score_of(&memory.machine, "Macron"), 1);
    assert_eq!(score_of(&memory.machine, "Lepen"), 0);
}

// Two cycles for distinct voters against one backend: both updates land.
#[test]
fn two_cycles_record_both() {
    let mut candidates: Vec<Candidate> = Vec::new();
    candidates.push(Candidate("Macron".to_string()));
    candidates.push(Candidate("Lepen".to_string()));
    let mut memory = MemoryStore::new(VotingMachine::new(candidates));

    cast_ballot(&mut memory, ballot("Jean", Some("Macron"))).unwrap();
    cast_ballot(&mut memory, ballot("Marie", Some("Lepen"))).unwrap();

    let stored = memory.get_voting_machine().unwrap();
    assert!(stored.voters.0.contains(&Voter("Jean".to_string())));
    assert!(stored.voters.0.contains(&Voter("Marie".to_string())));
    assert_eq!(score_of(&stored, "Macron"), 1);
    assert_eq!(score_of(&stored, "Lepen"), 1);
}

#[test]
fn empty_roster_is_a_configuration_error() {
    let configuration = Configuration { candidates: Vec::new(), storage_type: StorageType::Memory };
    assert_eq!(configuration.roster(), Err(ConfigurationError));
}

#[test]
fn roster_keeps_the_candidate_names() {
    let configuration = Configuration {
        candidates: vec!["Macron".to_string(), "Lepen".to_string()],
        storage_type: StorageType::File,
    };
    let roster = configuration.roster().unwrap();
    assert_eq!(roster, vec![Candidate("Macron".to_string()), Candidate("Lepen".to_string())]);
}
