use voting_machine::domain::{BallotPaper, Candidate, VoteOutcome, Voter, VotingMachine};

fn setup_voting_machine() -> VotingMachine {
    let mut candidates: Vec<Candidate> = Vec::new();
    candidates.push(Candidate("E.Macron".to_string()));
    candidates.push(Candidate("M.Lepen".to_string()));
    candidates.push(Candidate("JL.Melanchon".to_string()));
    VotingMachine::new(candidates)
}

#[test]
fn vote_accepted() {
    let current_voter: Voter = Voter("Jean".to_string());
    let current_candidate: Candidate = Candidate("E.Macron".to_string());

    let ballot_paper: BallotPaper = BallotPaper {
        voter: current_voter.clone(),
        candidate: Some(current_candidate.clone()),
    };
    let mut voting_machine: VotingMachine = setup_voting_machine();

    let vote_outcome: VoteOutcome = voting_machine.vote(ballot_paper);

    assert_eq!(vote_outcome, VoteOutcome::AcceptedVote(current_voter, current_candidate));
}

#[test]
fn vote_blank() {
    let current_voter: Voter = Voter("Jean".to_string());

    let ballot_paper: BallotPaper = BallotPaper { voter: current_voter.clone(), candidate: None };
    let mut voting_machine: VotingMachine = setup_voting_machine();

    let vote_outcome: VoteOutcome = voting_machine.vote(ballot_paper);

    assert_eq!(vote_outcome, VoteOutcome::BlankVote(current_voter));
}

#[test]
fn vote_invalid() {
    let current_voter: Voter = Voter("Jean".to_string());
    let current_candidate: Candidate = Candidate("J.Chirac".to_string());

    let ballot_paper: BallotPaper = BallotPaper {
        voter: current_voter.clone(),
        candidate: Some(current_candidate.clone()),
    };
    let mut voting_machine: VotingMachine = setup_voting_machine();

    let vote_outcome: VoteOutcome = voting_machine.vote(ballot_paper);

    assert_eq!(vote_outcome, VoteOutcome::InvalidVote(current_voter));
}

#[test]
fn has_already_voted() {
    let current_voter: Voter = Voter("Jean".to_string());
    let current_candidate: Candidate = Candidate("E.Macron".to_string());

    let mut voting_machine: VotingMachine = setup_voting_machine();

    voting_machine.get_voters().0.push(current_voter.clone());

    let ballot_paper: BallotPaper = BallotPaper {
        voter: current_voter.clone(),
        candidate: Some(current_candidate.clone()),
    };
    let vote_outcome: VoteOutcome = voting_machine.vote(ballot_paper);

    assert_eq!(vote_outcome, VoteOutcome::HasAlreadyVoted(current_voter));
}

#[test]
fn domain_vote_accepted() {
    let current_voter: Voter = Voter("Jean".to_string());
    let current_candidate: Candidate = Candidate("E.Macron".to_string());

    let ballot_paper: BallotPaper = BallotPaper {
        voter: current_voter.clone(),
        candidate: Some(current_candidate.clone()),
    };
    let mut voting_machine: VotingMachine = setup_voting_machine();

    let vote_outcome: VoteOutcome = voting_machine.vote(ballot_paper);

    assert_eq!(vote_outcome, VoteOutcome::AcceptedVote(current_voter, current_candidate));
}

#[test]
fn domain_vote_blank() {
    let current_voter: Voter = Voter("Jean".to_string());

    let ballot_paper: BallotPaper = BallotPaper { voter: current_voter.clone(), candidate: None };
    let mut voting_machine: VotingMachine = setup_voting_machine();

    let vote_outcome: VoteOutcome = voting_machine.vote(ballot_paper);

    assert_eq!(vote_outcome, VoteOutcome::BlankVote(current_voter));
}

#[test]
fn domain_vote_invalid() {
    let current_voter: Voter = Voter("Jean".to_string());
    let current_candidate: Candidate = Candidate("J.Chirac".to_string());

    let ballot_paper: BallotPaper = BallotPaper {
        voter: current_voter.clone(),
        candidate: Some(current_candidate.clone()),
    };
    let mut voting_machine: VotingMachine = setup_voting_machine();

    let vote_outcome: VoteOutcome = voting_machine.vote(ballot_paper);

    assert_eq!(vote_outcome, VoteOutcome::InvalidVote(current_voter));
}

#[test]
fn domain_has_already_voted() {
    let current_voter: Voter = Voter("Jean".to_string());
    let current_candidate: Candidate = Candidate("E.Macron".to_string());

    let mut voting_machine: VotingMachine = setup_voting_machine();

    voting_machine.get_voters().0.push(current_voter.clone());

    let ballot_paper: BallotPaper = BallotPaper {
        voter: current_voter.clone(),
        candidate: Some(current_candidate.clone()),
    };
    let vote_outcome: VoteOutcome = voting_machine.vote(ballot_paper);

    assert_eq!(vote_outcome, VoteOutcome::HasAlreadyVoted(current_voter));
}

fn score_of(machine: &VotingMachine, name: &str) -> usize {
    machine.scoreboard.scores.iter().find(|p| p.0 .0 == name).expect("candidate missing").1 .0
}

#[test]
fn apply_accepted_records_voter_and_score() {
    let mut machine = setup_voting_machine();
    let outcome = VoteOutcome::AcceptedVote(
        Voter("Jean".to_string()),
        Candidate("E.Macron".to_string()),
    );
    machine.apply(&outcome);
    assert_eq!(score_of(&machine, "E.Macron"), 1);
    assert_eq!(machine.voters.0.len(), 1);
    assert_eq!(machine.voters.0[0], Voter("Jean".to_string()));
}

#[test]
fn apply_accepted_twice_counts_twice() {
    let mut machine = setup_voting_machine();
    let outcome = VoteOutcome::AcceptedVote(
        Voter("Jean".to_string()),
        Candidate("E.Macron".to_string()),
    );
    machine.apply(&outcome);
    machine.apply(&outcome);
    assert_eq!(score_of(&machine, "E.Macron"), 2);
    assert_eq!(machine.voters.0.len(), 1);
}

#[test]
fn apply_blank_and_invalid_raise_their_counters() {
    let mut machine = setup_voting_machine();
    machine.apply(&VoteOutcome::BlankVote(Voter("Anne".to_string())));
    machine.apply(&VoteOutcome::InvalidVote(Voter("Paul".to_string())));
    assert_eq!(machine.scoreboard.blank_scores.0, 1);
    assert_eq!(machine.scoreboard.invalid_scores.0, 1);
    assert_eq!(machine.voters.0.len(), 2);
}

#[test]
fn apply_has_already_voted_changes_nothing() {
    let mut machine = setup_voting_machine();
    let before = machine.clone();
    machine.apply(&VoteOutcome::HasAlreadyVoted(Voter("Jean".to_string())));
    assert_eq!(machine, before);
}

#[test]
fn new_machine_dedups_roster() {
    let mut candidates: Vec<Candidate> = Vec::new();
    candidates.push(Candidate("A".to_string()));
    candidates.push(Candidate("A".to_string()));
    candidates.push(Candidate("B".to_string()));
    let machine = VotingMachine::new(candidates);
    assert_eq!(machine.scoreboard.scores.len(), 2);
    assert_eq!(machine.voters.0.len(), 0);
}

#[test]
fn recover_from_keeps_both_halves() {
    let machine = setup_voting_machine();
    let rebuilt = VotingMachine::recover_from(machine.voters.clone(), machine.scoreboard.clone());
    assert_eq!(rebuilt, machine);
}
