use voting_machine::codec::{
    decode_voting_machine, encode_voting_machine, snapshot_to_text, text_to_snapshot,
};
use voting_machine::dao::{ScoreboardDao, VotingMachineDao};
use voting_machine::domain::{Candidate, VoteOutcome, Voter, VotingMachine};
use voting_machine::errors::UnavailableError;

fn small_machine() -> VotingMachine {
    let mut candidates: Vec<Candidate> = Vec::new();
    candidates.push(Candidate("Macron".to_string()));
    candidates.push(Candidate("Lepen".to_string()));
    VotingMachine::new(candidates)
}

fn score_of(machine: &VotingMachine, name: &str) -> usize {
    machine.scoreboard.scores.iter().find(|p| p.0 .0 == name).expect("candidate missing").1 .0
}

#[test]
fn encode_writes_the_exact_record() {
    let machine = small_machine();
    let text = snapshot_to_text(machine);
    assert_eq!(
        text,
        "{\"voters\":[],\"scoreboard\":{\"scores\":{\"Macron\":0,\"Lepen\":0},\
         \"blank_scores\":0,\"invalid_score\":0}}"
    );
}

#[test]
fn encode_writes_voters_and_counts() {
    let mut machine = small_machine();
    machine.apply(&VoteOutcome::AcceptedVote(
        Voter("Jean".to_string()),
        Candidate("Macron".to_string()),
    ));
    machine.apply(&VoteOutcome::BlankVote(Voter("Marie".to_string())));
    let text = snapshot_to_text(machine);
    assert_eq!(
        text,
        "{\"voters\":[\"Jean\",\"Marie\"],\"scoreboard\":{\"scores\":{\"Macron\":1,\"Lepen\":0},\
         \"blank_scores\":1,\"invalid_score\":0}}"
    );
}

// Storing a snapshot and fetching it back returns an equal snapshot.
#[test]
fn store_value_is_conserved() {
    let mut machine = small_machine();
    machine.apply(&VoteOutcome::AcceptedVote(
        Voter("Jean".to_string()),
        Candidate("Lepen".to_string()),
    ));
    machine.apply(&VoteOutcome::InvalidVote(Voter("Paul".to_string())));
    machine.apply(&VoteOutcome::BlankVote(Voter("Marie".to_string())));
    let text = snapshot_to_text(machine.clone());
    let recovered = text_to_snapshot(text.as_str()).unwrap();
    assert_eq!(recovered, machine);
}

#[test]
fn escaped_names_round_trip() {
    let mut machine = VotingMachine::new(vec![Candidate("a\"b\\c".to_string())]);
    machine.apply(&VoteOutcome::AcceptedVote(
        Voter("quo\"ter".to_string()),
        Candidate("a\"b\\c".to_string()),
    ));
    let text = snapshot_to_text(machine.clone());
    let recovered = text_to_snapshot(text.as_str()).unwrap();
    assert_eq!(recovered, machine);
    assert_eq!(score_of(&recovered, "a\"b\\c"), 1);
}

#[test]
fn decode_rejects_broken_records() {
    assert_eq!(text_to_snapshot(""), Err(UnavailableError));
    assert_eq!(text_to_snapshot("{}"), Err(UnavailableError));
    assert_eq!(text_to_snapshot("{\"voters\":[]}"), Err(UnavailableError));
    assert_eq!(
        text_to_snapshot(
            "{\"voters\":[],\"scoreboard\":{\"scores\":{},\"blank_scores\":0,\"invalid_score\":0}"
        ),
        Err(UnavailableError)
    );
    assert_eq!(
        text_to_snapshot(
            "{\"voters\":[],\"scoreboard\":{\"scores\":{},\"blank_scores\":0,\"invalid_score\":0}}x"
        ),
        Err(UnavailableError)
    );
    assert_eq!(
        text_to_snapshot(
            "{\"voters\":[],\"scoreboard\":{\"scores\":{},\"blank_scores\":99999999999999999999,\
             \"invalid_score\":0}}"
        ),
        Err(UnavailableError)
    );
}

#[test]
fn decode_reads_an_exact_record() {
    let machine = text_to_snapshot(
        "{\"voters\":[\"Jean\"],\"scoreboard\":{\"scores\":{\"Macron\":41},\
         \"blank_scores\":2,\"invalid_score\":3}}",
    )
    .unwrap();
    assert_eq!(machine.voters.0, vec![Voter("Jean".to_string())]);
    assert_eq!(score_of(&machine, "Macron"), 41);
    assert_eq!(machine.scoreboard.blank_scores.0, 2);
    assert_eq!(machine.scoreboard.invalid_scores.0, 3);
}

#[test]
fn decode_dedups_duplicate_record_entries() {
    let machine = text_to_snapshot(
        "{\"voters\":[\"Jean\",\"Jean\"],\"scoreboard\":{\"scores\":{\"A\":7,\"A\":9},\
         \"blank_scores\":0,\"invalid_score\":0}}",
    )
    .unwrap();
    assert_eq!(machine.voters.0.len(), 1);
    assert_eq!(machine.scoreboard.scores.len(), 1);
    assert_eq!(score_of(&machine, "A"), 7);
}

#[test]
fn dao_conversion_round_trips() {
    let mut machine = small_machine();
    machine.apply(&VoteOutcome::AcceptedVote(
        Voter("Jean".to_string()),
        Candidate("Macron".to_string()),
    ));
    let dao = VotingMachineDao::from(machine.clone());
    assert_eq!(dao.voters, vec!["Jean".to_string()]);
    assert_eq!(dao.scoreboard.scores[0], ("Macron".to_string(), 1));
    let rebuilt = VotingMachine::from(dao);
    assert_eq!(rebuilt, machine);
}

#[test]
fn raw_record_encodes_as_written() {
    let dao = VotingMachineDao {
        voters: vec!["v".to_string()],
        scoreboard: ScoreboardDao {
            scores: vec![("c".to_string(), 10usize)],
            blank_scores: 4,
            invalid_score: 5,
        },
    };
    let text = encode_voting_machine(&dao);
    assert_eq!(
        text,
        "{\"voters\":[\"v\"],\"scoreboard\":{\"scores\":{\"c\":10},\
         \"blank_scores\":4,\"invalid_score\":5}}"
    );
    let back = decode_voting_machine(text.as_str()).unwrap();
    assert_eq!(back, dao);
}

#[test]
fn decode_ignores_unknown_fields() {
    let machine = text_to_snapshot(
        "{\"voters\":[],\"x\":0,\"scoreboard\":{\"scores\":{},\"blank_scores\":0,\
         \"invalid_score\":0}}",
    )
    .unwrap();
    assert_eq!(machine.voters.0.len(), 0);
    assert_eq!(machine.scoreboard.scores.len(), 0);

    let machine = text_to_snapshot(
        "{\"voters\":[\"Jean\"],\"note\":\"kept for later\",\"scoreboard\":{\"scores\":{\"A\":1},\
         \"version\":[2,{\"deep\":null}],\"blank_scores\":0,\"invalid_score\":0},\"extra\":true}",
    )
    .unwrap();
    assert_eq!(machine.voters.0, vec![Voter("Jean".to_string())]);
    assert_eq!(score_of(&machine, "A"), 1);
}

#[test]
fn decode_accepts_any_field_order() {
    let machine = text_to_snapshot(
        "{\"scoreboard\":{\"invalid_score\":3,\"scores\":{\"A\":1},\"blank_scores\":2},\
         \"voters\":[\"Jean\"]}",
    )
    .unwrap();
    assert_eq!(machine.voters.0, vec![Voter("Jean".to_string())]);
    assert_eq!(score_of(&machine, "A"), 1);
    assert_eq!(machine.scoreboard.blank_scores.0, 2);
    assert_eq!(machine.scoreboard.invalid_scores.0, 3);
}

#[test]
fn decode_accepts_whitespace() {
    let machine = text_to_snapshot(
        " { \"voters\" : [ \"Jean\" , \"Marie\" ] , \"scoreboard\" : { \"scores\" : \
         { \"A\" : 1 } , \"blank_scores\" : 1 , \"invalid_score\" : 0 } } \n",
    )
    .unwrap();
    assert_eq!(machine.voters.0.len(), 2);
    assert_eq!(score_of(&machine, "A"), 1);
    assert_eq!(machine.scoreboard.blank_scores.0, 1);
}

#[test]
fn decode_rejects_repeated_required_fields() {
    assert_eq!(
        text_to_snapshot(
            "{\"voters\":[],\"voters\":[],\"scoreboard\":{\"scores\":{},\"blank_scores\":0,\
             \"invalid_score\":0}}"
        ),
        Err(UnavailableError)
    );
    assert_eq!(
        text_to_snapshot(
            "{\"voters\":[],\"scoreboard\":{\"scores\":{},\"scores\":{},\"blank_scores\":0,\
             \"invalid_score\":0}}"
        ),
        Err(UnavailableError)
    );
}

#[test]
fn decode_rejects_missing_required_fields() {
    assert_eq!(
        text_to_snapshot("{\"voters\":[],\"scoreboard\":{\"scores\":{},\"blank_scores\":0}}"),
        Err(UnavailableError)
    );
    assert_eq!(
        text_to_snapshot(
            "{\"scoreboard\":{\"scores\":{},\"blank_scores\":0,\"invalid_score\":0}}"
        ),
        Err(UnavailableError)
    );
}
