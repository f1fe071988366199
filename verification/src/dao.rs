use vstd::prelude::*;

use crate::domain::{
    dedup_entries, dedup_names, keys_of, AttendanceSheet, Candidate, MachineData, Score,
    Scoreboard, Voter, VotingMachine,
};

verus! {

/// The tally half of the stored record: plain strings and plain counts.
#[derive(Debug, PartialEq, Eq)]
pub struct ScoreboardDao {
    pub scores: Vec<(String, usize)>,
    pub blank_scores: usize,
    pub invalid_score: usize,
}

/// The whole stored record: the voter names and the tally.
#[derive(Debug, PartialEq, Eq)]
pub struct VotingMachineDao {
    pub voters: Vec<String>,
    pub scoreboard: ScoreboardDao,
}

/// The mathematical content of the tally half of a record.
pub struct TallyData {
    pub scores: Seq<(Seq<char>, nat)>,
    pub blank: nat,
    pub invalid: nat,
}

impl View for ScoreboardDao {
    type V = TallyData;

    open spec fn view(&self) -> TallyData {
        TallyData {
            scores: self.scores@.map_values(|p: (String, usize)| (p.0@, p.1 as nat)),
            blank: self.blank_scores as nat,
            invalid: self.invalid_score as nat,
        }
    }
}

impl View for VotingMachineDao {
    type V = MachineData;

    open spec fn view(&self) -> MachineData {
        MachineData {
            voters: self.voters@.map_values(|s: String| s@),
            scores: self.scoreboard@.scores,
            blank: self.scoreboard@.blank,
            invalid: self.scoreboard@.invalid,
        }
    }
}

impl ScoreboardDao {
    /// Flatten a tally into the stored form, entry for entry.
    pub fn from(scoreboard: Scoreboard) -> (r: ScoreboardDao)
        ensures
            r@.scores == scoreboard.entries(),
            r@.blank == scoreboard.blank_scores.0 as nat,
            r@.invalid == scoreboard.invalid_scores.0 as nat,
    {
        let mut scores: Vec<(String, usize)> = Vec::new();
        let mut i: usize = 0;
        while i < scoreboard.scores.len()
            invariant
                i <= scoreboard.scores.len(),
                scores@.len() == i,
                forall|j: int|
                    0 <= j < i ==> scores@[j].0@ == scoreboard.entries()[j].0 && scores@[j].1
                        as nat == scoreboard.entries()[j].1,
            decreases scoreboard.scores.len() - i,
        {
            scores.push((scoreboard.scores[i].0.0.clone(), scoreboard.scores[i].1.0));
            i += 1;
        }
        let r = ScoreboardDao {
            scores,
            blank_scores: scoreboard.blank_scores.0,
            invalid_score: scoreboard.invalid_score_count(),
        };
        assert(r@.scores =~= scoreboard.entries());
        r
    }
}

impl Scoreboard {
    /// The invalid counter's plain value.
    pub fn invalid_score_count(&self) -> (r: usize)
        ensures
            r == self.invalid_scores.0,
    {
        self.invalid_scores.0
    }

    /// Rebuild a tally from a stored record, keeping each candidate's first
    /// entry: the result is well formed even when the record holds a key
    /// twice.
    pub fn from(scoreboard_dao: ScoreboardDao) -> (r: Scoreboard)
        ensures
            r.entries() == dedup_entries(scoreboard_dao@.scores),
            r.blank_scores.0 as nat == scoreboard_dao@.blank,
            r.invalid_scores.0 as nat == scoreboard_dao@.invalid,
            r.wf(),
    {
        let ghost target = scoreboard_dao@.scores;
        let mut board = Scoreboard {
            scores: Vec::new(),
            blank_scores: Score(scoreboard_dao.blank_scores),
            invalid_scores: Score(scoreboard_dao.invalid_score),
        };
        assert(board.entries() =~= Seq::<(Seq<char>, nat)>::empty());
        assert(board.entries() == dedup_entries(target.take(0))) by {
            assert(target.take(0) =~= Seq::<(Seq<char>, nat)>::empty());
        }
        let mut i: usize = 0;
        while i < scoreboard_dao.scores.len()
            invariant
                i <= scoreboard_dao.scores.len(),
                target == scoreboard_dao@.scores,
                target.len() == scoreboard_dao.scores.len(),
                board.entries() == dedup_entries(target.take(i as int)),
                board.wf(),
                board.blank_scores.0 as nat == scoreboard_dao@.blank,
                board.invalid_scores.0 as nat == scoreboard_dao@.invalid,
            decreases scoreboard_dao.scores.len() - i,
        {
            let ghost pre = board;
            let candidate = Candidate(scoreboard_dao.scores[i].0.clone());
            let count = Score(scoreboard_dao.scores[i].1);
            assert(target[i as int] == (candidate@, count.0 as nat));
            if !board.contains_candidate(&candidate) {
                board.scores.push((candidate, count));
                assert(board.entries() =~= pre.entries().push(target[i as int]));
                assert(board.keys() =~= keys_of(pre.entries()).push(target[i as int].0));
                assert(board.wf()) by {
                    assert forall|a: int, b: int|
                        0 <= a < b < board.keys().len() implies board.keys()[a]
                        != board.keys()[b] by {
                        if b < pre.keys().len() {
                            assert(pre.keys()[a] != pre.keys()[b]);
                        } else {
                            assert(pre.keys()[a] == board.keys()[a]);
                            assert(pre.keys().contains(pre.keys()[a]));
                        }
                    }
                }
            }
            proof {
                assert(target.take(i + 1).drop_last() =~= target.take(i as int));
                assert(target.take(i + 1).last() == target[i as int]);
                assert(keys_of(pre.entries()) == pre.keys());
            }
            i += 1;
        }
        assert(target.take(target.len() as int) =~= target);
        board
    }
}

impl VotingMachineDao {
    /// Flatten a snapshot into the stored record, name for name and entry
    /// for entry.
    pub fn from(voting_machine: VotingMachine) -> (r: VotingMachineDao)
        ensures
            r@ == voting_machine@,
    {
        let mut voters: Vec<String> = Vec::new();
        let mut i: usize = 0;
        while i < voting_machine.voters.0.len()
            invariant
                i <= voting_machine.voters.0.len(),
                voters@.len() == i,
                forall|j: int| 0 <= j < i ==> voters@[j]@ == voting_machine.voters.names()[j],
            decreases voting_machine.voters.0.len() - i,
        {
            voters.push(voting_machine.voters.0[i].0.clone());
            i += 1;
        }
        let r = VotingMachineDao {
            voters,
            scoreboard: ScoreboardDao::from(voting_machine.scoreboard),
        };
        assert(r@.voters =~= voting_machine.voters.names());
        r
    }
}

impl VotingMachine {
    /// Rebuild a snapshot from a stored record, keeping each voter's and each
    /// candidate's first occurrence: the result is well formed even when the
    /// record holds duplicates.
    pub fn from(voting_machine_dao: VotingMachineDao) -> (r: VotingMachine)
        ensures
            r@.voters == dedup_names(voting_machine_dao@.voters),
            r@.scores == dedup_entries(voting_machine_dao@.scores),
            r@.blank == voting_machine_dao@.blank,
            r@.invalid == voting_machine_dao@.invalid,
            r.wf(),
    {
        let ghost target = voting_machine_dao@.voters;
        let mut sheet = AttendanceSheet(Vec::new());
        assert(sheet.names() =~= Seq::<Seq<char>>::empty());
        assert(sheet.names() == dedup_names(target.take(0))) by {
            assert(target.take(0) =~= Seq::<Seq<char>>::empty());
        }
        let mut i: usize = 0;
        while i < voting_machine_dao.voters.len()
            invariant
                i <= voting_machine_dao.voters.len(),
                target == voting_machine_dao@.voters,
                target.len() == voting_machine_dao.voters.len(),
                sheet.names() == dedup_names(target.take(i as int)),
                sheet.wf(),
            decreases voting_machine_dao.voters.len() - i,
        {
            sheet.insert(Voter(voting_machine_dao.voters[i].clone()));
            proof {
                assert(target.take(i + 1).drop_last() =~= target.take(i as int));
                assert(target.take(i + 1).last() == target[i as int]);
            }
            i += 1;
        }
        assert(target.take(target.len() as int) =~= target);
        let scoreboard = Scoreboard::from(voting_machine_dao.scoreboard);
        VotingMachine { voters: sheet, scoreboard }
    }
}

/// On a well-formed snapshot the two flattenings above are exact inverses:
/// first occurrences are all there is to keep.
pub proof fn lemma_dedup_of_wf_data(d: MachineData)
    requires
        d.wf(),
    ensures
        dedup_names(d.voters) == d.voters,
        dedup_entries(d.scores) == d.scores,
{
    lemma_dedup_names_distinct(d.voters);
    lemma_dedup_entries_distinct(d.scores);
}

/// Deduplication leaves a duplicate-free name sequence unchanged.
proof fn lemma_dedup_names_distinct(names: Seq<Seq<char>>)
    requires
        forall|i: int, j: int| 0 <= i < j < names.len() ==> names[i] != names[j],
    ensures
        dedup_names(names) == names,
    decreases names.len(),
{
    if names.len() > 0 {
        let front = names.drop_last();
        lemma_dedup_names_distinct(front);
        assert(!front.contains(names.last())) by {
            if front.contains(names.last()) {
                let k = choose|k: int| 0 <= k < front.len() && front[k] == names.last();
                assert(names[k] == names[names.len() - 1]);
            }
        }
        assert(front.push(names.last()) =~= names);
    }
}

/// Deduplication leaves a duplicate-free entry sequence unchanged.
proof fn lemma_dedup_entries_distinct(entries: Seq<(Seq<char>, nat)>)
    requires
        forall|i: int, j: int|
            0 <= i < j < keys_of(entries).len() ==> keys_of(entries)[i] != keys_of(entries)[j],
    ensures
        dedup_entries(entries) == entries,
    decreases entries.len(),
{
    if entries.len() > 0 {
        let front = entries.drop_last();
        assert(keys_of(front) =~= keys_of(entries).drop_last());
        assert forall|i: int, j: int|
            0 <= i < j < keys_of(front).len() implies keys_of(front)[i] != keys_of(front)[j] by {
            assert(keys_of(entries)[i] != keys_of(entries)[j]);
        }
        lemma_dedup_entries_distinct(front);
        assert(!keys_of(front).contains(entries.last().0)) by {
            if keys_of(front).contains(entries.last().0) {
                let k = choose|k: int|
                    0 <= k < keys_of(front).len() && keys_of(front)[k] == entries.last().0;
                assert(keys_of(entries)[k] == keys_of(entries)[entries.len() - 1]);
            }
        }
        assert(front.push(entries.last()) =~= entries);
    }
}

} // verus!
