use vstd::prelude::*;

verus! {

broadcast use vstd::seq_lib::lemma_seq_contains_after_push;

/// A voter, identified by name.
#[derive(Debug, Ord, PartialOrd, PartialEq, Eq)]
pub struct Voter(pub String);

/// A candidate of the roster, identified by name.
#[derive(Debug, Ord, PartialOrd, PartialEq, Eq)]
pub struct Candidate(pub String);

/// A non-negative vote counter; it is never decremented.
#[derive(Debug, PartialEq, Eq)]
pub struct Score(pub usize);

/// The set of voters that have already cast a ballot. A voter appears at
/// most once; once present, a voter is never removed.
#[derive(Debug, PartialEq, Eq)]
pub struct AttendanceSheet(pub Vec<Voter>);

/// The tally: one counter per roster candidate, plus the two standalone
/// counters for blank and invalid ballots. The candidate keys are fixed at
/// construction time.
#[derive(Debug, PartialEq, Eq)]
pub struct Scoreboard {
    pub scores: Vec<(Candidate, Score)>,
    pub blank_scores: Score,
    pub invalid_scores: Score,
}

/// One vote request: a voter and an optional candidate. An absent
/// candidate is an explicit blank vote.
#[derive(Debug, PartialEq, Eq)]
pub struct BallotPaper {
    pub voter: Voter,
    pub candidate: Option<Candidate>,
}

/// The classification of one vote attempt. Exactly one variant is produced
/// per attempt.
#[derive(Debug, PartialEq, Eq)]
pub enum VoteOutcome {
    AcceptedVote(Voter, Candidate),
    BlankVote(Voter),
    InvalidVote(Voter),
    HasAlreadyVoted(Voter),
}

/// The unit of persistence: one attendance sheet and one scoreboard.
#[derive(Debug, PartialEq, Eq)]
pub struct VotingMachine {
    pub voters: AttendanceSheet,
    pub scoreboard: Scoreboard,
}

/// The mathematical content of one snapshot: the attendance names in order,
/// the tally entries in order, and the two standalone counters.
pub struct MachineData {
    pub voters: Seq<Seq<char>>,
    pub scores: Seq<(Seq<char>, nat)>,
    pub blank: nat,
    pub invalid: nat,
}

impl MachineData {
    /// Voter names pairwise distinct, candidate keys pairwise distinct.
    pub open spec fn wf(self) -> bool {
        &&& forall|i: int, j: int|
            0 <= i < j < self.voters.len() ==> self.voters[i] != self.voters[j]
        &&& forall|i: int, j: int|
            0 <= i < j < keys_of(self.scores).len() ==> keys_of(self.scores)[i] != keys_of(
                self.scores,
            )[j]
    }

    /// Every counter still has room for one more vote.
    pub open spec fn has_capacity(self) -> bool {
        &&& forall|n: Seq<char>| score_in(self.scores, n) < usize::MAX
        &&& self.blank < usize::MAX
        &&& self.invalid < usize::MAX
    }
}

impl View for Voter {
    type V = Seq<char>;

    open spec fn view(&self) -> Seq<char> {
        self.0@
    }
}

impl Clone for Voter {
    fn clone(&self) -> (r: Self)
        ensures
            r == *self,
    {
        Voter(self.0.clone())
    }
}

impl Clone for Candidate {
    fn clone(&self) -> (r: Self)
        ensures
            r == *self,
    {
        Candidate(self.0.clone())
    }
}

impl Clone for Score {
    fn clone(&self) -> (r: Self)
        ensures
            r == *self,
    {
        Score(self.0)
    }
}

impl Clone for AttendanceSheet {
    fn clone(&self) -> (r: Self)
        ensures
            r.0@ == self.0@,
    {
        let mut voters: Vec<Voter> = Vec::new();
        let mut i: usize = 0;
        while i < self.0.len()
            invariant
                i <= self.0.len(),
                voters@.len() == i,
                forall|j: int| 0 <= j < i ==> voters@[j] == self.0@[j],
            decreases self.0.len() - i,
        {
            voters.push(self.0[i].clone());
            i += 1;
        }
        assert(voters@ =~= self.0@);
        AttendanceSheet(voters)
    }
}

impl Clone for Scoreboard {
    fn clone(&self) -> (r: Self)
        ensures
            r.scores@ == self.scores@,
            r.blank_scores == self.blank_scores,
            r.invalid_scores == self.invalid_scores,
    {
        let mut scores: Vec<(Candidate, Score)> = Vec::new();
        let mut i: usize = 0;
        while i < self.scores.len()
            invariant
                i <= self.scores.len(),
                scores@.len() == i,
                forall|j: int| 0 <= j < i ==> scores@[j] == self.scores@[j],
            decreases self.scores.len() - i,
        {
            scores.push((self.scores[i].0.clone(), self.scores[i].1.clone()));
            i += 1;
        }
        assert(scores@ =~= self.scores@);
        Scoreboard { scores, blank_scores: self.blank_scores.clone(), invalid_scores: self.invalid_scores.clone() }
    }
}

impl Clone for VotingMachine {
    fn clone(&self) -> (r: Self)
        ensures
            r.voters.0@ == self.voters.0@,
            r.scoreboard.scores@ == self.scoreboard.scores@,
            r.scoreboard.blank_scores == self.scoreboard.blank_scores,
            r.scoreboard.invalid_scores == self.scoreboard.invalid_scores,
            r@ == self@,
    {
        VotingMachine { voters: self.voters.clone(), scoreboard: self.scoreboard.clone() }
    }
}

impl View for Candidate {
    type V = Seq<char>;

    open spec fn view(&self) -> Seq<char> {
        self.0@
    }
}

impl AttendanceSheet {
    /// The voter names, in order of first attendance.
    pub open spec fn names(self) -> Seq<Seq<char>> {
        self.0@.map_values(|v: Voter| v@)
    }

    pub open spec fn has_name(self, name: Seq<char>) -> bool {
        self.names().contains(name)
    }

    /// Each voter appears at most once.
    pub open spec fn wf(self) -> bool {
        forall|i: int, j: int|
            0 <= i < j < self.names().len() ==> self.names()[i] != self.names()[j]
    }

    pub fn contains(&self, voter: &Voter) -> (r: bool)
        ensures
            r == self.has_name(voter@),
    {
        let mut i: usize = 0;
        while i < self.0.len()
            invariant
                i <= self.0.len(),
                forall|j: int| 0 <= j < i ==> self.names()[j] != voter@,
            decreases self.0.len() - i,
        {
            if self.0[i].0 == voter.0 {
                assert(self.names()[i as int] == voter@);
                return true;
            }
            i += 1;
        }
        assert(!self.names().contains(voter@));
        false
    }

    /// Append-only set insertion: a voter already present is not added again.
    pub fn insert(&mut self, voter: Voter)
        requires
            old(self).wf(),
        ensures
            final(self).names() == insert_name(old(self).names(), voter@),
            final(self).wf(),
    {
        if !self.contains(&voter) {
            let ghost pre = self.names();
            self.0.push(voter);
            assert(self.names() =~= pre.push(voter@));
        }
    }
}

/// Set-style insertion on a name sequence: a name already present leaves the
/// sequence unchanged, a new name is appended.
pub open spec fn insert_name(names: Seq<Seq<char>>, name: Seq<char>) -> Seq<Seq<char>> {
    if names.contains(name) {
        names
    } else {
        names.push(name)
    }
}

/// The candidate names of a tally, in key order.
pub open spec fn keys_of(entries: Seq<(Seq<char>, nat)>) -> Seq<Seq<char>> {
    entries.map_values(|p: (Seq<char>, nat)| p.0)
}

/// The count recorded for a name: the first matching entry's count, zero if
/// the name has no entry.
pub open spec fn score_in(entries: Seq<(Seq<char>, nat)>, name: Seq<char>) -> nat
    decreases entries.len(),
{
    if entries.len() == 0 {
        0
    } else if entries[0].0 == name {
        entries[0].1
    } else {
        score_in(entries.drop_first(), name)
    }
}

/// Raise by one the count of every entry whose key is `name`.
pub open spec fn bump_entries(entries: Seq<(Seq<char>, nat)>, name: Seq<char>) -> Seq<
    (Seq<char>, nat),
> {
    entries.map_values(
        |p: (Seq<char>, nat)|
            if p.0 == name {
                (p.0, (p.1 + 1) as nat)
            } else {
                p
            },
    )
}

impl Scoreboard {
    /// The tally as a sequence of (candidate name, count) pairs, in key order.
    pub open spec fn entries(self) -> Seq<(Seq<char>, nat)> {
        self.scores@.map_values(|p: (Candidate, Score)| (p.0@, p.1.0 as nat))
    }

    pub open spec fn keys(self) -> Seq<Seq<char>> {
        keys_of(self.entries())
    }

    pub open spec fn has_candidate(self, name: Seq<char>) -> bool {
        self.keys().contains(name)
    }

    pub open spec fn score_of(self, name: Seq<char>) -> nat {
        score_in(self.entries(), name)
    }

    /// Each candidate has exactly one counter.
    pub open spec fn wf(self) -> bool {
        forall|i: int, j: int| 0 <= i < j < self.keys().len() ==> self.keys()[i] != self.keys()[j]
    }

    pub fn contains_candidate(&self, candidate: &Candidate) -> (r: bool)
        ensures
            r == self.has_candidate(candidate@),
    {
        let mut i: usize = 0;
        while i < self.scores.len()
            invariant
                i <= self.scores.len(),
                forall|j: int| 0 <= j < i ==> self.keys()[j] != candidate@,
            decreases self.scores.len() - i,
        {
            if self.scores[i].0.0 == candidate.0 {
                assert(self.keys()[i as int] == candidate@);
                return true;
            }
            i += 1;
        }
        assert(!self.keys().contains(candidate@));
        false
    }

    /// Add one vote to a roster candidate's counter.
    pub fn increment(&mut self, candidate: &Candidate)
        requires
            old(self).wf(),
            old(self).has_candidate(candidate@),
            old(self).score_of(candidate@) < usize::MAX,
        ensures
            final(self).entries() == bump_entries(old(self).entries(), candidate@),
            final(self).blank_scores == old(self).blank_scores,
            final(self).invalid_scores == old(self).invalid_scores,
            final(self).wf(),
    {
        let ghost pre = *self;
        let mut i: usize = 0;
        loop
            invariant
                *self == pre,
                pre == *old(self),
                pre.wf(),
                pre.has_candidate(candidate@),
                pre.score_of(candidate@) < usize::MAX,
                i <= self.scores.len(),
                forall|j: int| 0 <= j < i ==> pre.keys()[j] != candidate@,
            decreases self.scores.len() - i,
        {
            if i == self.scores.len() {
                assert(!pre.keys().contains(candidate@));
                assert(false);
            }
            if self.scores[i].0.0 == candidate.0 {
                assert(pre.keys()[i as int] == candidate@);
                assert forall|j: int| 0 <= j < pre.entries().len() && j != i implies pre.entries()[j].0
                    != candidate@ by {
                    assert(pre.keys()[j] == pre.entries()[j].0);
                    if j > i {
                        assert(pre.keys()[i as int] != pre.keys()[j]);
                    }
                }
                proof {
                    lemma_score_at_first_match(pre.entries(), candidate@, i as int);
                }
                let count = self.scores[i].1.0;
                self.scores[i].1 = Score(count + 1);
                assert(self.scores@ == pre.scores@.update(
                    i as int,
                    (pre.scores@[i as int].0, Score((count + 1) as usize)),
                ));
                assert forall|k: int| 0 <= k < self.entries().len() implies self.entries()[k]
                    == bump_entries(pre.entries(), candidate@)[k] by {
                    assert(self.entries()[k] == (self.scores@[k].0@, self.scores@[k].1.0 as nat));
                    if k == i {
                        assert(pre.entries()[k].0 == candidate@);
                    } else {
                        assert(self.scores@[k] == pre.scores@[k]);
                        assert(pre.entries()[k].0 != candidate@);
                    }
                }
                assert(self.entries() =~= bump_entries(pre.entries(), candidate@));
                assert(self.keys() =~= pre.keys());
                return ;
            }
            i += 1;
        }
    }
}

/// Keep each name's first occurrence, drop every later one.
pub open spec fn dedup_names(names: Seq<Seq<char>>) -> Seq<Seq<char>>
    decreases names.len(),
{
    if names.len() == 0 {
        names
    } else {
        insert_name(dedup_names(names.drop_last()), names.last())
    }
}

/// Keep each key's first entry, drop every later one.
pub open spec fn dedup_entries(entries: Seq<(Seq<char>, nat)>) -> Seq<(Seq<char>, nat)>
    decreases entries.len(),
{
    if entries.len() == 0 {
        entries
    } else {
        let rest = dedup_entries(entries.drop_last());
        if keys_of(rest).contains(entries.last().0) {
            rest
        } else {
            rest.push(entries.last())
        }
    }
}

/// The names of a candidate roster, in roster order.
pub open spec fn candidate_names(candidates: Seq<Candidate>) -> Seq<Seq<char>> {
    candidates.map_values(|c: Candidate| c@)
}

impl Scoreboard {
    /// A fresh tally over the given roster: one counter per candidate, each
    /// candidate's first occurrence kept in roster order, every counter at
    /// zero.
    pub fn new(candidates: Vec<Candidate>) -> (r: Scoreboard)
        ensures
            r.wf(),
            r.keys() == dedup_names(candidate_names(candidates@)),
            forall|n: Seq<char>|
                r.has_candidate(n) <==> candidate_names(candidates@).contains(n),
            forall|n: Seq<char>| r.has_candidate(n) ==> r.score_of(n) == 0,
            r.blank_scores.0 == 0,
            r.invalid_scores.0 == 0,
    {
        let mut board = Scoreboard {
            scores: Vec::new(),
            blank_scores: Score(0),
            invalid_scores: Score(0),
        };
        assert(board.entries() =~= Seq::<(Seq<char>, nat)>::empty());
        assert(board.keys() =~= Seq::<Seq<char>>::empty());
        assert(board.keys() == dedup_names(candidate_names(candidates@.take(0)))) by {
            assert(candidate_names(candidates@.take(0)) =~= Seq::<Seq<char>>::empty());
        }
        let mut i: usize = 0;
        while i < candidates.len()
            invariant
                i <= candidates.len(),
                board.wf(),
                board.blank_scores.0 == 0,
                board.invalid_scores.0 == 0,
                board.keys() == dedup_names(candidate_names(candidates@.take(i as int))),
                forall|n: Seq<char>|
                    board.has_candidate(n) <==> candidate_names(
                        candidates@.take(i as int),
                    ).contains(n),
                forall|n: Seq<char>| board.has_candidate(n) ==> board.score_of(n) == 0,
            decreases candidates.len() - i,
        {
            let ghost prefix = candidate_names(candidates@.take(i as int));
            let ghost name = candidates@[i as int]@;
            assert(candidate_names(candidates@.take(i as int + 1)) =~= prefix.push(name));
            assert(prefix.push(name).drop_last() =~= prefix);
            assert(prefix.push(name).last() == name);
            let candidate = Candidate(candidates[i].0.clone());
            let ghost preb = board;
            if !board.contains_candidate(&candidate) {
                board.scores.push((candidate, Score(0)));
                assert(board.entries() =~= preb.entries().push((name, 0nat)));
                assert(board.keys() =~= preb.keys().push(name));
            }
            assert forall|n: Seq<char>| board.has_candidate(n) <==> prefix.push(name).contains(
                n,
            ) by {
                assert(preb.has_candidate(n) <==> prefix.contains(n));
                if preb.has_candidate(name) {
                    assert(prefix.contains(name));
                }
            }
            assert forall|n: Seq<char>| board.has_candidate(n) implies board.score_of(n) == 0 by {
                if preb.has_candidate(n) {
                    assert(preb.score_of(n) == 0);
                }
                if !preb.has_candidate(name) {
                    lemma_score_in_push(preb.entries(), (name, 0nat), n);
                }
            }
            assert(board.wf()) by {
                if !preb.has_candidate(name) {
                    assert forall|a: int, b: int|
                        0 <= a < b < board.keys().len() implies board.keys()[a]
                        != board.keys()[b] by {
                        if b < preb.keys().len() {
                            assert(preb.keys()[a] != preb.keys()[b]);
                        } else {
                            assert(preb.keys()[a] == preb.keys().push(name)[a]);
                            assert(preb.keys().contains(preb.keys()[a]));
                        }
                    }
                }
            }
            i += 1;
        }
        assert(candidates@.take(candidates@.len() as int) =~= candidates@);
        board
    }
}

/// Appending an entry leaves the count of every already-present name
/// unchanged; a fresh name takes the appended count.
proof fn lemma_score_in_push(entries: Seq<(Seq<char>, nat)>, p: (Seq<char>, nat), name: Seq<char>)
    ensures
        score_in(entries.push(p), name) == if keys_of(entries).contains(name) {
            score_in(entries, name)
        } else if p.0 == name {
            p.1
        } else {
            0
        },
    decreases entries.len(),
{
    if entries.len() == 0 {
        reveal_with_fuel(score_in, 2);
        assert(entries.push(p).drop_first() =~= Seq::<(Seq<char>, nat)>::empty());
        assert(keys_of(entries).len() == 0);
    } else {
        assert(entries.push(p)[0] == entries[0]);
        assert(entries.push(p).drop_first() =~= entries.drop_first().push(p));
        lemma_score_in_push(entries.drop_first(), p, name);
        assert(keys_of(entries)[0] == entries[0].0);
        assert(keys_of(entries).drop_first() =~= keys_of(entries.drop_first()));
        if entries[0].0 == name {
            assert(keys_of(entries).contains(name));
        } else {
            if keys_of(entries).contains(name) {
                let k = choose|k: int|
                    0 <= k < keys_of(entries).len() && keys_of(entries)[k] == name;
                assert(k != 0);
                assert(keys_of(entries.drop_first())[k - 1] == name);
                assert(keys_of(entries.drop_first()).contains(name));
            }
            if keys_of(entries.drop_first()).contains(name) {
                let k = choose|k: int|
                    0 <= k < keys_of(entries.drop_first()).len() && keys_of(
                        entries.drop_first(),
                    )[k] == name;
                assert(keys_of(entries)[k + 1] == name);
                assert(keys_of(entries).contains(name));
            }
        }
    }
}

/// The count of a name is the count at its first matching entry.
proof fn lemma_score_at_first_match(entries: Seq<(Seq<char>, nat)>, name: Seq<char>, i: int)
    requires
        0 <= i < entries.len(),
        entries[i].0 == name,
        forall|j: int| 0 <= j < i ==> entries[j].0 != name,
    ensures
        score_in(entries, name) == entries[i].1,
    decreases i,
{
    if i > 0 {
        lemma_score_at_first_match(entries.drop_first(), name, i - 1);
    }
}

impl View for VotingMachine {
    type V = MachineData;

    open spec fn view(&self) -> MachineData {
        MachineData {
            voters: self.voters.names(),
            scores: self.scoreboard.entries(),
            blank: self.scoreboard.blank_scores.0 as nat,
            invalid: self.scoreboard.invalid_scores.0 as nat,
        }
    }
}

impl VotingMachine {
    /// Both halves of the snapshot are well formed.
    pub open spec fn wf(self) -> bool {
        self.voters.wf() && self.scoreboard.wf()
    }

    /// A fresh machine: empty attendance, one zeroed counter per candidate,
    /// each candidate's first occurrence kept in roster order.
    pub fn new(candidates: Vec<Candidate>) -> (r: VotingMachine)
        ensures
            r.wf(),
            r.voters.names().len() == 0,
            r.scoreboard.keys() == dedup_names(candidate_names(candidates@)),
            forall|n: Seq<char>|
                r.scoreboard.has_candidate(n) <==> candidate_names(candidates@).contains(n),
            forall|n: Seq<char>| r.scoreboard.has_candidate(n) ==> r.scoreboard.score_of(n) == 0,
            r.scoreboard.blank_scores.0 == 0,
            r.scoreboard.invalid_scores.0 == 0,
    {
        let scoreboard: Scoreboard = Scoreboard::new(candidates);
        let voters: AttendanceSheet = AttendanceSheet(Vec::new());
        assert(voters.names() =~= Seq::<Seq<char>>::empty());
        VotingMachine { scoreboard, voters }
    }

    /// Reassemble a machine from its two halves, unchanged.
    pub fn recover_from(voters: AttendanceSheet, scoreboard: Scoreboard) -> (r: VotingMachine)
        ensures
            r.voters == voters,
            r.scoreboard == scoreboard,
    {
        VotingMachine { voters, scoreboard }
    }

    /// Classify one ballot against the current snapshot. Pure: the snapshot
    /// is left untouched, and every ballot gets an outcome, never an error.
    pub fn vote(&mut self, ballot_paper: BallotPaper) -> (r: VoteOutcome)
        ensures
            *final(self) == *old(self),
            r == decide(*old(self), ballot_paper),
    {
        if self.voters.contains(&ballot_paper.voter) {
            return VoteOutcome::HasAlreadyVoted(ballot_paper.voter);
        }
        match ballot_paper.candidate {
            Some(candidate) => {
                if self.scoreboard.contains_candidate(&candidate) {
                    VoteOutcome::AcceptedVote(ballot_paper.voter, candidate)
                } else {
                    VoteOutcome::InvalidVote(ballot_paper.voter)
                }
            },
            None => VoteOutcome::BlankVote(ballot_paper.voter),
        }
    }

    /// Carry out the state change that a vote outcome authorizes: record the
    /// voter and raise the one counter the outcome names. A terminal
    /// `HasAlreadyVoted` changes nothing.
    pub fn apply(&mut self, outcome: &VoteOutcome)
        requires
            old(self).wf(),
            outcome matches VoteOutcome::AcceptedVote(_, c) ==> old(self).scoreboard.has_candidate(
                c@,
            ) && old(self).scoreboard.score_of(c@) < usize::MAX,
            outcome is BlankVote ==> old(self).scoreboard.blank_scores.0 < usize::MAX,
            outcome is InvalidVote ==> old(self).scoreboard.invalid_scores.0 < usize::MAX,
        ensures
            final(self).wf(),
            apply_step(old(self)@, *outcome, final(self)@),
    {
        match outcome {
            VoteOutcome::AcceptedVote(voter, candidate) => {
                self.voters.insert(Voter(voter.0.clone()));
                self.scoreboard.increment(candidate);
            },
            VoteOutcome::BlankVote(voter) => {
                self.voters.insert(Voter(voter.0.clone()));
                let count = self.scoreboard.blank_scores.0;
                self.scoreboard.blank_scores = Score(count + 1);
                assert(self.scoreboard.entries() =~= old(self).scoreboard.entries());
                assert(self.scoreboard.keys() =~= old(self).scoreboard.keys());
            },
            VoteOutcome::InvalidVote(voter) => {
                self.voters.insert(Voter(voter.0.clone()));
                let count = self.scoreboard.invalid_scores.0;
                self.scoreboard.invalid_scores = Score(count + 1);
                assert(self.scoreboard.entries() =~= old(self).scoreboard.entries());
                assert(self.scoreboard.keys() =~= old(self).scoreboard.keys());
            },
            VoteOutcome::HasAlreadyVoted(_) => {},
        }
    }

    pub fn get_scoreboard(&mut self) -> (r: &mut Scoreboard)
        ensures
            *r == old(self).scoreboard,
            final(self).scoreboard == *final(r),
            final(self).voters == old(self).voters,
    {
        &mut self.scoreboard
    }

    pub fn get_voters(&mut self) -> (r: &mut AttendanceSheet)
        ensures
            *r == old(self).voters,
            final(self).voters == *final(r),
            final(self).scoreboard == old(self).scoreboard,
    {
        &mut self.voters
    }
}

/// The admission decision, in its strict order: attendance first, then the
/// blank case, then roster membership. Pure function of snapshot and ballot.
pub open spec fn decide(machine: VotingMachine, ballot: BallotPaper) -> VoteOutcome {
    if machine.voters.has_name(ballot.voter@) {
        VoteOutcome::HasAlreadyVoted(ballot.voter)
    } else {
        match ballot.candidate {
            Some(c) => if machine.scoreboard.has_candidate(c@) {
                VoteOutcome::AcceptedVote(ballot.voter, c)
            } else {
                VoteOutcome::InvalidVote(ballot.voter)
            },
            None => VoteOutcome::BlankVote(ballot.voter),
        }
    }
}

/// How the snapshot after an applied outcome relates to the snapshot before
/// it: the outcome's voter is recorded, exactly the counter the outcome
/// names is one higher, and everything else is unchanged.
pub open spec fn apply_step(pre: MachineData, outcome: VoteOutcome, post: MachineData) -> bool {
    match outcome {
        VoteOutcome::AcceptedVote(v, c) => {
            &&& post.voters == insert_name(pre.voters, v@)
            &&& post.scores == bump_entries(pre.scores, c@)
            &&& post.blank == pre.blank
            &&& post.invalid == pre.invalid
        },
        VoteOutcome::BlankVote(v) => {
            &&& post.voters == insert_name(pre.voters, v@)
            &&& post.scores == pre.scores
            &&& post.blank == pre.blank + 1
            &&& post.invalid == pre.invalid
        },
        VoteOutcome::InvalidVote(v) => {
            &&& post.voters == insert_name(pre.voters, v@)
            &&& post.scores == pre.scores
            &&& post.blank == pre.blank
            &&& post.invalid == pre.invalid + 1
        },
        VoteOutcome::HasAlreadyVoted(_) => post == pre,
    }
}

/// Inserting a name makes it present, keeps every other membership as it
/// was, and grows the sequence by at most one.
pub proof fn lemma_insert_name(names: Seq<Seq<char>>, name: Seq<char>)
    ensures
        insert_name(names, name).contains(name),
        forall|x: Seq<char>|
            insert_name(names, name).contains(x) <==> (names.contains(x) || x == name),
        insert_name(names, name).len() <= names.len() + 1,
{
}

/// Bumping a name's counter never adds or removes a counter.
pub proof fn lemma_bump_preserves_keys(entries: Seq<(Seq<char>, nat)>, name: Seq<char>)
    ensures
        keys_of(bump_entries(entries, name)) == keys_of(entries),
{
    assert(keys_of(bump_entries(entries, name)) =~= keys_of(entries));
}

/// Bumping raises the bumped name's count by exactly one (when the name has
/// a counter) and leaves every other name's count unchanged.
pub proof fn lemma_bump_score(entries: Seq<(Seq<char>, nat)>, name: Seq<char>)
    ensures
        keys_of(entries).contains(name) ==> score_in(bump_entries(entries, name), name)
            == score_in(entries, name) + 1,
        forall|other: Seq<char>| #![auto]
            other != name ==> score_in(bump_entries(entries, name), other) == score_in(
                entries,
                other,
            ),
    decreases entries.len(),
{
    if entries.len() > 0 {
        lemma_bump_score(entries.drop_first(), name);
        assert(bump_entries(entries, name).drop_first() =~= bump_entries(
            entries.drop_first(),
            name,
        ));
        assert forall|other: Seq<char>| other != name implies score_in(
            bump_entries(entries, name),
            other,
        ) == score_in(entries, other) by {
            assert(bump_entries(entries, name)[0].0 == entries[0].0);
            if entries[0].0 != other {
                assert(score_in(bump_entries(entries.drop_first(), name), other) == score_in(
                    entries.drop_first(),
                    other,
                ));
            }
        }
        if !(entries[0].0 == name) && keys_of(entries).contains(name) {
            let k = choose|k: int| 0 <= k < keys_of(entries).len() && keys_of(entries)[k] == name;
            assert(keys_of(entries)[0] == entries[0].0);
            assert(k != 0);
            assert(keys_of(entries.drop_first())[k - 1] == keys_of(entries)[k]);
            assert(keys_of(entries.drop_first()).contains(name));
        }
    }
}

/// The first ballot of a voter for a roster candidate is accepted.
pub proof fn lemma_first_ballot_accepted(m: VotingMachine, v: Voter, c: Candidate)
    requires
        !m.voters.has_name(v@),
        m.scoreboard.has_candidate(c@),
    ensures
        decide(m, (BallotPaper { voter: v, candidate: Some(c) })) == VoteOutcome::AcceptedVote(
            v,
            c,
        ),
{
}

/// The first ballot of a voter with no candidate is a blank vote.
pub proof fn lemma_first_ballot_blank(m: VotingMachine, v: Voter)
    requires
        !m.voters.has_name(v@),
    ensures
        decide(m, (BallotPaper { voter: v, candidate: None })) == VoteOutcome::BlankVote(v),
{
}

/// The first ballot of a voter for a candidate outside the roster is an
/// invalid vote.
pub proof fn lemma_first_ballot_invalid(m: VotingMachine, v: Voter, c: Candidate)
    requires
        !m.voters.has_name(v@),
        !m.scoreboard.has_candidate(c@),
    ensures
        decide(m, (BallotPaper { voter: v, candidate: Some(c) })) == VoteOutcome::InvalidVote(v),
{
}

/// A ballot of a voter already in attendance is rejected, whatever its
/// candidate field says.
pub proof fn lemma_repeat_ballot_rejected(m: VotingMachine, b: BallotPaper)
    requires
        m.voters.has_name(b.voter@),
    ensures
        decide(m, b) == VoteOutcome::HasAlreadyVoted(b.voter),
{
}

/// Once any first ballot of a voter has been applied, every further ballot
/// of that voter is rejected, whatever its candidate field says.
pub proof fn lemma_second_ballot_rejected(
    m: VotingMachine,
    m2: VotingMachine,
    b1: BallotPaper,
    b2: BallotPaper,
)
    requires
        !m.voters.has_name(b1.voter@),
        apply_step(m@, decide(m, b1), m2@),
        b2.voter@ == b1.voter@,
    ensures
        decide(m2, b2) == VoteOutcome::HasAlreadyVoted(b2.voter),
{
    lemma_insert_name(m.voters.names(), b1.voter@);
}

/// Applying the same accepted outcome twice counts the vote twice: `apply`
/// does not deduplicate, only the attendance check in the decision does. The
/// attendance sheet still grows by at most one.
pub proof fn lemma_apply_accepted_twice_counts_twice(
    m0: VotingMachine,
    m1: VotingMachine,
    m2: VotingMachine,
    v: Voter,
    c: Candidate,
)
    requires
        m0.scoreboard.has_candidate(c@),
        apply_step(m0@, VoteOutcome::AcceptedVote(v, c), m1@),
        apply_step(m1@, VoteOutcome::AcceptedVote(v, c), m2@),
    ensures
        m2.scoreboard.score_of(c@) == m0.scoreboard.score_of(c@) + 2,
        m2.voters.has_name(v@),
        m2.voters.names().len() <= m0.voters.names().len() + 1,
{
    lemma_bump_preserves_keys(m0.scoreboard.entries(), c@);
    lemma_bump_score(m0.scoreboard.entries(), c@);
    lemma_bump_score(m1.scoreboard.entries(), c@);
    lemma_insert_name(m0.voters.names(), v@);
    lemma_insert_name(m1.voters.names(), v@);
}

} // verus!
