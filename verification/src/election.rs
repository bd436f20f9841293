//! The commit-reveal election.
//!
//! A fixed commit deadline splits time in two phases: while `now` is below
//! the deadline, hash commitments are collected; from the deadline on,
//! ballots are revealed against their commitments and tallied. The phase is
//! recomputed from the caller-supplied clock on every call; a commitment
//! moves one way, from committed to revealed, and is never deleted.

use crate::errors::Error;
use crate::hashing::commit_digest;
use crate::hashing::hash_hex;
use crate::maps::IdMap;
use crate::maps::StrMap;
use crate::maps::kv_map;
use crate::maps::lemma_kv_map_domain;
use vstd::prelude::*;
use vstd::string::StrSliceExecFns;

verus! {

/// The candidate a ballot names: its leading character read as a decimal
/// digit. Ballots that do not start with a digit name no candidate.
pub open spec fn ballot_candidate(vote: Seq<char>) -> Option<u128> {
    if vote.len() == 0 {
        None
    } else if 48 <= vote[0] as u32 <= 57 {
        Some((vote[0] as u32 - 48) as u128)
    } else {
        None
    }
}

/// How many commitments of a status table have been revealed.
pub open spec fn count_revealed(s: Seq<(Seq<char>, bool)>) -> int
    decreases s.len(),
{
    if s.len() == 0 {
        0
    } else {
        count_revealed(s.drop_last()) + if !s.last().1 {
            1int
        } else {
            0int
        }
    }
}

pub proof fn lemma_count_revealed_le_len(s: Seq<(Seq<char>, bool)>)
    ensures
        0 <= count_revealed(s) <= s.len(),
    decreases s.len(),
{
    if s.len() > 0 {
        lemma_count_revealed_le_len(s.drop_last());
    }
}

pub proof fn lemma_count_revealed_update(s: Seq<(Seq<char>, bool)>, i: int, k: Seq<char>)
    requires
        0 <= i < s.len(),
        s[i].1 == true,
    ensures
        count_revealed(s.update(i, (k, false))) == count_revealed(s) + 1,
    decreases s.len(),
{
    let t = s.update(i, (k, false));
    if i == s.len() - 1 {
        assert(t.drop_last() =~= s.drop_last());
    } else {
        assert(t.last() == s.last());
        assert(t.drop_last() =~= s.drop_last().update(i, (k, false)));
        assert(s.drop_last()[i] == s[i]);
        lemma_count_revealed_update(s.drop_last(), i, k);
    }
}

pub struct CommitRevealElection {
    candidate_id: u128,
    candidate_map: IdMap<String>,
    candidate_votes: IdMap<u128>,
    commit_phase_end_time: u64,
    number_of_votes_cast: u128,
    vote_commits: Vec<String>,
    vote_statuses: StrMap<bool>,
}

impl CommitRevealElection {
    /// The instant the commit phase ends and the reveal phase begins.
    pub closed spec fn deadline(&self) -> u64 {
        self.commit_phase_end_time
    }

    /// Every commitment ever made, mapped to `true` while it is still
    /// committed and to `false` once revealed.
    pub closed spec fn commits(&self) -> Map<Seq<char>, bool> {
        self.vote_statuses.to_map()
    }

    /// The vote count of every candidate that has received a revealed vote.
    pub closed spec fn tallies(&self) -> Map<u128, u128> {
        self.candidate_votes.to_map()
    }

    /// Candidate names by id.
    pub closed spec fn candidates(&self) -> Map<u128, String> {
        self.candidate_map.to_map()
    }

    /// The highest assigned candidate id.
    pub closed spec fn n_candidates(&self) -> u128 {
        self.candidate_id
    }

    pub closed spec fn votes_cast(&self) -> u128 {
        self.number_of_votes_cast
    }

    /// Commitments are accepted strictly before the deadline.
    pub open spec fn in_commit_phase(&self, now: u64) -> bool {
        now < self.deadline()
    }

    pub closed spec fn wf(&self) -> bool {
        &&& self.vote_statuses.wf()
        &&& self.candidate_map.wf()
        &&& self.candidate_votes.wf()
        &&& self.candidate_map.entries_seq().len() == self.candidate_id
        &&& forall|i: int|
            0 <= i < self.candidate_map.entries_seq().len()
                ==> #[trigger] self.candidate_map.entries_seq()[i].0 == i + 1
        &&& self.number_of_votes_cast == self.vote_statuses.keyed().len()
        &&& self.vote_commits@.len() == self.vote_statuses.keyed().len()
        &&& forall|i: int|
            0 <= i < self.vote_commits@.len()
                ==> #[trigger] self.vote_commits@[i]@ == self.vote_statuses.keyed()[i].0
        &&& forall|i: int|
            0 <= i < self.candidate_votes.entries_seq().len()
                ==> #[trigger] self.candidate_votes.entries_seq()[i].1 <= count_revealed(
                self.vote_statuses.keyed(),
            )
    }

    /// What a reveal of `vote` against commitment `commit` at time `now`
    /// must produce: the error of the first failing check, or the candidate
    /// whose tally gains the vote.
    pub open spec fn reveal_outcome(self, vote: Seq<char>, commit: Seq<char>, now: u64) -> Result<
        u128,
        Error,
    > {
        if self.in_commit_phase(now) {
            Err(Error::PhaseViolation)
        } else if !self.commits().dom().contains(commit) {
            Err(Error::UnknownCommitment)
        } else if self.commits()[commit] != true {
            Err(Error::AlreadyRevealed)
        } else if commit_digest(vote) != commit {
            Err(Error::HashMismatch)
        } else if ballot_candidate(vote) is None {
            Err(Error::MalformedBallot)
        } else if ballot_candidate(vote)->Some_0 > self.n_candidates() {
            Err(Error::UnknownCandidate)
        } else {
            Ok(ballot_candidate(vote)->Some_0)
        }
    }

    /// Starts an election whose commit phase is open from `now` for the
    /// given number of seconds.
    pub fn new(commit_phase_length_in_secs: u128, now: u64) -> (r: Self)
        requires
            20 <= commit_phase_length_in_secs,
            now + commit_phase_length_in_secs <= u64::MAX,
        ensures
            r.wf(),
            r.deadline() == now + commit_phase_length_in_secs,
            r.commits() == Map::<Seq<char>, bool>::empty(),
            r.tallies() == Map::<u128, u128>::empty(),
            r.candidates() == Map::<u128, String>::empty(),
            r.n_candidates() == 0,
            r.votes_cast() == 0,
    {
        CommitRevealElection {
            candidate_id: 0,
            candidate_map: IdMap::new(),
            candidate_votes: IdMap::new(),
            commit_phase_end_time: now + (commit_phase_length_in_secs as u64),
            number_of_votes_cast: 0,
            vote_commits: Vec::new(),
            vote_statuses: StrMap::new(),
        }
    }

    /// Registers a candidate under the next sequential id, starting at 1.
    pub fn add_candidate(&mut self, name: String) -> (id: u128)
        requires
            old(self).wf(),
            old(self).n_candidates() < u128::MAX,
        ensures
            final(self).wf(),
            id == old(self).n_candidates() + 1,
            final(self).n_candidates() == id,
            final(self).candidates() == old(self).candidates().insert(id, name),
            final(self).commits() == old(self).commits(),
            final(self).tallies() == old(self).tallies(),
            final(self).deadline() == old(self).deadline(),
            final(self).votes_cast() == old(self).votes_cast(),
    {
        let ghost s0 = self.candidate_map.entries_seq();
        self.candidate_id = self.candidate_id + 1;
        let id = self.candidate_id;
        proof {
            lemma_kv_map_domain(s0, id);
        }
        self.candidate_map.insert(id, name);
        proof {
            let s1 = self.candidate_map.entries_seq();
            let i = choose|i: int| 0 <= i <= s0.len() && s1 == s0.insert(i, (id, name));
            if i < s0.len() {
                assert(s1[i + 1] == s0[i]);
                assert(s1[i as int].0 == id);
                assert(false);
            }
            assert(forall|j: int| 0 <= j < s1.len() ==> #[trigger] s1[j].0 == j + 1);
        }
        id
    }

    /// Records a hash commitment during the commit phase. Fails with
    /// `PhaseViolation` at or after the deadline and with
    /// `DuplicateCommitment` if the hash was committed before, in that order.
    pub fn commit_vote(&mut self, vote_commit: String, now: u64) -> (r: Result<(), Error>)
        requires
            old(self).wf(),
        ensures
            final(self).wf(),
            r is Ok <==> (old(self).in_commit_phase(now) && !old(self).commits().dom().contains(
                vote_commit@,
            )),
            r is Ok ==> {
                &&& final(self).commits() == old(self).commits().insert(vote_commit@, true)
                &&& final(self).votes_cast() == old(self).votes_cast() + 1
                &&& final(self).tallies() == old(self).tallies()
                &&& final(self).candidates() == old(self).candidates()
                &&& final(self).n_candidates() == old(self).n_candidates()
                &&& final(self).deadline() == old(self).deadline()
            },
            r is Err ==> *final(self) == *old(self),
            r == Err::<(), Error>(Error::PhaseViolation) <==> !old(self).in_commit_phase(now),
            (r is Err && old(self).in_commit_phase(now)) <==> r == Err::<(), Error>(
                Error::DuplicateCommitment,
            ),
    {
        if now >= self.commit_phase_end_time {
            return Err(Error::PhaseViolation);
        }
        if self.vote_statuses.contains_key(&vote_commit) {
            return Err(Error::DuplicateCommitment);
        }
        let ghost k0 = self.vote_statuses.keyed();
        // the table length is a usize, so the vote counter cannot wrap
        let status_count = self.vote_statuses.len();
        proof {
            assert(self.number_of_votes_cast == status_count);
            lemma_count_revealed_le_len(k0);
        }
        self.vote_commits.push(vote_commit.clone());
        self.vote_statuses.insert(&vote_commit, true);
        self.number_of_votes_cast = self.number_of_votes_cast + 1;
        proof {
            let k1 = self.vote_statuses.keyed();
            assert(k1 == k0.push((vote_commit@, true)));
            assert(count_revealed(k1) == count_revealed(k0)) by {
                assert(k1.drop_last() =~= k0);
            }
            assert(forall|i: int|
                0 <= i < k0.len() ==> #[trigger] self.vote_commits@[i]@ == k1[i].0);
        }
        Ok(())
    }

    /// Reveals a ballot against its commitment from the deadline on: checks
    /// phase, commitment existence, single use and the Keccak-256 digest,
    /// then parses the ballot's leading character as the candidate id and
    /// adds one vote to that candidate's tally.
    pub fn reveal_vote(&mut self, vote: String, vote_commit: String, now: u64) -> (r: Result<
        (),
        Error,
    >)
        requires
            old(self).wf(),
        ensures
            final(self).wf(),
            match old(self).reveal_outcome(vote@, vote_commit@, now) {
                Ok(n) => {
                    &&& r is Ok
                    &&& final(self).commits() == old(self).commits().insert(vote_commit@, false)
                    &&& final(self).tallies() == old(self).tallies().insert(
                        n,
                        (if old(self).tallies().dom().contains(n) {
                            old(self).tallies()[n] + 1
                        } else {
                            1
                        }) as u128,
                    )
                    &&& final(self).candidates() == old(self).candidates()
                    &&& final(self).n_candidates() == old(self).n_candidates()
                    &&& final(self).votes_cast() == old(self).votes_cast()
                    &&& final(self).deadline() == old(self).deadline()
                },
                Err(e) => r == Err::<(), Error>(e) && *final(self) == *old(self),
            },
    {
        if now < self.commit_phase_end_time {
            return Err(Error::PhaseViolation);
        }
        let committed = match self.vote_statuses.get(&vote_commit) {
            None => {
                return Err(Error::UnknownCommitment);
            },
            Some(b) => *b,
        };
        if !committed {
            return Err(Error::AlreadyRevealed);
        }
        let vote_hex = hash_hex(vote.as_str());
        if !(vote_hex == vote_commit) {
            return Err(Error::HashMismatch);
        }
        if vote.as_str().unicode_len() == 0 {
            return Err(Error::MalformedBallot);
        }
        let c = vote.as_str().get_char(0);
        let d = c as u32;
        if !(48 <= d && d <= 57) {
            return Err(Error::MalformedBallot);
        }
        let n = (d - 48) as u128;
        if n > self.candidate_id {
            return Err(Error::UnknownCandidate);
        }
        let ghost k0 = self.vote_statuses.keyed();
        let ghost tallies0 = self.candidate_votes.entries_seq();
        let old_tally: u128 = match self.candidate_votes.get(n) {
            Some(t) => *t,
            None => 0,
        };
        // the table length is a usize, so no tally can reach the type bound
        let status_count = self.vote_statuses.len();
        proof {
            lemma_count_revealed_le_len(k0);
            assert(count_revealed(k0) <= status_count);
            if self.candidate_votes.to_map().dom().contains(n) {
                crate::maps::lemma_sorted_implies_unique(tallies0);
                lemma_kv_map_domain(tallies0, n);
                let i = choose|i: int| 0 <= i < tallies0.len() && #[trigger] tallies0[i].0 == n;
                crate::maps::lemma_kv_map_index(tallies0, i);
                assert(old_tally == tallies0[i].1);
                assert(old_tally <= count_revealed(k0));
            }
        }
        self.candidate_votes.insert(n, old_tally + 1);
        self.vote_statuses.insert(&vote_commit, false);
        proof {
            let k1 = self.vote_statuses.keyed();
            let i = choose|i: int|
                0 <= i < k0.len() && k0[i].0 == vote_commit@ && k1 == k0.update(
                    i,
                    (vote_commit@, false),
                );
            assert(k0[i].1 == true) by {
                crate::maps::lemma_kv_map_index(k0, i);
            }
            lemma_count_revealed_update(k0, i, vote_commit@);
            assert(forall|j: int|
                0 <= j < self.vote_commits@.len() ==> #[trigger] self.vote_commits@[j]@ == k1[j].0);
            let t1 = self.candidate_votes.entries_seq();
            assert(forall|j: int|
                0 <= j < t1.len() ==> #[trigger] t1[j].1 <= count_revealed(k1)) by {
                assert(count_revealed(k1) == count_revealed(k0) + 1);
                assert forall|j: int| 0 <= j < t1.len() implies #[trigger] t1[j].1 <= count_revealed(
                    k1,
                ) by {
                    if t1[j].0 == n {
                        crate::maps::lemma_sorted_implies_unique(t1);
                        crate::maps::lemma_kv_map_index(t1, j);
                        assert(kv_map(t1) == kv_map(tallies0).insert(n, (old_tally + 1) as u128));
                        assert(kv_map(t1)[n] == (old_tally + 1) as u128);
                        assert(t1[j].1 == old_tally + 1);
                        assert(old_tally <= count_revealed(k0));
                        assert(t1[j].1 <= count_revealed(k1));
                    } else {
                        let ghost upd = choose|i2: int|
                            0 <= i2 < tallies0.len() && #[trigger] tallies0[i2].0 == n && t1
                                == tallies0.update(i2, (n, (old_tally + 1) as u128));
                        let ghost ins = choose|i2: int|
                            0 <= i2 <= tallies0.len() && t1 == #[trigger] tallies0.insert(
                                i2,
                                (n, (old_tally + 1) as u128),
                            );
                        if kv_map(tallies0).dom().contains(n) {
                            assert(t1 == tallies0.update(upd, (n, (old_tally + 1) as u128)));
                            assert(t1[j] == tallies0[j]);
                            assert(tallies0[j].1 <= count_revealed(k0));
                            assert(t1[j].1 <= count_revealed(k1));
                        } else {
                            assert(t1 == tallies0.insert(ins, (n, (old_tally + 1) as u128)));
                            if j < ins {
                                assert(t1[j] == tallies0[j]);
                                assert(tallies0[j].1 <= count_revealed(k0));
                            } else {
                                assert(t1[j] == tallies0[j - 1]);
                                assert(tallies0[j - 1].1 <= count_revealed(k0));
                            }
                            assert(t1[j].1 <= count_revealed(k1));
                        }
                    }
                }
            }
        }
        Ok(())
    }

    /// The recorded tally of a candidate: zero until a vote is revealed.
    pub fn candidate_tally(&self, candidate_id: u128) -> (r: u128)
        requires
            self.wf(),
        ensures
            r == if self.tallies().dom().contains(candidate_id) {
                self.tallies()[candidate_id]
            } else {
                0u128
            },
    {
        match self.candidate_votes.get(candidate_id) {
            Some(t) => *t,
            None => 0,
        }
    }

    /// How many commitments have been recorded.
    pub fn votes_cast_count(&self) -> (r: u128)
        ensures
            r == self.votes_cast(),
    {
        self.number_of_votes_cast
    }

    /// The highest assigned candidate id so far.
    pub fn candidate_count(&self) -> (r: u128)
        ensures
            r == self.n_candidates(),
    {
        self.candidate_id
    }

    /// The instant the commit phase ends.
    pub fn commit_deadline(&self) -> (r: u64)
        ensures
            r == self.deadline(),
    {
        self.commit_phase_end_time
    }
}


/// Law: committing the digest of a ballot and revealing that ballot after
/// the deadline always succeeds, and the reveal credits the ballot's
/// candidate with exactly one vote (the tally update is stated by
/// `reveal_vote`'s contract for an `Ok` outcome).
pub proof fn lemma_commit_reveal_round_trip(s: CommitRevealElection, vote: Seq<char>, now: u64)
    requires
        s.commits().dom().contains(commit_digest(vote)),
        s.commits()[commit_digest(vote)] == true,
        now >= s.deadline(),
        ballot_candidate(vote) is Some,
        ballot_candidate(vote)->Some_0 <= s.n_candidates(),
    ensures
        s.reveal_outcome(vote, commit_digest(vote), now) == Ok::<u128, Error>(
            ballot_candidate(vote)->Some_0,
        ),
{
}

/// Law: phase gating. A reveal strictly before the commit deadline fails
/// with a phase violation whatever its arguments; `commit_vote`'s contract
/// states the dual, that a commitment at or after the deadline fails the
/// same way.
pub proof fn lemma_reveal_needs_reveal_phase(
    s: CommitRevealElection,
    vote: Seq<char>,
    commit: Seq<char>,
    now: u64,
)
    requires
        now < s.deadline(),
    ensures
        s.reveal_outcome(vote, commit, now) == Err::<u128, Error>(Error::PhaseViolation),
{
}

/// Law: a commitment is consumed by its reveal. Once the commitment's
/// status is revealed, a second reveal of any ballot against it fails with
/// `AlreadyRevealed`.
pub proof fn lemma_reveal_consumes_commitment(
    s: CommitRevealElection,
    vote: Seq<char>,
    commit: Seq<char>,
    now: u64,
)
    requires
        now >= s.deadline(),
        s.commits().dom().contains(commit),
        s.commits()[commit] == false,
    ensures
        s.reveal_outcome(vote, commit, now) == Err::<u128, Error>(Error::AlreadyRevealed),
{
}

/// Law: hash binding. A ballot whose digest differs from the commitment is
/// rejected with `HashMismatch` whenever the commitment is open for reveal,
/// whatever the ballot says.
pub proof fn lemma_reveal_checks_digest(
    s: CommitRevealElection,
    vote: Seq<char>,
    commit: Seq<char>,
    now: u64,
)
    requires
        now >= s.deadline(),
        s.commits().dom().contains(commit),
        s.commits()[commit] == true,
        commit_digest(vote) != commit,
    ensures
        s.reveal_outcome(vote, commit, now) == Err::<u128, Error>(Error::HashMismatch),
{
}

} // verus!
