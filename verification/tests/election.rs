use sha3::Digest;
use shivarthu::election::CommitRevealElection;
use shivarthu::errors::Error;
use shivarthu::hashing::hash_hex;

#[test]
fn contract_test() {
    let mut contract = CommitRevealElection::new(20, 0);
    contract.add_candidate("Paul".to_owned());

    // Vote commit 1
    let vote = "1password".to_owned();
    let commit = hash_hex(&vote);
    contract.commit_vote(commit.clone(), 10).unwrap();

    // Vote commit 2
    let vote2 = "1mypass".to_owned();
    let commit2 = hash_hex(&vote2);
    contract.commit_vote(commit2.clone(), 10).unwrap();

    // Vote reveal 1
    contract.reveal_vote("1password".to_owned(), commit.clone(), 20).unwrap();
    // Vote reveal 2
    contract.reveal_vote("1mypass".to_owned(), commit2.clone(), 21).unwrap();

    assert_eq!(contract.candidate_tally(1), 2);
    assert_eq!(contract.votes_cast_count(), 2);
}

#[test]
fn hash_hex_matches_direct_keccak() {
    let direct = format!("{:x}", sha3::Keccak256::digest("1password".as_bytes()));
    assert_eq!(hash_hex("1password"), direct);
}

#[test]
fn hash_hex_of_empty_input() {
    assert_eq!(
        hash_hex(""),
        "c5d2460186f7233c927e7db2dcc703c0e500b653ca82273b7bfad8045d85a470"
    );
}

#[test]
fn commit_at_or_after_deadline_fails() {
    let mut contract = CommitRevealElection::new(20, 0);
    let commit = hash_hex("1password");
    assert_eq!(
        contract.commit_vote(commit.clone(), 20),
        Err(Error::PhaseViolation)
    );
    assert_eq!(contract.commit_vote(commit, 99), Err(Error::PhaseViolation));
}

#[test]
fn reveal_before_deadline_fails() {
    let mut contract = CommitRevealElection::new(20, 0);
    contract.add_candidate("Paul".to_owned());
    let commit = hash_hex("1password");
    contract.commit_vote(commit.clone(), 5).unwrap();
    assert_eq!(
        contract.reveal_vote("1password".to_owned(), commit, 19),
        Err(Error::PhaseViolation)
    );
}

#[test]
fn duplicate_commit_fails() {
    let mut contract = CommitRevealElection::new(20, 0);
    let commit = hash_hex("1password");
    contract.commit_vote(commit.clone(), 5).unwrap();
    assert_eq!(
        contract.commit_vote(commit, 6),
        Err(Error::DuplicateCommitment)
    );
}

#[test]
fn reveal_twice_fails() {
    let mut contract = CommitRevealElection::new(20, 0);
    contract.add_candidate("Paul".to_owned());
    let commit = hash_hex("1password");
    contract.commit_vote(commit.clone(), 5).unwrap();
    contract
        .reveal_vote("1password".to_owned(), commit.clone(), 25)
        .unwrap();
    assert_eq!(
        contract.reveal_vote("1password".to_owned(), commit, 26),
        Err(Error::AlreadyRevealed)
    );
    assert_eq!(contract.candidate_tally(1), 1);
}

#[test]
fn reveal_with_wrong_ballot_fails() {
    let mut contract = CommitRevealElection::new(20, 0);
    contract.add_candidate("Paul".to_owned());
    let commit = hash_hex("1password");
    contract.commit_vote(commit.clone(), 5).unwrap();
    assert_eq!(
        contract.reveal_vote("1mypass".to_owned(), commit, 25),
        Err(Error::HashMismatch)
    );
    assert_eq!(contract.candidate_tally(1), 0);
}

#[test]
fn reveal_of_unknown_commitment_fails() {
    let mut contract = CommitRevealElection::new(20, 0);
    contract.add_candidate("Paul".to_owned());
    let commit = hash_hex("1password");
    assert_eq!(
        contract.reveal_vote("1password".to_owned(), commit, 25),
        Err(Error::UnknownCommitment)
    );
}

#[test]
fn reveal_of_non_digit_ballot_fails() {
    let mut contract = CommitRevealElection::new(20, 0);
    contract.add_candidate("Paul".to_owned());
    let commit = hash_hex("xpassword");
    contract.commit_vote(commit.clone(), 5).unwrap();
    assert_eq!(
        contract.reveal_vote("xpassword".to_owned(), commit, 25),
        Err(Error::MalformedBallot)
    );
}

#[test]
fn reveal_of_empty_ballot_fails() {
    let mut contract = CommitRevealElection::new(20, 0);
    contract.add_candidate("Paul".to_owned());
    let commit = hash_hex("");
    contract.commit_vote(commit.clone(), 5).unwrap();
    assert_eq!(
        contract.reveal_vote("".to_owned(), commit, 25),
        Err(Error::MalformedBallot)
    );
}

#[test]
fn reveal_for_unassigned_candidate_fails() {
    let mut contract = CommitRevealElection::new(20, 0);
    contract.add_candidate("Paul".to_owned());
    let commit = hash_hex("9password");
    contract.commit_vote(commit.clone(), 5).unwrap();
    assert_eq!(
        contract.reveal_vote("9password".to_owned(), commit, 25),
        Err(Error::UnknownCandidate)
    );
}

#[test]
fn candidate_ids_are_sequential() {
    let mut contract = CommitRevealElection::new(25, 100);
    assert_eq!(contract.add_candidate("Paul".to_owned()), 1);
    assert_eq!(contract.add_candidate("Mary".to_owned()), 2);
    assert_eq!(contract.commit_deadline(), 125);
}

#[test]
fn error_messages_match_their_kind() {
    assert_eq!(Error::DuplicateCommitment.message(), "Vote commit is already done");
    assert_eq!(Error::AlreadyRevealed.message(), "The vote was already casted");
    assert_eq!(
        Error::HashMismatch.message(),
        "Vote hash doesn't match the vote commit"
    );
    assert_eq!(Error::EmptyPool.message(), "There are no juries");
    assert_eq!(Error::DuplicateStake.message(), "You have already staked");
    assert_eq!(
        Error::UnknownIdentity.message(),
        "User id doesnot exist for AccountId"
    );
    assert_eq!(Error::UnknownCandidate.message(), "Candidate id doesnot exist");
    assert_eq!(Error::AlreadyInitialized.message(), "Already initialized");
    assert_eq!(
        Error::ProfileAlreadyExists.message(),
        "Voter profile already exists"
    );
}
