use shivarthu::errors::Error;
use shivarthu::validation::FungibleToken;

fn alice() -> String {
    "alice.near".to_string()
}
fn bob() -> String {
    "bob.near".to_string()
}
fn carol() -> String {
    "carol.near".to_string()
}
fn user2() -> String {
    "user2.near".to_string()
}
fn user3() -> String {
    "user3.near".to_string()
}

#[test]
fn test_initialize_new_token() {
    let total_supply = 1_000_000_000_000_000u128;
    let contract = FungibleToken::new(&bob(), total_supply);
    assert_eq!(contract.get_total_supply(), total_supply);
    assert_eq!(contract.get_balance(&bob()), total_supply);
}

#[test]
fn test_transfer_to_a_different_account_works() {
    let total_supply = 1_000_000_000_000_000u128;
    let mut contract = FungibleToken::new(&carol(), total_supply);
    let transfer_amount = total_supply / 3;
    contract.transfer(&carol(), &bob(), transfer_amount).unwrap();
    assert_eq!(contract.get_balance(&carol()), total_supply - transfer_amount);
    assert_eq!(contract.get_balance(&bob()), transfer_amount);
}

#[test]
fn transfer_without_balance_fails() {
    let mut contract = FungibleToken::new(&carol(), 100);
    assert_eq!(
        contract.transfer(&bob(), &alice(), 1),
        Err(Error::InsufficientBalance)
    );
    assert_eq!(contract.get_balance(&carol()), 100);
}

#[test]
fn test_voter_addition() {
    let total_supply = 1_000_000_000_000_000u128;
    let mut contract = FungibleToken::new(&carol(), total_supply);
    contract
        .create_voter_profile(&bob(), "c1d1a89574c6e744d982e0f2bf1154ef05c13".to_owned())
        .unwrap();
    let voter_id = contract.get_user_id(&bob()).unwrap();
    assert_eq!(voter_id, 1);
    let voter = contract.get_voter_details(1);
    assert_eq!(
        "c1d1a89574c6e744d982e0f2bf1154ef05c13".to_owned(),
        voter.profile_hash
    );
}

#[test]
fn duplicate_profile_fails() {
    let mut contract = FungibleToken::new(&carol(), 1000);
    contract.create_voter_profile(&bob(), "profile-one".to_owned()).unwrap();
    assert_eq!(
        contract.create_voter_profile(&bob(), "profile-two".to_owned()),
        Err(Error::ProfileAlreadyExists)
    );
}

#[test]
fn lookup_of_unknown_identity_fails() {
    let contract = FungibleToken::new(&carol(), 1000);
    assert_eq!(contract.get_user_id(&bob()), Err(Error::UnknownIdentity));
}

fn voter_stake() -> FungibleToken {
    let total_supply = 1_000_000_000_000_000u128;
    let mut contract = FungibleToken::new(&carol(), total_supply);
    contract
        .create_voter_profile(&bob(), "c1d1a89574c6e744d982e0f2bf1154ef05c13".to_owned())
        .unwrap();
    let voter_id = contract.get_user_id(&bob()).unwrap();
    assert_eq!(voter_id, 1);
    let voter = contract.get_voter_details(1);
    assert_eq!(
        "c1d1a89574c6e744d982e0f2bf1154ef05c13".to_owned(),
        voter.profile_hash
    );

    let transfer_amount = total_supply / 3;
    contract.transfer(&carol(), &bob(), transfer_amount).unwrap();
    assert_eq!(contract.get_balance(&carol()), total_supply - transfer_amount);
    assert_eq!(contract.get_balance(&bob()), transfer_amount);

    let intialtotalsupply = contract.get_total_supply();
    contract.create_voter_stake(&bob(), 50).unwrap();
    assert_eq!(contract.get_balance(&bob()), transfer_amount - 50);
    assert_eq!(contract.get_total_supply(), intialtotalsupply - 50);
    let stake = contract.get_voter_stake(voter_id);
    assert_eq!(stake, 50);

    // Test for jury addition
    contract.transfer(&carol(), &user2(), 150).unwrap();
    contract.create_voter_profile(&user2(), "user2profile".to_owned()).unwrap();
    let juror_id = contract.get_user_id(&user2()).unwrap();
    assert_eq!(juror_id, 2);
    let voter = contract.get_voter_details(2);
    assert_eq!("user2profile".to_owned(), voter.profile_hash);

    contract.apply_jurors(&user2(), &bob(), 51).unwrap();
    let voter_id = contract.get_user_id(&bob()).unwrap();
    assert_eq!(contract.get_total_supply(), intialtotalsupply - 50 - 51);
    let data = contract.get_juror_stakes(voter_id, juror_id).unwrap();
    assert_eq!(data, 51);

    contract
}

#[test]
fn test_voter_stake() {
    let _contract = voter_stake();
}

#[test]
fn repeated_self_stake_is_a_silent_no_op() {
    let mut contract = voter_stake();
    let before_supply = contract.get_total_supply();
    let before_balance = contract.get_balance(&bob());
    contract.create_voter_stake(&bob(), 70).unwrap();
    assert_eq!(contract.get_total_supply(), before_supply);
    assert_eq!(contract.get_balance(&bob()), before_balance);
    assert_eq!(contract.get_voter_stake(1), 50);
}

#[test]
fn add_multiple_stake_per_voter() {
    let mut contract = voter_stake();
    let r = contract.apply_jurors(&user2(), &bob(), 30);
    assert_eq!(r, Err(Error::DuplicateStake));
    assert_eq!(r.unwrap_err().message(), "You have already staked");
}

#[test]
fn apply_juror_but_user_doesnot_exist() {
    let mut contract = voter_stake();
    let r = contract.apply_jurors(&user2(), &user3(), 50);
    assert_eq!(r, Err(Error::UnknownIdentity));
    assert_eq!(r.unwrap_err().message(), "User id doesnot exist for AccountId");
}

#[test]
fn apply_jurors_without_balance_fails() {
    let mut contract = FungibleToken::new(&carol(), 1000);
    contract.create_voter_profile(&bob(), "profile-one".to_owned()).unwrap();
    contract.create_voter_profile(&user2(), "profile-two".to_owned()).unwrap();
    let before = contract.get_total_supply();
    assert_eq!(
        contract.apply_jurors(&user2(), &bob(), 10),
        Err(Error::InsufficientBalance)
    );
    assert_eq!(contract.get_total_supply(), before);
    assert_eq!(
        contract.get_juror_stakes(1, 2),
        Err(Error::NoStakeForSubject)
    );
}

#[test]
fn same_juror_different_voter() {
    let mut contract = voter_stake();
    contract.create_voter_profile(&user3(), "user3profile".to_owned()).unwrap();
    let voter_id = contract.get_user_id(&user3()).unwrap();
    assert_eq!(voter_id, 3);
    let intialtotalsupply = contract.get_total_supply();
    contract.apply_jurors(&user2(), &user3(), 53).unwrap();
    assert_eq!(contract.get_total_supply(), intialtotalsupply - 53);
}

#[test]
fn juror_stake_queries_report_missing_parts() {
    let contract = voter_stake();
    assert_eq!(contract.get_juror_stakes(2, 1), Err(Error::NoStakeForSubject));
    assert_eq!(contract.get_juror_stakes(1, 1), Err(Error::UnknownStaker));
}
