use shivarthu::errors::Error;
use shivarthu::sampling::get_rng;
use shivarthu::sortition::weighted_draw;
use shivarthu::validation::FungibleToken;

fn bob() -> String {
    "bob.near".to_string()
}
fn carol() -> String {
    "carol.near".to_string()
}

fn fixed_seed() -> Vec<u8> {
    let mut seed: Vec<u8> = Vec::new();
    let mut b: u8 = 3;
    while seed.len() < 32 {
        seed.push(b);
        b = b.wrapping_mul(7).wrapping_add(11);
    }
    seed
}

/// The subject (bob, user id 1) with five jurors staking 60, 40, 30, 20, 20.
fn five_juror_pool() -> FungibleToken {
    let total_supply = 1_000_000_000_000_000u128;
    let mut contract = FungibleToken::new(&carol(), total_supply);
    contract.create_voter_profile(&bob(), "bobprofile".to_owned()).unwrap();
    let names = ["juror1", "juror2", "juror3", "juror4", "juror5"];
    let stakes = [60u128, 40, 30, 20, 20];
    for i in 0..5 {
        let who = names[i].to_string();
        contract
            .create_voter_profile(&who, format!("{}######XXXXX", names[i]))
            .unwrap();
        contract.transfer(&carol(), &who, 150).unwrap();
        contract.apply_jurors(&who, &bob(), stakes[i]).unwrap();
    }
    contract
}

#[test]
fn draw_juror() {
    let mut contract = five_juror_pool();
    contract.draw_jurors(&bob(), &fixed_seed()).unwrap();
    let selected = contract.get_selected_jurors(1).unwrap();
    assert!(selected.len() <= 5);
    assert!(!selected.is_empty());
    for i in 0..selected.len() {
        // drawn ids are juror user ids
        assert!(selected[i] >= 2 && selected[i] <= 6);
        for j in 0..i {
            assert_ne!(selected[i], selected[j]);
        }
    }
}

#[test]
fn draw_is_deterministic_for_equal_pool_and_seed() {
    let mut a = five_juror_pool();
    let mut b = five_juror_pool();
    let seed = fixed_seed();
    a.draw_jurors(&bob(), &seed).unwrap();
    b.draw_jurors(&bob(), &seed).unwrap();
    assert_eq!(a.get_selected_jurors(1).unwrap(), b.get_selected_jurors(1).unwrap());
}

#[test]
fn exhausting_draw_empties_the_pool() {
    let mut contract = five_juror_pool();
    let seed = fixed_seed();
    contract.draw_jurors(&bob(), &seed).unwrap();
    let selected = contract.get_selected_jurors(1).unwrap().clone();
    // a cap of twenty over a five-member pool draws everyone
    assert_eq!(selected.len(), 5);
    let mut sorted = selected.clone();
    sorted.sort();
    assert_eq!(sorted, vec![2u128, 3, 4, 5, 6]);
    // all weight is consumed, so a second draw finds no pool
    assert_eq!(contract.draw_jurors(&bob(), &seed), Err(Error::EmptyPool));
    // the selection is unchanged by the failed draw
    assert_eq!(*contract.get_selected_jurors(1).unwrap(), selected);
}

#[test]
fn draw_for_subject_without_stakes_fails() {
    let total_supply = 1_000_000u128;
    let mut contract = FungibleToken::new(&carol(), total_supply);
    contract.create_voter_profile(&bob(), "bobprofile".to_owned()).unwrap();
    assert_eq!(
        contract.draw_jurors(&bob(), &fixed_seed()),
        Err(Error::EmptyPool)
    );
    assert_eq!(contract.get_selected_jurors(1), Err(Error::NoSelection));
}

#[test]
fn weighted_draw_is_deterministic_and_reduces_the_pool() {
    let pool: Vec<(u128, u128)> = vec![(2, 60), (3, 40), (4, 30), (5, 20), (6, 20)];
    let seed = fixed_seed();
    let (drawn1, remaining1) = weighted_draw(&pool, &seed, 3).unwrap();
    let (drawn2, remaining2) = weighted_draw(&pool, &seed, 3).unwrap();
    assert_eq!(drawn1, drawn2);
    assert_eq!(remaining1, remaining2);
    assert!(drawn1.len() <= 3);
    assert_eq!(remaining1.len(), pool.len() - drawn1.len());
    for entry in &remaining1 {
        assert!(!drawn1.contains(&entry.0));
    }
}

#[test]
fn weighted_draw_of_empty_pool_fails() {
    let pool: Vec<(u128, u128)> = Vec::new();
    assert_eq!(
        weighted_draw(&pool, &fixed_seed(), 3),
        Err(Error::EmptyPool)
    );
    let zeroed: Vec<(u128, u128)> = vec![(1, 0), (2, 0)];
    assert_eq!(
        weighted_draw(&zeroed, &fixed_seed(), 3),
        Err(Error::EmptyPool)
    );
}

#[test]
fn short_seeds_are_zero_padded() {
    let pool: Vec<(u128, u128)> = vec![(2, 60), (3, 40)];
    let short: Vec<u8> = vec![9, 9, 9];
    let mut padded = short.clone();
    while padded.len() < 32 {
        padded.push(0);
    }
    let (drawn_short, _) = weighted_draw(&pool, &short, 2).unwrap();
    let (drawn_padded, _) = weighted_draw(&pool, &padded, 2).unwrap();
    assert_eq!(drawn_short, drawn_padded);
    let _rng = get_rng(short);
}
