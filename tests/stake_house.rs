use stake_house::{
    find_member, has_duplicate, plan_airdrop, same_key, DataKey, Payout, StakeError, StakeHouse,
    PAYOUT_DIVISOR,
};

fn key(s: &str) -> Vec<u8> {
    s.as_bytes().to_vec()
}

fn house() -> StakeHouse {
    StakeHouse::new(key("TOKEN"), key("ADMIN"))
}

fn pairs(ps: &[Payout]) -> Vec<(Vec<u8>, i128)> {
    ps.iter().map(|p| (p.to.clone(), p.amount)).collect()
}

fn paid(ps: &[Payout]) -> i128 {
    ps.iter().map(|p| p.amount).sum()
}

#[test]
fn new_house_is_empty() {
    let h = house();
    assert_eq!(h.token(), &key("TOKEN"));
    assert_eq!(h.admin(), &key("ADMIN"));
    assert!(h.members().is_empty());
    assert_eq!(PAYOUT_DIVISOR, 10);
    assert_ne!(DataKey::Token, DataKey::Users);
}

#[test]
fn deposit_join_airdrop_scenario() {
    let mut h = house();
    assert_eq!(h.deposit(1000, 1000), Ok(()));
    let pool: i128 = 1000;
    assert_eq!(h.join(key("B"), 50), Ok(()));
    assert_eq!(h.join(key("C"), 150), Ok(()));
    let ps = h.airdrop(pool, &vec![50, 150]).unwrap();
    assert_eq!(pairs(&ps), vec![(key("B"), 25), (key("C"), 75)]);
    assert_eq!(paid(&ps), 100);
    assert_eq!(pool - paid(&ps), 900);
}

#[test]
fn exact_shares_without_residue() {
    let mut h = house();
    h.join(key("B"), 33).unwrap();
    h.join(key("C"), 67).unwrap();
    let ps = h.airdrop(1000, &vec![33, 67]).unwrap();
    assert_eq!(pairs(&ps), vec![(key("B"), 33), (key("C"), 67)]);
}

#[test]
fn truncation_residue_stays_in_pool() {
    let mut h = house();
    h.join(key("B"), 33).unwrap();
    h.join(key("C"), 67).unwrap();
    let pool: i128 = 990;
    let ps = h.airdrop(pool, &vec![33, 67]).unwrap();
    assert_eq!(pairs(&ps), vec![(key("B"), 32), (key("C"), 66)]);
    assert_eq!(paid(&ps), 98);
    assert_eq!(pool / 10 - paid(&ps), 1);
    assert_eq!(pool - paid(&ps), 892);
}

#[test]
fn deposit_without_allowance_is_refused() {
    let h = house();
    assert_eq!(h.deposit(0, 500), Err(StakeError::InsufficientAllowance));
    assert_eq!(h.deposit(499, 500), Err(StakeError::InsufficientAllowance));
    assert_eq!(h.deposit(500, 500), Ok(()));
    assert_eq!(h.deposit(501, 500), Ok(()));
    assert!(h.members().is_empty());
}

#[test]
fn join_twice_is_refused() {
    let mut h = house();
    assert_eq!(h.join(key("B"), 10), Ok(()));
    assert_eq!(h.join(key("B"), 10), Err(StakeError::AlreadyRegistered));
    assert_eq!(h.join(key("B"), 7_000), Err(StakeError::AlreadyRegistered));
    assert_eq!(h.join(key("B"), 0), Err(StakeError::InsufficientBalance));
    assert_eq!(h.members(), &vec![key("B")]);
}

#[test]
fn join_without_balance_is_refused() {
    let mut h = house();
    assert_eq!(h.join(key("B"), 0), Err(StakeError::InsufficientBalance));
    assert_eq!(h.join(key("B"), -3), Err(StakeError::InsufficientBalance));
    assert!(h.members().is_empty());
    assert_eq!(h.join(key("B"), 1), Ok(()));
    assert_eq!(h.members(), &vec![key("B")]);
}

#[test]
fn join_keeps_order() {
    let mut h = house();
    for name in ["D", "A", "C"] {
        h.join(key(name), 1).unwrap();
    }
    assert_eq!(h.members(), &vec![key("D"), key("A"), key("C")]);
}

#[test]
fn airdrop_on_empty_pool_is_refused() {
    let mut h = house();
    h.join(key("B"), 5).unwrap();
    assert_eq!(h.airdrop(0, &vec![5]).unwrap_err(), StakeError::EmptyPool);
    assert_eq!(h.airdrop(-10, &vec![5]).unwrap_err(), StakeError::EmptyPool);
    let empty = house();
    assert_eq!(empty.airdrop(0, &vec![]).unwrap_err(), StakeError::EmptyPool);
}

#[test]
fn airdrop_without_members_is_refused() {
    let h = house();
    assert_eq!(h.airdrop(1000, &vec![]).unwrap_err(), StakeError::NoMembers);
}

#[test]
fn airdrop_without_holders_is_refused() {
    let mut h = house();
    h.join(key("B"), 5).unwrap();
    h.join(key("C"), 5).unwrap();
    assert_eq!(h.airdrop(1000, &vec![0, 0]).unwrap_err(), StakeError::NoValidHolders);
    assert_eq!(h.airdrop(1000, &vec![-4, 0]).unwrap_err(), StakeError::NoValidHolders);
}

#[test]
fn members_without_balance_are_skipped_but_stay() {
    let mut h = house();
    h.join(key("B"), 5).unwrap();
    h.join(key("C"), 5).unwrap();
    let ps = h.airdrop(1000, &vec![0, 40]).unwrap();
    assert_eq!(pairs(&ps), vec![(key("C"), 100)]);
    let ps = h.airdrop(1000, &vec![10, 40]).unwrap();
    assert_eq!(pairs(&ps), vec![(key("B"), 20), (key("C"), 80)]);
    assert_eq!(h.members().len(), 2);
}

#[test]
fn zero_shares_get_no_transfer() {
    let mut h = house();
    h.join(key("B"), 1).unwrap();
    h.join(key("C"), 1000).unwrap();
    let ps = h.airdrop(100, &vec![1, 1000]).unwrap();
    assert_eq!(pairs(&ps), vec![(key("C"), 9)]);
    let ps = h.airdrop(9, &vec![1, 1000]).unwrap();
    assert!(ps.is_empty());
}

#[test]
fn proportional_shares_of_three_holders() {
    let mut h = house();
    for name in ["A", "B", "C"] {
        h.join(key(name), 1).unwrap();
    }
    let bals: Vec<i128> = vec![7, 11, 13];
    let pool: i128 = 12345;
    let ps = h.airdrop(pool, &bals).unwrap();
    let d = pool / 10;
    assert_eq!(d, 1234);
    let expected: Vec<(Vec<u8>, i128)> = vec![
        (key("A"), 7 * 1234 / 31),
        (key("B"), 11 * 1234 / 31),
        (key("C"), 13 * 1234 / 31),
    ];
    assert_eq!(expected, vec![(key("A"), 278), (key("B"), 437), (key("C"), 517)]);
    assert_eq!(pairs(&ps), expected);
    assert!(paid(&ps) <= d);
}

#[test]
fn conservation_over_rounds() {
    let mut h = house();
    h.join(key("B"), 1).unwrap();
    h.join(key("C"), 1).unwrap();
    h.join(key("E"), 1).unwrap();
    let mut pool: i128 = 0;
    let mut balances: Vec<i128> = vec![3, 0, 8];
    for (round, deposit) in [1000i128, 0, 77, 5].iter().enumerate() {
        assert_eq!(h.deposit(*deposit, *deposit), Ok(()));
        pool += deposit;
        if round == 2 {
            balances[1] = 4;
        }
        let before = pool;
        let ps = h.airdrop(pool, &balances).unwrap();
        assert!(paid(&ps) <= before / 10);
        for p in &ps {
            let i = find_member(h.members(), &p.to).unwrap();
            balances[i] += p.amount;
            pool -= p.amount;
        }
        assert_eq!(pool, before - paid(&ps));
    }
}

#[test]
fn overflowing_sums_are_refused() {
    let mut h = house();
    h.join(key("B"), 1).unwrap();
    h.join(key("C"), 1).unwrap();
    assert_eq!(h.airdrop(100, &vec![i128::MAX, 1]).unwrap_err(), StakeError::Overflow);
    assert_eq!(h.airdrop(i128::MAX, &vec![i128::MAX / 2, 1]).unwrap_err(), StakeError::Overflow);
    assert_eq!(h.airdrop(100, &vec![i128::MAX - 1, 1]).unwrap_err(), StakeError::Overflow);
    let big: i128 = 1 << 100;
    let ps = h.airdrop(100, &vec![big, big]).unwrap();
    assert_eq!(pairs(&ps), vec![(key("B"), 5), (key("C"), 5)]);
}

#[test]
fn plan_airdrop_matches_house() {
    let members = vec![key("B"), key("C")];
    let ps = plan_airdrop(1000, &members, &vec![50, 150]).unwrap();
    assert_eq!(pairs(&ps), vec![(key("B"), 25), (key("C"), 75)]);
    assert_eq!(plan_airdrop(1000, &vec![], &vec![]).unwrap_err(), StakeError::NoMembers);
}

#[test]
fn restore_checks_for_duplicates() {
    let h = StakeHouse::restore(key("T"), key("A"), vec![key("B"), key("C")]).unwrap();
    assert_eq!(h.members(), &vec![key("B"), key("C")]);
    assert_eq!(h.token(), &key("T"));
    assert!(StakeHouse::restore(key("T"), key("A"), vec![key("B"), key("C"), key("B")]).is_none());
    let mut h = h;
    assert_eq!(h.join(key("C"), 9), Err(StakeError::AlreadyRegistered));
}

#[test]
fn key_helpers() {
    assert!(same_key(&key("AB"), &key("AB")));
    assert!(!same_key(&key("AB"), &key("AC")));
    assert!(!same_key(&key("AB"), &key("ABC")));
    let ms = vec![key("X"), key("Y")];
    assert_eq!(find_member(&ms, &key("Y")), Some(1));
    assert_eq!(find_member(&ms, &key("Z")), None);
    assert!(!has_duplicate(&ms));
    assert!(has_duplicate(&vec![key("X"), key("Y"), key("X")]));
    assert!(!has_duplicate(&vec![]));
}
