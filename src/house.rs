use vstd::prelude::*;
use crate::distribution::{airdrop_outcome, lemma_no_holders, plan_airdrop, plan_view, Payout};
use crate::error::StakeError;
use crate::registry::{find_member, has_duplicate};

verus! {

/// The abstract state of a pool: the ledger of its asset, its administrator,
/// and the keys of its members in the order in which they joined.
pub struct HouseState {
    pub token: Seq<u8>,
    pub admin: Seq<u8>,
    pub members: Seq<Seq<u8>>,
}

/// The keys of a list of accounts.
pub open spec fn keys_of(v: Seq<Vec<u8>>) -> Seq<Seq<u8>> {
    v.map_values(|m: Vec<u8>| m@)
}

/// A pool is well formed when no member is listed twice.
pub open spec fn house_wf(s: HouseState) -> bool {
    s.members.no_duplicates()
}

/// The outcome of `user` asking to join while holding `balance`: refused when
/// it holds nothing, then when it is a member already; otherwise it is
/// appended to the members.
pub open spec fn join_outcome(s: HouseState, user: Seq<u8>, balance: int) -> Result<HouseState, StakeError> {
    if balance <= 0 {
        Err(StakeError::InsufficientBalance)
    } else if s.members.contains(user) {
        Err(StakeError::AlreadyRegistered)
    } else {
        Ok(HouseState { members: s.members.push(user), ..s })
    }
}

/// The outcome of a deposit of `amount` when the depositor has authorised the
/// pool for `allowance`: it goes ahead exactly when the allowance covers it.
pub open spec fn deposit_outcome(allowance: int, amount: int) -> Result<(), StakeError> {
    if allowance < amount {
        Err(StakeError::InsufficientAllowance)
    } else {
        Ok(())
    }
}

/// A pool that collects deposits of one asset and pays a tenth of what it
/// holds, per round, to its members in proportion to their holdings.
///
/// Accounts are identified by their keys as byte strings; two accounts are
/// the same exactly when their keys are equal.
pub struct StakeHouse {
    token: Vec<u8>,
    admin: Vec<u8>,
    users: Vec<Vec<u8>>,
}

impl View for StakeHouse {
    type V = HouseState;

    closed spec fn view(&self) -> HouseState {
        HouseState { token: self.token@, admin: self.admin@, members: keys_of(self.users@) }
    }
}

impl StakeHouse {
    /// Creates a pool over the ledger `token`, recording `admin`, with no members.
    pub fn new(token: Vec<u8>, admin: Vec<u8>) -> (r: StakeHouse)
        ensures
            r@.token == token@,
            r@.admin == admin@,
            r@.members == Seq::<Seq<u8>>::empty(),
            house_wf(r@),
    {
        let r = StakeHouse { token, admin, users: Vec::new() };
        assert(r@.members =~= Seq::<Seq<u8>>::empty());
        r
    }

    /// Rebuilds a pool from stored parts; `None` when a member is listed twice.
    pub fn restore(token: Vec<u8>, admin: Vec<u8>, members: Vec<Vec<u8>>) -> (r: Option<StakeHouse>)
        ensures
            match r {
                Some(h) => h@ == (HouseState { token: token@, admin: admin@, members: keys_of(members@) })
                    && house_wf(h@),
                None => !keys_of(members@).no_duplicates(),
            },
    {
        if has_duplicate(&members) {
            proof {
                let (i, j) = choose|i: int, j: int|
                    0 <= i < j < members@.len() && #[trigger] members@[i]@ == #[trigger] members@[j]@;
                assert(keys_of(members@)[i] == keys_of(members@)[j]);
            }
            return None;
        }
        let h = StakeHouse { token, admin, users: members };
        proof {
            let ks = keys_of(h.users@);
            assert forall|i: int, j: int| 0 <= i < ks.len() && 0 <= j < ks.len() && i != j implies ks[i] != ks[j] by {
                if i < j {
                    assert(h.users@[i]@ != h.users@[j]@);
                } else {
                    assert(h.users@[j]@ != h.users@[i]@);
                }
            }
        }
        Some(h)
    }

    /// The key of the ledger of the pooled asset.
    pub fn token(&self) -> (r: &Vec<u8>)
        ensures
            r@ == self@.token,
    {
        &self.token
    }

    /// The key of the administrator recorded at creation.
    pub fn admin(&self) -> (r: &Vec<u8>)
        ensures
            r@ == self@.admin,
    {
        &self.admin
    }

    /// The members' keys, in the order in which they joined.
    pub fn members(&self) -> (r: &Vec<Vec<u8>>)
        ensures
            keys_of(r@) == self@.members,
            r@.len() == self@.members.len(),
    {
        &self.users
    }

    /// Registers `user`, which holds `balance` of the asset now.
    ///
    /// Refused with `InsufficientBalance` when `balance <= 0`, then with
    /// `AlreadyRegistered` when `user` is a member already; a refusal leaves
    /// the pool as it was.
    pub fn join(&mut self, user: Vec<u8>, balance: i128) -> (r: Result<(), StakeError>)
        requires
            house_wf(old(self)@),
        ensures
            match r {
                Ok(()) => join_outcome(old(self)@, user@, balance as int) == Ok::<HouseState, StakeError>(final(self)@),
                Err(e) => join_outcome(old(self)@, user@, balance as int) == Err::<HouseState, StakeError>(e)
                    && final(self)@ == old(self)@,
            },
            house_wf(final(self)@),
            (r == Err::<(), StakeError>(StakeError::InsufficientBalance)) <==> balance <= 0,
    {
        if balance <= 0 {
            return Err(StakeError::InsufficientBalance);
        }
        let ghost before = keys_of(self.users@);
        match find_member(&self.users, &user) {
            Some(i) => {
                assert(before[i as int] == user@);
                return Err(StakeError::AlreadyRegistered);
            },
            None => {},
        }
        assert(!before.contains(user@));
        self.users.push(user);
        assert(keys_of(self.users@) =~= before.push(user@));
        Ok(())
    }

    /// Checks a deposit of `amount` from a depositor that has authorised the
    /// pool for `allowance`: refused with `InsufficientAllowance` when the
    /// allowance falls short, before anything is moved.
    pub fn deposit(&self, allowance: i128, amount: i128) -> (r: Result<(), StakeError>)
        ensures
            r == deposit_outcome(allowance as int, amount as int),
    {
        if allowance < amount {
            Err(StakeError::InsufficientAllowance)
        } else {
            Ok(())
        }
    }

    /// Plans a payout round from a pool holding `pool_balance`, where
    /// `balances[i]` is what the `i`-th member holds now.
    ///
    /// A tenth of the pool, rounded down, is shared among the members that
    /// hold something, each receiving `balance * distributable / total`
    /// rounded down; members whose share is zero get no transfer. What the
    /// rounding leaves stays in the pool.
    pub fn airdrop(&self, pool_balance: i128, balances: &Vec<i128>) -> (r: Result<Vec<Payout>, StakeError>)
        requires
            balances@.len() == self@.members.len(),
        ensures
            plan_view(r) == airdrop_outcome(pool_balance as int, self@.members, balances@),
            pool_balance <= 0 ==> r == Err::<Vec<Payout>, StakeError>(StakeError::EmptyPool),
            pool_balance > 0 && self@.members.len() == 0 ==> r == Err::<Vec<Payout>, StakeError>(StakeError::NoMembers),
            pool_balance > 0 && self@.members.len() > 0 && (forall|i: int| 0 <= i < balances@.len() ==> balances@[i] <= 0)
                ==> r == Err::<Vec<Payout>, StakeError>(StakeError::NoValidHolders),
    {
        proof {
            if forall|i: int| 0 <= i < balances@.len() ==> balances@[i] <= 0 {
                lemma_no_holders(balances@, balances@.len());
            }
        }
        plan_airdrop(pool_balance, &self.users, balances)
    }
}

} // verus!
