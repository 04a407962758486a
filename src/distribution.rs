use vstd::prelude::*;
use crate::error::StakeError;

verus! {

/// The part of the pool's balance that one payout round hands out: a tenth.
pub const PAYOUT_DIVISOR: i128 = 10;

/// One transfer out of the pool: `amount` units to the account `to`.
#[derive(Debug)]
pub struct Payout {
    pub to: Vec<u8>,
    pub amount: i128,
}

impl View for Payout {
    type V = (Seq<u8>, int);

    open spec fn view(&self) -> (Seq<u8>, int) {
        (self.to@, self.amount as int)
    }
}

/// The transfers of a plan as (account, amount) pairs.
pub open spec fn payouts_view(v: Seq<Payout>) -> Seq<(Seq<u8>, int)> {
    v.map_values(|p: Payout| p@)
}

/// What is paid out of a pool holding `pool`.
pub open spec fn distributable(pool: int) -> int {
    pool / PAYOUT_DIVISOR as int
}

/// The sum of the positive balances among the first `n`.
pub open spec fn holder_total_upto(bals: Seq<i128>, n: nat) -> int
    decreases n,
{
    if n == 0 {
        0
    } else {
        let b = bals[n - 1] as int;
        holder_total_upto(bals, (n - 1) as nat) + if b > 0 { b } else { 0 }
    }
}

/// The sum of the positive balances.
pub open spec fn holder_total(bals: Seq<i128>) -> int {
    holder_total_upto(bals, bals.len())
}

/// A holder's part of `d` when the holders hold `t` together: `b * d / t`, rounded down.
pub open spec fn share(b: int, d: int, t: int) -> int {
    b * d / t
}

/// Whether every positive balance times `d` fits in an `i128`.
pub open spec fn products_fit(bals: Seq<i128>, d: int) -> bool {
    forall|i: int| 0 <= i < bals.len() && bals[i] > 0 ==> #[trigger] bals[i] * d <= i128::MAX
}

/// The transfers owed to the first `n` members: one for each member with a
/// positive balance and a positive share, in member order.
pub open spec fn payouts_upto(
    members: Seq<Seq<u8>>,
    bals: Seq<i128>,
    d: int,
    t: int,
    n: nat,
) -> Seq<(Seq<u8>, int)>
    decreases n,
{
    if n == 0 {
        Seq::empty()
    } else {
        let prev = payouts_upto(members, bals, d, t, (n - 1) as nat);
        let b = bals[n - 1] as int;
        if b > 0 && share(b, d, t) > 0 {
            prev.push((members[n - 1], share(b, d, t)))
        } else {
            prev
        }
    }
}

/// The outcome of a payout round over `members`, whose balances are `bals`,
/// from a pool holding `pool`.
pub open spec fn airdrop_outcome(pool: int, members: Seq<Seq<u8>>, bals: Seq<i128>) -> Result<
    Seq<(Seq<u8>, int)>,
    StakeError,
> {
    let t = holder_total(bals);
    let d = distributable(pool);
    if pool <= 0 {
        Err(StakeError::EmptyPool)
    } else if members.len() == 0 {
        Err(StakeError::NoMembers)
    } else if t == 0 {
        Err(StakeError::NoValidHolders)
    } else if t > i128::MAX || !products_fit(bals, d) {
        Err(StakeError::Overflow)
    } else {
        Ok(payouts_upto(members, bals, d, t, members.len()))
    }
}

/// A plan as (account, amount) pairs.
pub open spec fn plan_view(r: Result<Vec<Payout>, StakeError>) -> Result<Seq<(Seq<u8>, int)>, StakeError> {
    match r {
        Ok(v) => Ok(payouts_view(v@)),
        Err(e) => Err(e),
    }
}

pub(crate) proof fn lemma_holder_total_monotone(bals: Seq<i128>, k: nat, n: nat)
    requires
        k <= n <= bals.len(),
    ensures
        0 <= holder_total_upto(bals, k) <= holder_total_upto(bals, n),
    decreases n,
{
    if n > k {
        lemma_holder_total_monotone(bals, k, (n - 1) as nat);
    } else if n > 0 {
        lemma_holder_total_monotone(bals, 0, (n - 1) as nat);
    }
}

/// With no positive balance among the first `n`, their holder total is zero.
pub proof fn lemma_no_holders(bals: Seq<i128>, n: nat)
    requires
        n <= bals.len(),
        forall|i: int| 0 <= i < n ==> bals[i] <= 0,
    ensures
        holder_total_upto(bals, n) == 0,
    decreases n,
{
    if n > 0 {
        lemma_no_holders(bals, (n - 1) as nat);
    }
}

/// Plans a payout round: checks the pool and the members, and computes each
/// member's share of a tenth of `pool_balance`. `balances[i]` is what
/// `members[i]` holds now.
pub fn plan_airdrop(pool_balance: i128, members: &Vec<Vec<u8>>, balances: &Vec<i128>) -> (r: Result<
    Vec<Payout>,
    StakeError,
>)
    requires
        balances@.len() == members@.len(),
    ensures
        plan_view(r) == airdrop_outcome(pool_balance as int, members@.map_values(|m: Vec<u8>| m@), balances@),
{
    let ghost keys = members@.map_values(|m: Vec<u8>| m@);
    if pool_balance <= 0 {
        return Err(StakeError::EmptyPool);
    }
    if members.len() == 0 {
        return Err(StakeError::NoMembers);
    }
    let n = balances.len();
    let mut total: i128 = 0;
    let mut i: usize = 0;
    while i < n
        invariant
            n == balances@.len(),
            n == members@.len(),
            n > 0,
            pool_balance > 0,
            keys == members@.map_values(|m: Vec<u8>| m@),
            i <= n,
            total as int == holder_total_upto(balances@, i as nat),
        decreases n - i,
    {
        let b = balances[i];
        if b > 0 {
            match total.checked_add(b) {
                Some(s) => {
                    total = s;
                },
                None => {
                    proof {
                        assert(holder_total_upto(balances@, (i + 1) as nat) == total + b);
                        lemma_holder_total_monotone(balances@, (i + 1) as nat, n as nat);
                    }
                    return Err(StakeError::Overflow);
                },
            }
        }
        i = i + 1;
    }
    if total == 0 {
        return Err(StakeError::NoValidHolders);
    }
    proof {
        lemma_holder_total_monotone(balances@, 0, n as nat);
    }
    let d = pool_balance / PAYOUT_DIVISOR;
    let mut out: Vec<Payout> = Vec::new();
    let mut k: usize = 0;
    while k < n
        invariant
            n == balances@.len(),
            n == members@.len(),
            keys == members@.map_values(|m: Vec<u8>| m@),
            k <= n,
            total > 0,
            pool_balance > 0,
            total as int == holder_total(balances@),
            d as int == distributable(pool_balance as int),
            d >= 0,
            payouts_view(out@) == payouts_upto(keys, balances@, d as int, total as int, k as nat),
            forall|j: int| 0 <= j < k && balances@[j] > 0 ==> #[trigger] balances@[j] * d <= i128::MAX,
        decreases n - k,
    {
        let b = balances[k];
        if b > 0 {
            match b.checked_mul(d) {
                Some(p) => {
                    let s = p / total;
                    if s > 0 {
                        let to = members[k].clone();
                        assert(to@ == keys[k as int]);
                        out.push(Payout { to, amount: s });
                        assert(payouts_view(out@) =~= payouts_view(out@).drop_last().push(out@.last()@));
                    }
                },
                None => {
                    assert(balances@[k as int] * d > i128::MAX) by (nonlinear_arith)
                        requires
                            balances@[k as int] == b,
                            b > 0,
                            d >= 0,
                            b * d > i128::MAX || b * d < i128::MIN,
                    ;
                    assert(!products_fit(balances@, distributable(pool_balance as int)));
                    return Err(StakeError::Overflow);
                },
            }
        }
        k = k + 1;
    }
    Ok(out)
}

} // verus!
