use vstd::prelude::*;
use crate::distribution::{
    airdrop_outcome, distributable, holder_total, holder_total_upto, lemma_holder_total_monotone,
    payouts_upto, share,
};
use crate::error::StakeError;
use crate::house::{join_outcome, HouseState};

verus! {

/// What the transfers `ps` pay to the account `a`, all together.
pub open spec fn paid_to(ps: Seq<(Seq<u8>, int)>, a: Seq<u8>) -> int
    decreases ps.len(),
{
    if ps.len() == 0 {
        0
    } else {
        paid_to(ps.drop_last(), a) + if ps.last().0 == a { ps.last().1 } else { 0 }
    }
}

/// What the transfers `ps` pay out, all together.
pub open spec fn total_paid(ps: Seq<(Seq<u8>, int)>) -> int
    decreases ps.len(),
{
    if ps.len() == 0 {
        0
    } else {
        total_paid(ps.drop_last()) + ps.last().1
    }
}

/// The balance of `a` in a ledger; an account the ledger does not list holds nothing.
pub open spec fn balance_in(ledger: Map<Seq<u8>, int>, a: Seq<u8>) -> int {
    if ledger.dom().contains(a) {
        ledger[a]
    } else {
        0
    }
}

/// A ledger after moving `amount` from `from` to `to`.
pub open spec fn transfer(ledger: Map<Seq<u8>, int>, from: Seq<u8>, to: Seq<u8>, amount: int) -> Map<
    Seq<u8>,
    int,
> {
    if from == to {
        ledger
    } else {
        ledger.insert(from, balance_in(ledger, from) - amount).insert(to, balance_in(ledger, to) + amount)
    }
}

/// A ledger after the transfers `ps` out of the account `pool`, in order.
pub open spec fn pay_out(ledger: Map<Seq<u8>, int>, pool: Seq<u8>, ps: Seq<(Seq<u8>, int)>) -> Map<
    Seq<u8>,
    int,
>
    decreases ps.len(),
{
    if ps.len() == 0 {
        ledger
    } else {
        let p = ps.last();
        transfer(pay_out(ledger, pool, ps.drop_last()), pool, p.0, p.1)
    }
}

/// What a member is owed in a round: its share when it holds something, else nothing.
pub open spec fn entitlement(b: i128, d: int, t: int) -> int {
    if b > 0 {
        share(b as int, d, t)
    } else {
        0
    }
}

proof fn lemma_share_bounds(b: int, d: int, t: int)
    requires
        b > 0,
        d >= 0,
        t > 0,
    ensures
        share(b, d, t) >= 0,
        share(b, d, t) * t <= b * d,
{
    assert(b * d >= 0) by (nonlinear_arith)
        requires
            b > 0,
            d >= 0,
    ;
    assert((b * d / t) * t <= b * d) by (nonlinear_arith)
        requires
            b * d >= 0,
            t > 0,
    ;
    assert(b * d / t >= 0) by (nonlinear_arith)
        requires
            b * d >= 0,
            t > 0,
    ;
}

proof fn lemma_payouts_upto(members: Seq<Seq<u8>>, bals: Seq<i128>, d: int, t: int, n: nat)
    requires
        members.no_duplicates(),
        bals.len() == members.len(),
        n <= members.len(),
        d >= 0,
        t > 0,
    ensures
        forall|i: int| 0 <= i < n ==> paid_to(payouts_upto(members, bals, d, t, n), #[trigger] members[i])
            == entitlement(bals[i], d, t),
        forall|a: Seq<u8>| !members.take(n as int).contains(a) ==> paid_to(
            payouts_upto(members, bals, d, t, n),
            a,
        ) == 0,
        forall|k: int| 0 <= k < payouts_upto(members, bals, d, t, n).len()
            ==> members.take(n as int).contains(#[trigger] payouts_upto(members, bals, d, t, n)[k].0),
        total_paid(payouts_upto(members, bals, d, t, n)) * t <= holder_total_upto(bals, n) * d,
        total_paid(payouts_upto(members, bals, d, t, n)) >= 0,
    decreases n,
{
    if n > 0 {
        let m = (n - 1) as nat;
        lemma_payouts_upto(members, bals, d, t, m);
        let prev = payouts_upto(members, bals, d, t, m);
        let cur = payouts_upto(members, bals, d, t, n);
        let b = bals[m as int];
        let key = members[m as int];
        let pre = members.take(m as int);
        assert(members.take(n as int) =~= pre.push(key));
        assert(!pre.contains(key)) by {
            if pre.contains(key) {
                let j = choose|j: int| 0 <= j < pre.len() && pre[j] == key;
                assert(members[j] == members[m as int]);
            }
        }
        if b > 0 {
            lemma_share_bounds(b as int, d, t);
        }
        let step = if b > 0 && share(b as int, d, t) > 0 { share(b as int, d, t) } else { 0 };
        assert(step == entitlement(b, d, t));
        if b > 0 && share(b as int, d, t) > 0 {
            assert(cur == prev.push((key, share(b as int, d, t))));
            assert(cur.drop_last() =~= prev);
        } else {
            assert(cur == prev);
        }
        assert forall|a: Seq<u8>| #[trigger] paid_to(cur, a) == paid_to(prev, a) + if a == key { step } else { 0 } by {
            if b > 0 && share(b as int, d, t) > 0 {
                assert(cur.drop_last() =~= prev);
            }
        }
        assert(total_paid(cur) == total_paid(prev) + step) by {
            if b > 0 && share(b as int, d, t) > 0 {
                assert(cur.drop_last() =~= prev);
            }
        }
        assert forall|i: int| 0 <= i < n implies paid_to(cur, #[trigger] members[i]) == entitlement(bals[i], d, t) by {
            if i < m {
                assert(pre[i] == members[i]);
                assert(members[i] != key);
            }
        }
        assert forall|a: Seq<u8>| !members.take(n as int).contains(a) implies paid_to(cur, a) == 0 by {
            if pre.contains(a) {
                let j = choose|j: int| 0 <= j < pre.len() && pre[j] == a;
                assert(members.take(n as int)[j] == a);
            }
            if a == key {
                assert(members.take(n as int)[m as int] == a);
            }
        }
        assert forall|k: int| 0 <= k < cur.len() implies members.take(n as int).contains(#[trigger] cur[k].0) by {
            if k < prev.len() {
                assert(cur[k] == prev[k]);
                let j = choose|j: int| 0 <= j < pre.len() && pre[j] == prev[k].0;
                assert(members.take(n as int)[j] == prev[k].0);
            } else {
                assert(members.take(n as int)[m as int] == cur[k].0);
            }
        }
        let tp = total_paid(prev);
        let ht = holder_total_upto(bals, m);
        assert(holder_total_upto(bals, n) == ht + if b > 0 { b as int } else { 0 });
        if b > 0 {
            assert(step * t <= (b as int) * d);
        }
        assert((tp + step) * t <= (ht + if b > 0 { b as int } else { 0 }) * d) by (nonlinear_arith)
            requires
                tp * t <= ht * d,
                step * t <= (if b > 0 { b as int } else { 0 }) * d,
        ;
    }
}

/// Proportionality: in a round that goes ahead, every member is paid exactly
/// its holding times the distributable amount divided by the holders' total,
/// rounded down (nothing when it holds nothing), nobody else is paid, and all
/// the payouts together stay within the distributable amount.
pub proof fn lemma_proportional(pool: int, members: Seq<Seq<u8>>, bals: Seq<i128>, ps: Seq<(Seq<u8>, int)>)
    requires
        members.no_duplicates(),
        bals.len() == members.len(),
        airdrop_outcome(pool, members, bals) == Ok::<Seq<(Seq<u8>, int)>, StakeError>(ps),
    ensures
        forall|i: int| 0 <= i < members.len() ==> paid_to(ps, #[trigger] members[i]) == entitlement(
            bals[i],
            distributable(pool),
            holder_total(bals),
        ),
        forall|a: Seq<u8>| !members.contains(a) ==> paid_to(ps, a) == 0,
        forall|k: int| 0 <= k < ps.len() ==> members.contains(#[trigger] ps[k].0),
        0 <= total_paid(ps) <= distributable(pool),
{
    let d = distributable(pool);
    let t = holder_total(bals);
    lemma_holder_total_monotone(bals, 0, bals.len());
    lemma_payouts_upto(members, bals, d, t, members.len());
    assert(members.take(members.len() as int) =~= members);
    let tp = total_paid(ps);
    assert(tp <= d) by (nonlinear_arith)
        requires
            tp * t <= t * d,
            t > 0,
    ;
}

proof fn lemma_pay_out_pool(ledger: Map<Seq<u8>, int>, pool: Seq<u8>, ps: Seq<(Seq<u8>, int)>)
    requires
        forall|k: int| 0 <= k < ps.len() ==> #[trigger] ps[k].0 != pool,
    ensures
        balance_in(pay_out(ledger, pool, ps), pool) == balance_in(ledger, pool) - total_paid(ps),
    decreases ps.len(),
{
    if ps.len() > 0 {
        let init = ps.drop_last();
        assert forall|k: int| 0 <= k < init.len() implies #[trigger] init[k].0 != pool by {
            assert(init[k] == ps[k]);
        }
        lemma_pay_out_pool(ledger, pool, init);
        assert(ps.last() == ps[ps.len() - 1]);
    }
}

/// Conservation: when the pool's account is not a member, paying out a round
/// planned from the ledger's balances lowers the pool's balance by exactly
/// what the round pays, which is at most a tenth of the pool, rounded down.
pub proof fn lemma_conservation(
    ledger: Map<Seq<u8>, int>,
    pool: Seq<u8>,
    members: Seq<Seq<u8>>,
    bals: Seq<i128>,
    ps: Seq<(Seq<u8>, int)>,
)
    requires
        members.no_duplicates(),
        !members.contains(pool),
        bals.len() == members.len(),
        forall|i: int| 0 <= i < members.len() ==> bals[i] as int == balance_in(ledger, #[trigger] members[i]),
        airdrop_outcome(balance_in(ledger, pool), members, bals) == Ok::<Seq<(Seq<u8>, int)>, StakeError>(ps),
    ensures
        balance_in(pay_out(ledger, pool, ps), pool) == balance_in(ledger, pool) - total_paid(ps),
        0 <= total_paid(ps) <= balance_in(ledger, pool) / 10,
{
    lemma_proportional(balance_in(ledger, pool), members, bals, ps);
    assert forall|k: int| 0 <= k < ps.len() implies #[trigger] ps[k].0 != pool by {
        assert(members.contains(ps[k].0));
    }
    lemma_pay_out_pool(ledger, pool, ps);
}

/// No double registration: once `user` has joined, asking again never
/// succeeds, and is refused as `AlreadyRegistered` whenever it still holds
/// something; the pool stays well formed.
pub proof fn lemma_join_once(s: HouseState, user: Seq<u8>, first: int, second: int)
    requires
        join_outcome(s, user, first) is Ok,
    ensures
        join_outcome(join_outcome(s, user, first)->Ok_0, user, second) is Err,
        second > 0 ==> join_outcome(join_outcome(s, user, first)->Ok_0, user, second)
            == Err::<HouseState, StakeError>(StakeError::AlreadyRegistered),
        s.members.no_duplicates() ==> (join_outcome(s, user, first)->Ok_0).members.no_duplicates(),
{
    let s2 = join_outcome(s, user, first)->Ok_0;
    assert(s2.members[s.members.len() as int] == user);
    assert(s2.members.contains(user));
    if s.members.no_duplicates() {
        assert forall|i: int, j: int| 0 <= i < s2.members.len() && 0 <= j < s2.members.len() && i != j
            implies s2.members[i] != s2.members[j] by {
            if i < s.members.len() && j < s.members.len() {
                assert(s2.members[i] == s.members[i]);
                assert(s2.members[j] == s.members[j]);
            } else if i < s.members.len() {
                assert(s2.members[i] == s.members[i]);
            } else if j < s.members.len() {
                assert(s2.members[j] == s.members[j]);
            }
        }
    }
}

} // verus!
