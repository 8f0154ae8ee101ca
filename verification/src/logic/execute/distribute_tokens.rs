use vstd::prelude::*;
use crate::address::Address;
use crate::errors::Error;
use crate::math::{lemma_portion_bounds, mul_div, portion};
use crate::payments::{Payer, Transfer};
use crate::storage::{
    lemma_claims_finite, lemma_save_allocation, with_total, claims_on, AllocationDataKey,
    AllocationKey, CommissionConfig, ConfigDataKey, Env, ShareDataKey, State,
};
use crate::sums::{
    lemma_sum_bounds, lemma_sum_over_all, lemma_sum_over_prefix, sum_over, value_at,
};

verus! {

/// What a distribution did.
#[derive(Clone, Copy, Debug, PartialEq, Eq, Structural)]
pub struct Distribution {
    /// The commission to pay out of the pool's balance, where one is due.
    pub commission: Option<Transfer>,
    /// What the holders were credited with in all, dust included.
    pub total_distributed: i128,
    /// What rounding down left over after every holder had their part.
    pub dust: i128,
    /// The holder who was credited with the dust, where there was any.
    pub dust_to: Option<Address>,
}

/// What the holders in `holders` get of `amount` when each is given the part
/// that their units stand for, rounded down.
pub open spec fn paid_out(holders: Seq<Address>, shares: Map<Address, i128>, amount: int) -> int
    decreases holders.len(),
{
    if holders.len() == 0 {
        0
    } else {
        paid_out(holders.drop_last(), shares, amount) + portion(
            amount,
            value_at(shares, holders.last()),
        )
    }
}

/// Whether the holder at place `i` is, among the first `n` holders, the first
/// of those with the most units.
pub open spec fn leads(holders: Seq<Address>, shares: Map<Address, i128>, n: int, i: int) -> bool {
    &&& 0 <= i < n <= holders.len()
    &&& value_at(shares, holders[i]) > 0
    &&& forall|j: int|
        0 <= j < i ==> value_at(shares, #[trigger] holders[j]) < value_at(shares, holders[i])
    &&& forall|j: int|
        i <= j < n ==> value_at(shares, #[trigger] holders[j]) <= value_at(shares, holders[i])
}

/// The holder to whom dust goes: the first, in the order of the registry, of
/// those with the most units. There is none where nobody owns a unit.
pub open spec fn leader(s: State) -> Option<Address> {
    if exists|i: int| leads(s.shareholders, s.shares, s.shareholders.len() as int, i) {
        Some(
            s.shareholders[choose|i: int|
                leads(s.shareholders, s.shares, s.shareholders.len() as int, i)],
        )
    } else {
        None
    }
}

/// What `who` gains when the first `n` holders have had their part of
/// `amount`, and `bonus_to` has had `bonus` on top.
pub open spec fn gain(
    s: State,
    amount: int,
    n: int,
    bonus_to: Option<Address>,
    bonus: int,
    who: Address,
) -> int {
    (if s.shareholders.take(n).contains(who) {
        portion(amount, s.units_of(who))
    } else {
        0
    }) + (if bonus_to == Some(who) {
        bonus
    } else {
        0
    })
}

/// The pool after the first `n` holders were credited with their part of
/// `amount` in `token`, and `bonus_to` with `bonus` on top: every claim on
/// `token` grows by what its holder gains, and the recorded total by the sum.
pub open spec fn credited(
    s: State,
    token: Address,
    amount: int,
    n: int,
    bonus_to: Option<Address>,
    bonus: int,
) -> State {
    let sum = paid_out(s.shareholders.take(n), s.shares, amount) + (if bonus_to is Some {
        bonus
    } else {
        0
    });
    State {
        allocations: Map::new(
            |k: AllocationKey|
                s.allocations.contains_key(k) || (k.token == token && gain(
                    s,
                    amount,
                    n,
                    bonus_to,
                    bonus,
                    k.shareholder,
                ) > 0),
            |k: AllocationKey|
                if k.token == token {
                    (s.allocation(k.shareholder, token) + gain(
                        s,
                        amount,
                        n,
                        bonus_to,
                        bonus,
                        k.shareholder,
                    )) as i128
                } else {
                    s.allocations[k]
                },
        ),
        total_allocations: with_total(
            s.total_allocations,
            token,
            s.total_allocation(token) + sum,
        ),
        ..s
    }
}

/// Why a distribution is refused, if it is: the pool must be configured and
/// its administrator must consent.
pub open spec fn refusal(s: State) -> Option<Error> {
    match s.config {
        None => Some(Error::NotInitialized),
        Some(c) => if s.authorizes(c.admin) {
            None
        } else {
            Some(Error::Unauthorized)
        },
    }
}

/// The part of `balance` that no holder can claim yet.
pub open spec fn distributable(s: State, token: Address, balance: int) -> int {
    balance - s.total_allocation(token)
}

/// The commission on what is distributable.
pub open spec fn commission_due(s: State, token: Address, balance: int) -> int {
    portion(distributable(s, token, balance), s.commission_in_force().distribution_rate_bps as int)
}

/// What is left for the holders once the commission is taken.
pub open spec fn remainder(s: State, token: Address, balance: int) -> int {
    distributable(s, token, balance) - commission_due(s, token, balance)
}

/// What rounding down leaves of the remainder after every holder had their part.
pub open spec fn dust(s: State, token: Address, balance: int) -> int {
    remainder(s, token, balance) - paid_out(s.shareholders, s.shares, remainder(s, token, balance))
}

/// The holder who gets the dust of this distribution, where there is dust.
pub open spec fn dust_goes_to(s: State, token: Address, balance: int) -> Option<Address> {
    if dust(s, token, balance) > 0 {
        leader(s)
    } else {
        None
    }
}

/// What a distribution that is not refused reports.
pub open spec fn distribution(s: State, token: Address, balance: int) -> Distribution {
    if distributable(s, token, balance) <= 0 {
        Distribution { commission: None, total_distributed: 0, dust: 0, dust_to: None }
    } else {
        let fee = commission_due(s, token, balance);
        let commission = if fee > 0 {
            Some(
                Transfer {
                    token,
                    from: Payer::Pool,
                    to: s.commission_in_force().recipient,
                    amount: fee as i128,
                },
            )
        } else {
            None
        };
        if remainder(s, token, balance) <= 0 {
            Distribution { commission, total_distributed: 0, dust: 0, dust_to: None }
        } else {
            Distribution {
                commission,
                total_distributed: (paid_out(
                    s.shareholders,
                    s.shares,
                    remainder(s, token, balance),
                ) + (if dust_goes_to(s, token, balance) is Some {
                    dust(s, token, balance)
                } else {
                    0
                })) as i128,
                dust: dust(s, token, balance) as i128,
                dust_to: dust_goes_to(s, token, balance),
            }
        }
    }
}

/// The pool after a distribution that is not refused: untouched where nothing
/// is distributable; else the commission policy in force is on record, and
/// where something is left for the holders, each has their part of it and the
/// leader the dust.
pub open spec fn distributed(s: State, token: Address, balance: int) -> State {
    if distributable(s, token, balance) <= 0 {
        s
    } else {
        let read = State { commission: Some(s.commission_in_force()), ..s };
        if remainder(s, token, balance) <= 0 {
            read
        } else {
            credited(
                read,
                token,
                remainder(s, token, balance),
                s.shareholders.len() as int,
                dust_goes_to(s, token, balance),
                dust(s, token, balance),
            )
        }
    }
}

/// No holder gets a negative part of an amount that is not negative.
pub proof fn lemma_paid_out_nonnegative(holders: Seq<Address>, shares: Map<Address, i128>, amount: int)
    requires
        0 <= amount,
        forall|a: Address| shares.contains_key(a) ==> 0 <= #[trigger] shares[a] <= 10000,
    ensures
        0 <= paid_out(holders, shares, amount),
    decreases holders.len(),
{
    if holders.len() != 0 {
        lemma_paid_out_nonnegative(holders.drop_last(), shares, amount);
        lemma_portion_bounds(amount, value_at(shares, holders.last()));
    }
}

/// The parts of the holders, rounded down, come to no more than the parts
/// that their units stand for.
pub proof fn lemma_paid_out_bound(holders: Seq<Address>, shares: Map<Address, i128>, amount: int)
    requires
        0 <= amount,
        forall|a: Address| shares.contains_key(a) ==> 0 <= #[trigger] shares[a] <= 10000,
    ensures
        10000 * paid_out(holders, shares, amount) <= amount * sum_over(holders, shares),
    decreases holders.len(),
{
    if holders.len() != 0 {
        let rest = holders.drop_last();
        let units = value_at(shares, holders.last());
        lemma_paid_out_bound(rest, shares, amount);
        lemma_portion_bounds(amount, units);
        assert(amount * (sum_over(rest, shares) + units) == amount * sum_over(rest, shares) + amount
            * units) by (nonlinear_arith);
    } else {
        assert(amount * 0 == 0);
    }
}

/// Where the units of the holders add up to the pool's supply, their parts
/// of an amount come to no more than the amount.
pub proof fn lemma_paid_out_within(s: State, amount: int, n: int)
    requires
        s.finite(),
        s.registry_ok(),
        s.config is Some,
        0 <= amount,
        0 <= n <= s.shareholders.len(),
    ensures
        0 <= paid_out(s.shareholders.take(n), s.shares, amount) <= amount,
        forall|a: Address| s.shares.contains_key(a) ==> 0 <= #[trigger] s.shares[a] <= 10000,
{
    lemma_sum_bounds(s.shares);
    lemma_sum_over_all(s.shareholders, s.shares);
    lemma_sum_over_prefix(s.shareholders, s.shares, n);
    let prefix = s.shareholders.take(n);
    lemma_paid_out_nonnegative(prefix, s.shares, amount);
    lemma_paid_out_bound(prefix, s.shares, amount);
    let paid = paid_out(prefix, s.shares, amount);
    let units = sum_over(prefix, s.shares);
    assert(paid <= amount) by (nonlinear_arith)
        requires
            10000 * paid <= amount * units,
            0 <= units <= 10000,
            0 <= amount,
    ;
}

/// Among the first holders of a list, at most one leads.
pub proof fn lemma_leads_unique(
    holders: Seq<Address>,
    shares: Map<Address, i128>,
    n: int,
    i: int,
    j: int,
)
    requires
        leads(holders, shares, n, i),
        leads(holders, shares, n, j),
    ensures
        i == j,
{
    if i < j {
        assert(value_at(shares, holders[i]) < value_at(shares, holders[j]));
        assert(value_at(shares, holders[j]) <= value_at(shares, holders[i]));
    }
    if j < i {
        assert(value_at(shares, holders[j]) < value_at(shares, holders[i]));
        assert(value_at(shares, holders[i]) <= value_at(shares, holders[j]));
    }
}

/// Where nobody owns a unit, the units add up to nothing.
pub proof fn lemma_nobody_owns(holders: Seq<Address>, shares: Map<Address, i128>)
    requires
        forall|j: int| 0 <= j < holders.len() ==> value_at(shares, #[trigger] holders[j]) <= 0,
    ensures
        sum_over(holders, shares) <= 0,
    decreases holders.len(),
{
    if holders.len() != 0 {
        let rest = holders.drop_last();
        assert forall|j: int| 0 <= j < rest.len() implies value_at(shares, #[trigger] rest[j])
            <= 0 by {
            assert(rest[j] == holders[j]);
        }
        lemma_nobody_owns(rest, shares);
        assert(holders.last() == holders[holders.len() - 1]);
    }
}

/// Before any holder is credited, the pool is as it was.
pub proof fn lemma_credited_none(s: State, token: Address, amount: int)
    requires
        s.ledger_ok(),
    ensures
        credited(s, token, amount, 0, None, 0) == s,
{
    let c = credited(s, token, amount, 0, None, 0);
    assert(s.shareholders.take(0) =~= Seq::<Address>::empty());
    assert forall|a: Address| gain(s, amount, 0, None, 0, a) == 0 by {}
    assert(c.allocations =~= s.allocations);
    assert(s.total_allocation(token) == s.allocated(token));
    assert(c.total_allocations =~= s.total_allocations);
}

/// Crediting the next holder in line with their part takes the pool from
/// one stage of the distribution to the next.
pub proof fn lemma_credited_next(s: State, token: Address, amount: int, n: int)
    requires
        s.ledger_ok(),
        s.shareholders.no_duplicates(),
        forall|a: Address| s.shares.contains_key(a) ==> 0 <= #[trigger] s.shares[a] <= 10000,
        0 <= amount,
        0 <= n < s.shareholders.len(),
        s.allocation(s.shareholders[n], token) + portion(amount, s.units_of(s.shareholders[n]))
            <= i128::MAX,
        s.total_allocation(token) + paid_out(s.shareholders.take(n + 1), s.shares, amount)
            <= i128::MAX,
    ensures
        ({
            let who = s.shareholders[n];
            let part = portion(amount, s.units_of(who));
            let before = credited(s, token, amount, n, None, 0);
            let after = credited(s, token, amount, n + 1, None, 0);
            &&& part >= 0
            &&& before.allocation(who, token) == s.allocation(who, token)
            &&& before.total_allocation(token) == s.total_allocation(token) + paid_out(
                s.shareholders.take(n),
                s.shares,
                amount,
            )
            &&& paid_out(s.shareholders.take(n + 1), s.shares, amount) == paid_out(
                s.shareholders.take(n),
                s.shares,
                amount,
            ) + part
            &&& part == 0 ==> after == before
            &&& part > 0 ==> after == before.save_allocation(
                who,
                token,
                (s.allocation(who, token) + part) as i128,
            )
        }),
{
    let who = s.shareholders[n];
    let part = portion(amount, s.units_of(who));
    let before = credited(s, token, amount, n, None, 0);
    let after = credited(s, token, amount, n + 1, None, 0);
    let first = s.shareholders.take(n);
    let next = s.shareholders.take(n + 1);
    lemma_portion_bounds(amount, s.units_of(who));
    lemma_paid_out_nonnegative(first, s.shares, amount);
    assert(next.drop_last() =~= first);
    assert(next.last() == who);
    assert(!first.contains(who)) by {
        if first.contains(who) {
            let j = choose|j: int| 0 <= j < first.len() && first[j] == who;
            assert(s.shareholders[j] == who);
        }
    }
    assert forall|a: Address| a != who implies gain(s, amount, n + 1, None, 0, a) == gain(
        s,
        amount,
        n,
        None,
        0,
        a,
    ) by {
        if first.contains(a) {
            let j = choose|j: int| 0 <= j < first.len() && first[j] == a;
            assert(next[j] == a);
        }
        if next.contains(a) {
            let j = choose|j: int| 0 <= j < next.len() && next[j] == a;
            assert(first[j] == a);
        }
    }
    assert(next.contains(who)) by {
        assert(next[n] == who);
    }
    assert(gain(s, amount, n, None, 0, who) == 0);
    assert(gain(s, amount, n + 1, None, 0, who) == part);
    assert(s.total_allocation(token) == s.allocated(token));
    lemma_total_nonnegative(s, token);
    assert(before.allocation(who, token) == s.allocation(who, token));
    assert(before.total_allocation(token) == s.total_allocation(token) + paid_out(
        first,
        s.shares,
        amount,
    ));
    assert(paid_out(next, s.shares, amount) == paid_out(first, s.shares, amount) + part);
    if part == 0 {
        assert(after.allocations =~= before.allocations);
        assert(after.total_allocations =~= before.total_allocations);
    } else {
        let saved = before.save_allocation(who, token, (s.allocation(who, token) + part) as i128);
        assert(saved.allocations =~= after.allocations);
        assert(saved.total_allocations =~= after.total_allocations);
    }
}

/// In a ledger in order no recorded total is negative.
pub proof fn lemma_total_nonnegative(s: State, token: Address)
    requires
        s.ledger_ok(),
    ensures
        s.total_allocation(token) >= 0,
{
}

/// What one of the holders gets is part of what all of them get.
pub proof fn lemma_part_within(
    holders: Seq<Address>,
    shares: Map<Address, i128>,
    amount: int,
    who: Address,
)
    requires
        0 <= amount,
        forall|a: Address| shares.contains_key(a) ==> 0 <= #[trigger] shares[a] <= 10000,
        holders.contains(who),
    ensures
        portion(amount, value_at(shares, who)) <= paid_out(holders, shares, amount),
    decreases holders.len(),
{
    let rest = holders.drop_last();
    lemma_paid_out_nonnegative(rest, shares, amount);
    lemma_portion_bounds(amount, value_at(shares, holders.last()));
    if holders.last() != who {
        let j = choose|j: int| 0 <= j < holders.len() && holders[j] == who;
        assert(rest[j] == who);
        lemma_part_within(rest, shares, amount, who);
    }
}

/// Crediting the leader with the dust, once every holder has had their
/// part, completes the distribution.
pub proof fn lemma_credited_bonus(s: State, token: Address, amount: int, who: Address, bonus: int)
    requires
        s.finite(),
        s.ledger_ok(),
        forall|a: Address| s.shares.contains_key(a) ==> 0 <= #[trigger] s.shares[a] <= 10000,
        0 <= amount,
        0 < bonus,
        s.total_allocation(token) + paid_out(s.shareholders, s.shares, amount) + bonus
            <= i128::MAX,
    ensures
        ({
            let n = s.shareholders.len() as int;
            let before = credited(s, token, amount, n, None, 0);
            let after = credited(s, token, amount, n, Some(who), bonus);
            &&& before.allocation(who, token) == s.allocation(who, token) + gain(
                s,
                amount,
                n,
                None,
                0,
                who,
            )
            &&& before.allocation(who, token) + bonus <= i128::MAX
            &&& after == before.save_allocation(
                who,
                token,
                (before.allocation(who, token) + bonus) as i128,
            )
        }),
{
    let n = s.shareholders.len() as int;
    let before = credited(s, token, amount, n, None, 0);
    let after = credited(s, token, amount, n, Some(who), bonus);
    let key = AllocationKey { shareholder: who, token };
    assert(s.shareholders.take(n) =~= s.shareholders);
    lemma_portion_bounds(amount, s.units_of(who));
    lemma_paid_out_nonnegative(s.shareholders, s.shares, amount);
    if s.shareholders.contains(who) {
        lemma_part_within(s.shareholders, s.shares, amount, who);
    }
    assert(s.total_allocation(token) == s.allocated(token));
    lemma_total_nonnegative(s, token);
    lemma_claims_finite(s.allocations, token);
    lemma_sum_bounds(s.allocations.restrict(claims_on(token)));
    assert(s.allocations.contains_key(key) ==> s.allocations.restrict(
        claims_on(token),
    ).contains_key(key));
    assert(s.allocation(who, token) <= s.total_allocation(token));
    assert forall|a: Address| a != who implies gain(s, amount, n, Some(who), bonus, a) == gain(
        s,
        amount,
        n,
        None,
        0,
        a,
    ) by {}
    assert(before.total_allocation(token) == s.total_allocation(token) + paid_out(
        s.shareholders,
        s.shares,
        amount,
    ));
    let saved = before.save_allocation(who, token, (before.allocation(who, token) + bonus) as i128);
    assert(saved.allocations =~= after.allocations);
    assert(saved.total_allocations =~= after.total_allocations);
}

/// At every stage of a distribution the ledger is in order, and the claims
/// on the asset have grown by what the holders credited so far have got.
pub proof fn lemma_credited_ledger(s: State, token: Address, amount: int, n: int)
    requires
        s.finite(),
        s.ledger_ok(),
        s.registry_ok(),
        s.config is Some,
        0 <= amount,
        0 <= n <= s.shareholders.len(),
        s.total_allocation(token) + amount <= i128::MAX,
    ensures
        credited(s, token, amount, n, None, 0).finite(),
        credited(s, token, amount, n, None, 0).ledger_ok(),
        credited(s, token, amount, n, None, 0).allocated(token) == s.total_allocation(token)
            + paid_out(s.shareholders.take(n), s.shares, amount),
    decreases n,
{
    if n == 0 {
        lemma_credited_none(s, token, amount);
        assert(s.shareholders.take(0) =~= Seq::<Address>::empty());
    } else {
        let who = s.shareholders[n - 1];
        let key = AllocationKey { shareholder: who, token };
        let before = credited(s, token, amount, n - 1, None, 0);
        lemma_credited_ledger(s, token, amount, n - 1);
        lemma_paid_out_within(s, amount, n);
        lemma_paid_out_within(s, amount, n - 1);
        lemma_portion_bounds(amount, s.units_of(who));
        lemma_total_nonnegative(s, token);
        lemma_claims_finite(s.allocations, token);
        lemma_sum_bounds(s.allocations.restrict(claims_on(token)));
        assert(s.allocations.contains_key(key) ==> s.allocations.restrict(
            claims_on(token),
        ).contains_key(key));
        lemma_credited_next(s, token, amount, n - 1);
        let part = portion(amount, s.units_of(who));
        if part > 0 {
            lemma_save_allocation(before, who, token, (s.allocation(who, token) + part) as i128);
        }
    }
}

/// A distribution that is not refused leaves the pool in order, with the
/// whole remainder credited: the claims on the asset grow by exactly what
/// was left for the holders.
pub proof fn lemma_distributed(s: State, token: Address, balance: i128)
    requires
        s.consistent(),
        refusal(s) is None,
    ensures
        distributed(s, token, balance as int).consistent(),
        refusal(distributed(s, token, balance as int)) is None,
        distributable(s, token, balance as int) > 0 ==> {
            &&& 0 <= commission_due(s, token, balance as int) < distributable(
                s,
                token,
                balance as int,
            )
            &&& 0 <= dust(s, token, balance as int)
            &&& dust(s, token, balance as int) > 0 ==> leader(s) is Some
            &&& distribution(s, token, balance as int).total_distributed == remainder(
                s,
                token,
                balance as int,
            )
            &&& distributed(s, token, balance as int).total_allocation(token)
                == s.total_allocation(token) + remainder(s, token, balance as int)
        },
{
    let b = balance as int;
    if distributable(s, token, b) > 0 {
        let read = State { commission: Some(s.commission_in_force()), ..s };
        let fee = commission_due(s, token, b);
        let rest = remainder(s, token, b);
        let n = s.shareholders.len() as int;
        lemma_portion_bounds(
            distributable(s, token, b),
            s.commission_in_force().distribution_rate_bps as int,
        );
        assert(fee < distributable(s, token, b)) by (nonlinear_arith)
            requires
                0 < distributable(s, token, b),
                0 <= s.commission_in_force().distribution_rate_bps <= 5000,
                10000 * fee <= distributable(s, token, b)
                    * s.commission_in_force().distribution_rate_bps,
        ;
        lemma_total_nonnegative(s, token);
        lemma_credited_ledger(read, token, rest, n);
        lemma_paid_out_within(read, rest, n);
        assert(read.shareholders.take(n) =~= read.shareholders);
        let before = credited(read, token, rest, n, None, 0);
        let left = dust(s, token, b);
        if left > 0 {
            lemma_sum_over_all(s.shareholders, s.shares);
            if !(exists|i: int| leads(s.shareholders, s.shares, n, i)) {
                lemma_somebody_leads(s.shareholders, s.shares, n);
                lemma_nobody_owns(s.shareholders, s.shares);
            }
            let who = leader(s).unwrap();
            lemma_credited_bonus(read, token, rest, who, left);
            lemma_save_allocation(
                before,
                who,
                token,
                (before.allocation(who, token) + left) as i128,
            );
        }
    }
}

/// Where none of the first holders leads, none of them owns a unit.
pub proof fn lemma_somebody_leads(holders: Seq<Address>, shares: Map<Address, i128>, n: int)
    requires
        0 <= n <= holders.len(),
        !(exists|i: int| leads(holders, shares, n, i)),
    ensures
        forall|j: int| 0 <= j < n ==> value_at(shares, #[trigger] holders[j]) <= 0,
    decreases n,
{
    if n > 0 {
        let m = n - 1;
        if exists|i: int| leads(holders, shares, m, i) {
            let i = choose|i: int| leads(holders, shares, m, i);
            if value_at(shares, holders[m]) > value_at(shares, holders[i]) {
                assert(leads(holders, shares, n, m));
            } else {
                assert(leads(holders, shares, n, i));
            }
        } else {
            lemma_somebody_leads(holders, shares, m);
            if value_at(shares, holders[m]) > 0 {
                assert(leads(holders, shares, n, m));
            }
        }
    }
}

/// After a distribution that credits something, every claim on the asset
/// is what it was before plus what its holder gained, and all of it fits the
/// integer type.
pub proof fn lemma_claims_in_range(s: State, token: Address, balance: i128)
    requires
        s.consistent(),
        refusal(s) is None,
        distributable(s, token, balance as int) > 0,
    ensures
        forall|who: Address| #[trigger]
            distributed(s, token, balance as int).allocation(who, token) == s.allocation(
                who,
                token,
            ) + gain(
                s,
                remainder(s, token, balance as int),
                s.shareholders.len() as int,
                dust_goes_to(s, token, balance as int),
                dust(s, token, balance as int),
                who,
            ),
{
    let b = balance as int;
    let n = s.shareholders.len() as int;
    let rest = remainder(s, token, b);
    let left = dust(s, token, b);
    let read = State { commission: Some(s.commission_in_force()), ..s };
    let then = distributed(s, token, b);
    lemma_distributed(s, token, balance);
    lemma_paid_out_within(read, rest, n);
    assert(s.shareholders.take(n) =~= s.shareholders);
    lemma_total_nonnegative(s, token);
    lemma_claims_finite(s.allocations, token);
    lemma_sum_bounds(s.allocations.restrict(claims_on(token)));
    assert forall|who: Address| #[trigger]
        then.allocation(who, token) == s.allocation(who, token) + gain(
            s,
            rest,
            n,
            dust_goes_to(s, token, b),
            left,
            who,
        ) by {
        let key = AllocationKey { shareholder: who, token };
        assert(s.allocations.contains_key(key) ==> s.allocations.restrict(
            claims_on(token),
        ).contains_key(key));
        lemma_portion_bounds(rest, s.units_of(who));
        if s.shareholders.contains(who) {
            lemma_part_within(s.shareholders, s.shares, rest, who);
        }
        assert(gain(read, rest, n, dust_goes_to(s, token, b), left, who) == gain(
            s,
            rest,
            n,
            dust_goes_to(s, token, b),
            left,
            who,
        ));
    }
}

/// Splits what the pool holds of `token_address` beyond the claims already
/// recorded: the commission first, then each holder's part of the rest by
/// their units, rounded down, then the dust to the leader. `balance` is what
/// the pool holds of the asset at this moment. The commission to pay is
/// reported, not paid.
pub fn execute(env: &mut Env, token_address: Address, balance: i128) -> (r: Result<
    Distribution,
    Error,
>)
    requires
        old(env).consistent(),
    ensures
        final(env).consistent(),
        r == (match refusal(old(env)@) {
            Some(e) => Err::<Distribution, Error>(e),
            None => Ok::<Distribution, Error>(
                distribution(old(env)@, token_address, balance as int),
            ),
        }),
        final(env)@ == (if r is Ok {
            distributed(old(env)@, token_address, balance as int)
        } else {
            old(env)@
        }),
{
    if !ConfigDataKey::is_initialized(env) {
        return Err(Error::NotInitialized);
    }
    match ConfigDataKey::require_admin(env) {
        Err(e) => {
            return Err(e);
        },
        Ok(()) => {},
    }
    let ghost start = env@;
    let total_allocated: i128 = match AllocationDataKey::get_total_allocation(env, &token_address) {
        Some(total) => total,
        None => 0,
    };
    let distributable: i128 = match balance.checked_sub(total_allocated) {
        Some(d) => d,
        None => {
            return Ok(Distribution { commission: None, total_distributed: 0, dust: 0, dust_to: None });
        },
    };
    if distributable <= 0 {
        return Ok(Distribution { commission: None, total_distributed: 0, dust: 0, dust_to: None });
    }
    let commission_config = CommissionConfig::get(env);
    let ghost read = env@;
    let commission: i128 = CommissionConfig::calculate_commission(
        distributable,
        commission_config.distribution_rate_bps,
    );
    let payment: Option<Transfer> = if commission > 0 {
        Some(
            Transfer {
                token: token_address,
                from: Payer::Pool,
                to: commission_config.recipient,
                amount: commission,
            },
        )
    } else {
        None
    };
    let amount_for_shareholders: i128 = distributable - commission;
    if amount_for_shareholders <= 0 {
        return Ok(Distribution { commission: payment, total_distributed: 0, dust: 0, dust_to: None });
    }
    let shareholders = ShareDataKey::get_shareholders(env);
    let mut total_distributed: i128 = 0;
    let mut largest_shareholder: Option<Address> = None;
    let mut largest_share: i128 = 0;
    let ghost mut largest_place: int = 0;
    let ghost amount = amount_for_shareholders as int;
    proof {
        env.lemma_finite();
        lemma_credited_none(read, token_address, amount);
        lemma_paid_out_within(read, amount, 0);
        assert(read.shareholders.take(0) =~= Seq::<Address>::empty());
    }
    let mut i: usize = 0;
    while i < shareholders.len()
        invariant
            i <= shareholders@.len(),
            shareholders@ == read.shareholders,
            env.wf(),
            read.consistent(),
            read.config is Some,
            0 < amount == amount_for_shareholders,
            read.total_allocation(token_address) + amount <= i128::MAX,
            env@ == credited(read, token_address, amount, i as int, None, 0),
            env@.ledger_ok(),
            env@.allocated(token_address) == read.total_allocation(token_address)
                + total_distributed,
            total_distributed == paid_out(read.shareholders.take(i as int), read.shares, amount),
            0 <= total_distributed <= amount,
            match largest_shareholder {
                Some(a) => leads(read.shareholders, read.shares, i as int, largest_place)
                    && read.shareholders[largest_place] == a && largest_share == value_at(
                    read.shares,
                    a,
                ),
                None => largest_share == 0 && forall|j: int|
                    0 <= j < i ==> value_at(read.shares, #[trigger] read.shareholders[j]) <= 0,
            },
        decreases shareholders@.len() - i,
    {
        let shareholder = shareholders[i];
        let ghost before = env@;
        proof {
            lemma_paid_out_within(read, amount, i as int + 1);
            env.lemma_finite();
            lemma_claims_finite(before.allocations, token_address);
            lemma_sum_bounds(before.allocations.restrict(claims_on(token_address)));
            lemma_total_nonnegative(read, token_address);
            let key = AllocationKey { shareholder, token: token_address };
            assert(before.allocations.contains_key(key) ==> before.allocations.restrict(
                claims_on(token_address),
            ).contains_key(key));
            lemma_portion_bounds(amount, read.units_of(shareholder));
            assert(read.shareholders.take(i as int + 1).drop_last() =~= read.shareholders.take(
                i as int,
            ));
            lemma_credited_next(read, token_address, amount, i as int);
        }
        match ShareDataKey::get_share(env, &shareholder) {
            Some(record) => {
                let share: i128 = record.share;
                if share > largest_share {
                    largest_share = share;
                    largest_shareholder = Some(shareholder);
                    proof {
                        largest_place = i as int;
                    }
                }
                let part: i128 = mul_div(amount_for_shareholders, share);
                if part > 0 {
                    let allocation: i128 = match AllocationDataKey::get_allocation(
                        env,
                        &shareholder,
                        &token_address,
                    ) {
                        Some(a) => a,
                        None => 0,
                    };
                    AllocationDataKey::save_allocation(
                        env,
                        &shareholder,
                        &token_address,
                        allocation + part,
                    );
                    total_distributed = total_distributed + part;
                    proof {
                        lemma_save_allocation(
                            before,
                            shareholder,
                            token_address,
                            (allocation + part) as i128,
                        );
                    }
                }
            },
            None => {},
        }
        i = i + 1;
    }
    proof {
        assert(read.shareholders.take(i as int) =~= read.shareholders);
    }
    let dust: i128 = amount_for_shareholders - total_distributed;
    let mut dust_to: Option<Address> = None;
    if dust > 0 {
        proof {
            lemma_sum_over_all(read.shareholders, read.shares);
            if largest_shareholder is None {
                lemma_nobody_owns(read.shareholders, read.shares);
            }
        }
        match largest_shareholder {
            Some(shareholder) => {
                let ghost before = env@;
                proof {
                    let n = read.shareholders.len() as int;
                    let chosen = choose|k: int| leads(read.shareholders, read.shares, n, k);
                    lemma_leads_unique(read.shareholders, read.shares, n, chosen, largest_place);
                    lemma_paid_out_within(read, amount, n);
                    env.lemma_finite();
                    lemma_claims_finite(before.allocations, token_address);
                    lemma_sum_bounds(before.allocations.restrict(claims_on(token_address)));
                    lemma_total_nonnegative(read, token_address);
                    let key = AllocationKey { shareholder, token: token_address };
                    assert(before.allocations.contains_key(key) ==> before.allocations.restrict(
                        claims_on(token_address),
                    ).contains_key(key));
                    lemma_credited_bonus(read, token_address, amount, shareholder, dust as int);
                }
                let allocation: i128 = match AllocationDataKey::get_allocation(
                    env,
                    &shareholder,
                    &token_address,
                ) {
                    Some(a) => a,
                    None => 0,
                };
                AllocationDataKey::save_allocation(
                    env,
                    &shareholder,
                    &token_address,
                    allocation + dust,
                );
                total_distributed = total_distributed + dust;
                dust_to = Some(shareholder);
                proof {
                    lemma_save_allocation(
                        before,
                        shareholder,
                        token_address,
                        (allocation + dust) as i128,
                    );
                }
            },
            None => {},
        }
    }
    proof {
        env.lemma_finite();
    }
    Ok(Distribution { commission: payment, total_distributed, dust, dust_to })
}

} // verus!
