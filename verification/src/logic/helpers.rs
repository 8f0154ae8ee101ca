use vstd::prelude::*;
use crate::address::Address;
use crate::errors::Error;
use crate::math::TOTAL_SHARES;
use crate::storage::{remove_address, Env, ShareDataKey, State};
use crate::sums::{lemma_sum_bounds, lemma_sum_empty, lemma_sum_insert, lemma_sum_remove, sum_values};
use crate::table::{lemma_push_new, lemma_remove_value};

verus! {

/// The units of all the records together.
pub open spec fn units_in(shares: Seq<ShareDataKey>) -> int
    decreases shares.len(),
{
    if shares.len() == 0 {
        0
    } else {
        units_in(shares.drop_last()) + shares.last().share
    }
}

/// Whether one of the records holds a negative number of units.
pub open spec fn has_negative(shares: Seq<ShareDataKey>) -> bool {
    exists|i: int| 0 <= i < shares.len() && (#[trigger] shares[i]).share < 0
}

/// Whether two of the records are for one identity.
pub open spec fn has_duplicate(shares: Seq<ShareDataKey>) -> bool {
    exists|i: int, j: int|
        0 <= i < j < shares.len() && (#[trigger] shares[i]).shareholder == (
        #[trigger] shares[j]).shareholder
}

/// What is wrong with a set of share records, if anything: it is empty, or
/// else it holds a negative amount, or else it names an identity twice, or
/// else its units do not add up to the pool's supply.
pub open spec fn share_error(shares: Seq<ShareDataKey>) -> Option<Error> {
    if shares.len() < 1 {
        Some(Error::LowShareCount)
    } else if has_negative(shares) {
        Some(Error::NegativeShareAmount)
    } else if has_duplicate(shares) {
        Some(Error::DuplicateShareholder)
    } else if units_in(shares) != TOTAL_SHARES {
        Some(Error::InvalidShareTotal)
    } else {
        None
    }
}

/// The identities that the records name, in the order of the records.
pub open spec fn holders_of(shares: Seq<ShareDataKey>) -> Seq<Address> {
    Seq::new(shares.len(), |i: int| shares[i].shareholder)
}

/// `units` after each of the records was written to it in turn.
pub open spec fn recorded(units: Map<Address, i128>, shares: Seq<ShareDataKey>) -> Map<
    Address,
    i128,
>
    decreases shares.len(),
{
    if shares.len() == 0 {
        units
    } else {
        recorded(units, shares.drop_last()).insert(shares.last().shareholder, shares.last().share)
    }
}

/// Where no record is negative, the first records hold no more units than all of them.
pub proof fn lemma_units_in_prefix(shares: Seq<ShareDataKey>, n: int)
    requires
        0 <= n <= shares.len(),
        !has_negative(shares),
    ensures
        0 <= units_in(shares.take(n)) <= units_in(shares),
    decreases shares.len(),
{
    if shares.len() == 0 {
        assert(shares.take(n) =~= shares);
    } else if n == shares.len() {
        assert(shares.take(n) =~= shares);
        let rest = shares.drop_last();
        assert forall|i: int| 0 <= i < rest.len() implies (#[trigger] rest[i]).share >= 0 by {
            assert(shares[i].share >= 0);
        }
        lemma_units_in_prefix(rest, n - 1);
        assert(rest.take(n - 1) =~= rest);
        assert(shares[n - 1].share >= 0);
    } else {
        let rest = shares.drop_last();
        assert forall|i: int| 0 <= i < rest.len() implies (#[trigger] rest[i]).share >= 0 by {
            assert(shares[i].share >= 0);
        }
        lemma_units_in_prefix(rest, n);
        assert(rest.take(n) =~= shares.take(n));
        assert(shares[shares.len() - 1].share >= 0);
    }
}

/// Records that pass the checks make a registry in order: each identity
/// they name holds what its record says, and the units add up to the supply.
pub proof fn lemma_recorded(shares: Seq<ShareDataKey>)
    requires
        !has_negative(shares),
        !has_duplicate(shares),
    ensures
        recorded(Map::empty(), shares).dom().finite(),
        holders_of(shares).no_duplicates(),
        forall|a: Address|
            holders_of(shares).contains(a) <==> recorded(Map::empty(), shares).contains_key(a),
        forall|i: int|
            0 <= i < shares.len() ==> recorded(Map::empty(), shares).contains_key(
                (#[trigger] shares[i]).shareholder,
            ) && recorded(Map::empty(), shares)[shares[i].shareholder] == shares[i].share,
        forall|a: Address|
            recorded(Map::empty(), shares).contains_key(a) ==> recorded(Map::empty(), shares)[a]
                >= 0,
        sum_values(recorded(Map::empty(), shares)) == units_in(shares),
    decreases shares.len(),
{
    let holders = holders_of(shares);
    let units = recorded(Map::empty(), shares);
    if shares.len() == 0 {
        lemma_sum_empty::<Address>();
    } else {
        let rest = shares.drop_last();
        let last = shares.last();
        let before = recorded(Map::empty(), rest);
        assert forall|i: int| 0 <= i < rest.len() implies (#[trigger] rest[i]).share >= 0 by {
            assert(shares[i].share >= 0);
        }
        assert(!has_duplicate(rest)) by {
            if has_duplicate(rest) {
                let (i, j) = choose|i: int, j: int|
                    0 <= i < j < rest.len() && (#[trigger] rest[i]).shareholder == (
                    #[trigger] rest[j]).shareholder;
                assert(shares[i].shareholder == shares[j].shareholder);
            }
        }
        lemma_recorded(rest);
        assert(!before.contains_key(last.shareholder)) by {
            if before.contains_key(last.shareholder) {
                assert(holders_of(rest).contains(last.shareholder));
                let j = choose|j: int|
                    0 <= j < rest.len() && holders_of(rest)[j] == last.shareholder;
                assert(shares[j].shareholder == shares[shares.len() - 1].shareholder);
            }
        }
        lemma_sum_insert(before, last.shareholder, last.share);
        assert(shares[shares.len() - 1].share >= 0);
        assert forall|a: Address| holders.contains(a) <==> units.contains_key(a) by {
            if holders.contains(a) {
                let j = choose|j: int| 0 <= j < holders.len() && holders[j] == a;
                if j < rest.len() {
                    assert(holders_of(rest)[j] == a);
                }
            }
            if units.contains_key(a) {
                if a == last.shareholder {
                    assert(holders[shares.len() - 1] == a);
                } else {
                    assert(holders_of(rest).contains(a));
                    let j = choose|j: int| 0 <= j < rest.len() && holders_of(rest)[j] == a;
                    assert(holders[j] == a);
                }
            }
        }
        assert forall|i: int| 0 <= i < shares.len() implies units.contains_key(
            (#[trigger] shares[i]).shareholder,
        ) && units[shares[i].shareholder] == shares[i].share by {
            if i < rest.len() {
                assert(rest[i] == shares[i]);
                assert(shares[i].shareholder != shares[shares.len() - 1].shareholder);
            }
        }
        assert forall|i: int, j: int|
            0 <= i < holders.len() && 0 <= j < holders.len() && i != j implies holders[i]
            != holders[j] by {
            if i < j {
                assert(shares[i].shareholder != shares[j].shareholder);
            } else {
                assert(shares[j].shareholder != shares[i].shareholder);
            }
        }
    }
}

/// Checks a set of share records: there is at least one, none is negative,
/// none names an identity that another names, and their units add up to the
/// pool's supply.
pub fn check_shares(shares: &Vec<ShareDataKey>) -> (r: Result<(), Error>)
    ensures
        r == (match share_error(shares@) {
            Some(e) => Err::<(), Error>(e),
            None => Ok::<(), Error>(()),
        }),
{
    if shares.len() < 1 {
        return Err(Error::LowShareCount);
    }
    let mut i: usize = 0;
    while i < shares.len()
        invariant
            i <= shares@.len(),
            forall|k: int| 0 <= k < i ==> (#[trigger] shares@[k]).share >= 0,
        decreases shares@.len() - i,
    {
        if shares[i].share < 0 {
            return Err(Error::NegativeShareAmount);
        }
        i = i + 1;
    }
    let mut i: usize = 0;
    while i < shares.len()
        invariant
            i <= shares@.len(),
            !has_negative(shares@),
            forall|a: int, b: int|
                0 <= a < i && a < b < shares@.len() ==> (#[trigger] shares@[a]).shareholder != (
                #[trigger] shares@[b]).shareholder,
        decreases shares@.len() - i,
    {
        let mut j: usize = i + 1;
        while j < shares.len()
            invariant
                i < j <= shares@.len(),
                !has_negative(shares@),
                forall|b: int|
                    i < b < j ==> shares@[i as int].shareholder != (
                    #[trigger] shares@[b]).shareholder,
            decreases shares@.len() - j,
        {
            if shares[i].shareholder == shares[j].shareholder {
                return Err(Error::DuplicateShareholder);
            }
            j = j + 1;
        }
        i = i + 1;
    }
    let mut total: i128 = 0;
    let mut i: usize = 0;
    while i < shares.len()
        invariant
            i <= shares@.len(),
            !has_negative(shares@),
            !has_duplicate(shares@),
            shares@.len() >= 1,
            total == units_in(shares@.take(i as int)),
            0 <= total <= TOTAL_SHARES,
        decreases shares@.len() - i,
    {
        let share: i128 = shares[i].share;
        proof {
            assert(shares@[i as int].share >= 0);
            assert(shares@.take(i + 1).drop_last() =~= shares@.take(i as int));
            lemma_units_in_prefix(shares@, i + 1);
        }
        if share > TOTAL_SHARES - total {
            return Err(Error::InvalidShareTotal);
        }
        total = total + share;
        i = i + 1;
    }
    proof {
        assert(shares@.take(i as int) =~= shares@);
    }
    if total != TOTAL_SHARES {
        return Err(Error::InvalidShareTotal);
    }
    Ok(())
}

/// Writes the records to the registry in turn, and makes the identities
/// that they name the list of holders.
pub fn update_shares(env: &mut Env, shares: &Vec<ShareDataKey>)
    requires
        old(env).wf(),
    ensures
        final(env).wf(),
        final(env)@ == (State {
            shareholders: holders_of(shares@),
            shares: recorded(old(env)@.shares, shares@),
            ..old(env)@
        }),
{
    let mut shareholders: Vec<Address> = Vec::new();
    let mut i: usize = 0;
    while i < shares.len()
        invariant
            i <= shares@.len(),
            env.wf(),
            shareholders@ == holders_of(shares@.take(i as int)),
            env@ == (State {
                shares: recorded(old(env)@.shares, shares@.take(i as int)),
                ..old(env)@
            }),
        decreases shares@.len() - i,
    {
        let share = shares[i];
        shareholders.push(share.shareholder);
        ShareDataKey::save_share(env, share.shareholder, share.share);
        proof {
            assert(shares@.take(i + 1).drop_last() =~= shares@.take(i as int));
            assert(shareholders@ =~= holders_of(shares@.take(i + 1)));
        }
        i = i + 1;
    }
    proof {
        assert(shares@.take(i as int) =~= shares@);
    }
    ShareDataKey::save_shareholders(env, shareholders);
}

/// Forgets the share record of every holder on the list, and empties the list.
pub fn reset_shares(env: &mut Env)
    requires
        old(env).wf(),
    ensures
        final(env).wf(),
        final(env)@ == (State {
            shareholders: Seq::empty(),
            shares: old(env)@.shares.remove_keys(old(env)@.shareholders.to_set()),
            ..old(env)@
        }),
{
    let shareholders = ShareDataKey::get_shareholders(env);
    proof {
        assert(shareholders@.take(0).to_set() =~= Set::<Address>::empty());
        assert(env@.shares.remove_keys(Set::<Address>::empty()) =~= env@.shares);
    }
    let mut i: usize = 0;
    while i < shareholders.len()
        invariant
            i <= shareholders@.len(),
            env.wf(),
            shareholders@ == old(env)@.shareholders,
            env@ == (State {
                shares: old(env)@.shares.remove_keys(shareholders@.take(i as int).to_set()),
                ..old(env)@
            }),
        decreases shareholders@.len() - i,
    {
        ShareDataKey::remove_share(env, &shareholders[i]);
        proof {
            let first = shareholders@.take(i as int);
            let next = shareholders@.take(i + 1);
            assert(next =~= first.push(shareholders@[i as int]));
            assert(next.to_set() =~= first.to_set().insert(shareholders@[i as int])) by {
                assert forall|a: Address| next.to_set().contains(a) <==> first.to_set().insert(
                    shareholders@[i as int],
                ).contains(a) by {
                    if next.contains(a) {
                        let j = choose|j: int| 0 <= j < next.len() && next[j] == a;
                        if j < first.len() {
                            assert(first[j] == a);
                        }
                    }
                    if first.contains(a) {
                        let j = choose|j: int| 0 <= j < first.len() && first[j] == a;
                        assert(next[j] == a);
                    }
                    if a == shareholders@[i as int] {
                        assert(next[i as int] == a);
                    }
                }
            }
            assert(env@.shares =~= old(env)@.shares.remove_keys(next.to_set()));
        }
        i = i + 1;
    }
    proof {
        assert(shareholders@.take(i as int) =~= shareholders@);
    }
    ShareDataKey::remove_shareholders(env);
}

/// The pool after `amount` units went from `from` to `to`: a sender left
/// without units leaves the registry and the list of holders, and a receiver
/// who held none joins the list at its end.
pub open spec fn moved(s: State, from: Address, to: Address, amount: int) -> State {
    let left = s.units_of(from) - amount;
    State {
        shares: (if left == 0 {
            s.shares.remove(from)
        } else {
            s.shares.insert(from, left as i128)
        }).insert(to, (s.units_of(to) + amount) as i128),
        shareholders: {
            let stayed = if left == 0 {
                s.shareholders.remove_value(from)
            } else {
                s.shareholders
            };
            if s.shares.contains_key(to) {
                stayed
            } else {
                stayed.push(to)
            }
        },
        ..s
    }
}

/// Moving units between two identities keeps the registry in order, and
/// the supply as it was.
pub proof fn lemma_moved(s: State, from: Address, to: Address, amount: int)
    requires
        s.finite(),
        s.registry_ok(),
        from != to,
        0 < amount <= s.units_of(from),
        s.shares.contains_key(from),
    ensures
        moved(s, from, to, amount).finite(),
        moved(s, from, to, amount).registry_ok(),
        moved(s, from, to, amount).total_units() == s.total_units(),
        s.units_of(to) + amount <= s.total_units(),
        s.config is Some,
{
    let after = moved(s, from, to, amount);
    let left = s.units_of(from) - amount;
    let given_up = if left == 0 {
        s.shares.remove(from)
    } else {
        s.shares.insert(from, left as i128)
    };
    let stayed = if left == 0 {
        s.shareholders.remove_value(from)
    } else {
        s.shareholders
    };
    assert(s.shareholders.contains(from));
    lemma_sum_bounds(s.shares);
    lemma_sum_remove(s.shares, from);
    lemma_sum_bounds(s.shares.remove(from));
    if s.shares.contains_key(to) {
        assert(s.shares.remove(from).contains_key(to));
    }
    if left != 0 {
        lemma_sum_insert(s.shares, from, left as i128);
    }
    lemma_sum_insert(given_up, to, (s.units_of(to) + amount) as i128);
    lemma_remove_value(s.shareholders, from);
    assert(s.shareholders.contains(to) <==> s.shares.contains_key(to));
    assert(stayed.contains(to) <==> s.shareholders.contains(to));
    if !s.shares.contains_key(to) {
        lemma_push_new(stayed, to);
    }
    assert forall|a: Address| after.shareholders.contains(a) <==> after.shares.contains_key(
        a,
    ) by {
        assert(s.shareholders.contains(a) <==> s.shares.contains_key(a));
        assert(stayed.contains(a) <==> s.shareholders.contains(a) && (left != 0 || a != from));
    }
}

/// Moves `amount` units from `from` to `to`.
pub fn move_shares(env: &mut Env, from: &Address, to: &Address, amount: i128)
    requires
        old(env).consistent(),
        *from != *to,
        0 < amount <= old(env)@.units_of(*from),
        old(env)@.shares.contains_key(*from),
    ensures
        final(env).consistent(),
        final(env)@ == moved(old(env)@, *from, *to, amount as int),
{
    proof {
        lemma_moved(env@, *from, *to, amount as int);
    }
    let sender: i128 = match ShareDataKey::get_share(env, from) {
        Some(record) => record.share,
        None => 0,
    };
    let new_sender_share: i128 = sender - amount;
    let recipient_share = ShareDataKey::get_share(env, to);
    let new_recipient_share: i128 = match recipient_share {
        Some(record) => record.share + amount,
        None => amount,
    };
    if new_sender_share == 0 {
        ShareDataKey::remove_share(env, from);
        let mut shareholders = ShareDataKey::get_shareholders(env);
        if remove_address(&mut shareholders, from) {
            ShareDataKey::save_shareholders(env, shareholders);
        }
    } else {
        ShareDataKey::save_share(env, *from, new_sender_share);
    }
    ShareDataKey::save_share(env, *to, new_recipient_share);
    if recipient_share.is_none() {
        let mut shareholders = ShareDataKey::get_shareholders(env);
        shareholders.push(*to);
        ShareDataKey::save_shareholders(env, shareholders);
    }
}

} // verus!
