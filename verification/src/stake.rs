//! The stake ledger: deposits, withdrawals and the reward loop.
//!
//! Amounts are exact integers and the reward rate is a fixed-point
//! numerator/denominator pair, so every node computes the same rewards:
//! a stake of `a` earns `floor(a * num * blocks / den)` once `blocks`
//! heights have passed since it was last rewarded.

use vstd::prelude::*;
use crate::codec::bytes_eq;
use crate::crypto::now_ts;
use crate::transaction::clone_bytes;

verus! {

/// One account's stake.
#[derive(Clone, Copy, Debug, PartialEq, Eq, Structural)]
pub struct Stake {
    pub amount: u128,
    pub staked_at: u64,
    pub last_reward_height: u64,
}

/// Failures of the stake ledger.
#[derive(Clone, Copy, Debug, PartialEq, Eq, Structural)]
pub enum StakeManagerError {
    InsufficientBalance,
    StakeNotFound,
}

/// The ledger's mathematical value: address/stake pairs in deposit order.
pub type StakeEntries = Seq<(Seq<u8>, Stake)>;

/// The stake recorded for an address, if any.
pub open spec fn lookup(e: StakeEntries, a: Seq<u8>) -> Option<Stake>
    decreases e.len(),
{
    if e.len() == 0 {
        None
    } else if e[0].0 == a {
        Some(e[0].1)
    } else {
        lookup(e.drop_first(), a)
    }
}

/// The sum of all staked amounts.
pub open spec fn total_of(e: StakeEntries) -> nat
    decreases e.len(),
{
    if e.len() == 0 {
        0
    } else {
        total_of(e.drop_last()) + e.last().1.amount as nat
    }
}

/// The reward owed to a stake at height `h`.
pub open spec fn reward_of(s: Stake, h: u64, num: u64, den: u64) -> int {
    s.amount * num * (h - s.last_reward_height) / (den as int)
}

/// Every entry after rewards at height `h` are credited.
pub open spec fn distribute_spec(e: StakeEntries, h: u64, num: u64, den: u64) -> StakeEntries {
    Seq::new(
        e.len(),
        |i: int|
            (
                e[i].0,
                Stake {
                    amount: (e[i].1.amount + reward_of(e[i].1, h, num, den)) as u128,
                    staked_at: e[i].1.staked_at,
                    last_reward_height: h,
                },
            ),
    )
}

/// Crediting rewards twice at the same height credits nothing the second
/// time: after the first pass every entry's last rewarded height is `h`,
/// so the second pass owes zero.
pub proof fn lemma_distribute_idempotent(e: StakeEntries, h: u64, num: u64, den: u64)
    requires
        den > 0,
    ensures
        distribute_spec(distribute_spec(e, h, num, den), h, num, den) == distribute_spec(
            e,
            h,
            num,
            den,
        ),
{
    let once = distribute_spec(e, h, num, den);
    let twice = distribute_spec(once, h, num, den);
    assert forall|i: int| 0 <= i < e.len() implies twice[i] == once[i] by {
        assert(once[i].1.last_reward_height == h);
        assert(reward_of(once[i].1, h, num, den) == 0);
    }
    assert(twice =~= once);
}

pub proof fn lemma_lookup_skip(e: StakeEntries, a: Seq<u8>, i: int)
    requires
        0 <= i <= e.len(),
        forall|j: int| 0 <= j < i ==> e[j].0 != a,
    ensures
        lookup(e, a) == lookup(e.skip(i), a),
    decreases i,
{
    if i > 0 {
        assert(e.drop_first().skip(i - 1) =~= e.skip(i));
        lemma_lookup_skip(e.drop_first(), a, i - 1);
        assert(e.skip(0) =~= e);
    } else {
        assert(e.skip(0) =~= e);
    }
}

/// No entry holds more than the ledger's total.
pub proof fn lemma_entry_le_total(e: StakeEntries, i: int)
    requires
        0 <= i < e.len(),
    ensures
        e[i].1.amount <= total_of(e),
    decreases e.len(),
{
    if i + 1 == e.len() {
    } else {
        assert(e.drop_last()[i] == e[i]);
        lemma_entry_le_total(e.drop_last(), i);
    }
}

/// A prefix of the ledger sums to no more than the whole.
pub proof fn lemma_total_take_le(e: StakeEntries, i: int)
    requires
        0 <= i <= e.len(),
    ensures
        total_of(e.take(i)) <= total_of(e),
    decreases e.len() - i,
{
    if i == e.len() {
        assert(e.take(i) =~= e);
    } else {
        assert(e.take(i + 1).drop_last() =~= e.take(i));
        lemma_total_take_le(e, i + 1);
    }
}

/// Replacing one entry shifts the total by the change in its amount.
pub proof fn lemma_total_update(e: StakeEntries, i: int, p: (Seq<u8>, Stake))
    requires
        0 <= i < e.len(),
    ensures
        total_of(e.update(i, p)) == total_of(e) - e[i].1.amount + p.1.amount,
    decreases e.len(),
{
    let u = e.update(i, p);
    if i + 1 == e.len() {
        assert(u.drop_last() =~= e.drop_last());
        assert(u.last() == p);
    } else {
        assert(u.drop_last() =~= e.drop_last().update(i, p));
        assert(u.last() == e.last());
        lemma_total_update(e.drop_last(), i, p);
    }
}

/// Removing one entry subtracts its amount from the total.
pub proof fn lemma_total_remove(e: StakeEntries, i: int)
    requires
        0 <= i < e.len(),
    ensures
        total_of(e.remove(i)) == total_of(e) - e[i].1.amount,
    decreases e.len(),
{
    let u = e.remove(i);
    if i + 1 == e.len() {
        assert(u =~= e.drop_last());
    } else {
        assert(u.drop_last() =~= e.drop_last().remove(i));
        assert(u.last() == e.last());
        lemma_total_remove(e.drop_last(), i);
    }
}

/// The stake ledger.
pub struct StakeManager {
    pub entries: Vec<(Vec<u8>, Stake)>,
    pub min_stake: u128,
    pub reward_num: u64,
    pub reward_den: u64,
}

/// The views of the stored entries.
pub open spec fn entries_view(s: Seq<(Vec<u8>, Stake)>) -> StakeEntries {
    Seq::new(s.len(), |i: int| (s[i].0@, s[i].1))
}

impl View for StakeManager {
    type V = StakeEntries;

    open spec fn view(&self) -> StakeEntries {
        entries_view(self.entries@)
    }
}

/// Finds the index of an address in the ledger.
fn find_entry(entries: &Vec<(Vec<u8>, Stake)>, address: &Vec<u8>) -> (r: Option<usize>)
    ensures
        (r matches Some(i) ==> i < entries@.len() && entries_view(entries@)[i as int].0 == address@
            && lookup(entries_view(entries@), address@) == Some(
            entries_view(entries@)[i as int].1,
        )),
        (r is None ==> lookup(entries_view(entries@), address@) is None),
{
    let ghost e = entries_view(entries@);
    let mut i: usize = 0;
    while i < entries.len()
        invariant
            0 <= i <= entries@.len(),
            e == entries_view(entries@),
            forall|j: int| 0 <= j < i ==> e[j].0 != address@,
        decreases entries@.len() - i,
    {
        if bytes_eq(entries[i].0.as_slice(), address.as_slice()) {
            proof {
                lemma_lookup_skip(e, address@, i as int);
                assert(e.skip(i as int)[0] == e[i as int]);
            }
            return Some(i);
        }
        i += 1;
    }
    proof {
        lemma_lookup_skip(e, address@, entries@.len() as int);
        assert(e.skip(e.len() as int) =~= Seq::empty());
    }
    None
}

impl StakeManager {
    /// Amounts never fall below the activation minimum, addresses are
    /// distinct, the rate divisor is positive and the total fits a `u128`.
    pub open spec fn wf(&self) -> bool {
        &&& self.reward_den > 0
        &&& (forall|i: int| 0 <= i < self@.len() ==> (#[trigger] self@[i].1).amount
            >= self.min_stake)
        &&& (forall|i: int, j: int| 0 <= i < j < self@.len() ==> self@[i].0 != self@[j].0)
        &&& total_of(self@) <= u128::MAX
    }

    pub open spec fn spec_min_stake(&self) -> u128 {
        self.min_stake
    }

    pub open spec fn spec_reward_num(&self) -> u64 {
        self.reward_num
    }

    pub open spec fn spec_reward_den(&self) -> u64 {
        self.reward_den
    }

    /// An empty ledger with the given activation minimum and fixed-point
    /// reward rate.
    pub fn new(min_stake: u128, reward_num: u64, reward_den: u64) -> (r: StakeManager)
        requires
            reward_den > 0,
        ensures
            r.wf(),
            r@ == Seq::<(Seq<u8>, Stake)>::empty(),
            r.spec_min_stake() == min_stake,
            r.spec_reward_num() == reward_num,
            r.spec_reward_den() == reward_den,
    {
        let r = StakeManager { entries: Vec::new(), min_stake, reward_num, reward_den };
        proof {
            assert(r@ =~= Seq::<(Seq<u8>, Stake)>::empty());
        }
        r
    }

    /// Deposits stake: rejected below the activation minimum, otherwise
    /// credited to the address, keeping its first deposit time.
    pub fn stake(&mut self, address: Vec<u8>, amount: u128) -> (r: Result<(), StakeManagerError>)
        requires
            old(self).wf(),
            total_of(old(self)@) + amount <= u128::MAX,
        ensures
            final(self).wf(),
            final(self).spec_min_stake() == old(self).spec_min_stake(),
            final(self).spec_reward_num() == old(self).spec_reward_num(),
            final(self).spec_reward_den() == old(self).spec_reward_den(),
            (amount < old(self).spec_min_stake() ==> (r matches Err(e) && e
                == StakeManagerError::InsufficientBalance) && final(self)@ == old(self)@),
            (amount >= old(self).spec_min_stake() ==> r is Ok && total_of(final(self)@) == total_of(
                old(self)@,
            ) + amount),
            (lookup(old(self)@, address@) matches Some(s) ==> amount >= old(
                self,
            ).spec_min_stake() ==> exists|i: int|
                0 <= i < old(self)@.len() && old(self)@[i].0 == address@ && final(self)@ == old(
                    self,
                )@.update(
                    i,
                    (
                        address@,
                        Stake {
                            amount: (s.amount + amount) as u128,
                            staked_at: s.staked_at,
                            last_reward_height: s.last_reward_height,
                        },
                    ),
                )),
            (lookup(old(self)@, address@) is None ==> amount >= old(self).spec_min_stake() ==> {
                &&& final(self)@.len() == old(self)@.len() + 1
                &&& final(self)@.subrange(0, old(self)@.len() as int) == old(self)@
                &&& final(self)@.last().0 == address@
                &&& final(self)@.last().1.amount == amount
                &&& final(self)@.last().1.last_reward_height == 0
            }),
    {
        if amount < self.min_stake {
            return Err(StakeManagerError::InsufficientBalance);
        }
        let ghost e = self@;
        match find_entry(&self.entries, &address) {
            Some(i) => {
                proof {
                    lemma_entry_le_total(e, i as int);
                    lemma_total_take_le(e, e.len() as int);
                }
                let pair = self.entries.remove(i);
                let updated = Stake {
                    amount: pair.1.amount + amount,
                    staked_at: pair.1.staked_at,
                    last_reward_height: pair.1.last_reward_height,
                };
                self.entries.insert(i, (address, updated));
                proof {
                    assert(self@ =~= e.update(i as int, (address@, updated)));
                    lemma_total_update(e, i as int, (address@, updated));
                    assert forall|p: int, q: int|
                        0 <= p < q < self@.len() implies self@[p].0 != self@[q].0 by {
                        assert(e[p].0 == self@[p].0 || (p == i && self@[p].0 == address@));
                        assert(e[q].0 == self@[q].0 || (q == i && self@[q].0 == address@));
                    }
                }
                Ok(())
            },
            None => {
                let t = now_ts();
                let staked_at: u64 = if t < 0 {
                    0
                } else {
                    t as u64
                };
                let entry = Stake { amount, staked_at, last_reward_height: 0 };
                self.entries.push((address, entry));
                proof {
                    assert(self@ =~= e.push((address@, entry)));
                    assert(self@.drop_last() =~= e);
                    assert(self@.subrange(0, e.len() as int) =~= e);
                    assert forall|p: int, q: int|
                        0 <= p < q < self@.len() implies self@[p].0 != self@[q].0 by {
                        if q < e.len() {
                        } else {
                            assert(self@[q].0 == address@);
                            if e[p].0 == address@ {
                                lemma_lookup_skip(e, address@, p);
                                assert(e.skip(p)[0] == e[p]);
                                assert(false);
                            }
                        }
                    }
                }
                Ok(())
            },
        }
    }

    /// Withdraws stake: the address must hold at least the amount, and
    /// what remains must be zero or still above the activation minimum.
    pub fn unstake(&mut self, address: Vec<u8>, amount: u128) -> (r: Result<
        u128,
        StakeManagerError,
    >)
        requires
            old(self).wf(),
        ensures
            final(self).wf(),
            final(self).spec_min_stake() == old(self).spec_min_stake(),
            final(self).spec_reward_num() == old(self).spec_reward_num(),
            final(self).spec_reward_den() == old(self).spec_reward_den(),
            (lookup(old(self)@, address@) is None ==> (r matches Err(e) && e
                == StakeManagerError::StakeNotFound) && final(self)@ == old(self)@),
            (lookup(old(self)@, address@) matches Some(s) ==> {
                &&& (s.amount < amount ==> (r matches Err(e) && e
                    == StakeManagerError::InsufficientBalance) && final(self)@ == old(self)@)
                &&& (s.amount >= amount && s.amount - amount > 0 && s.amount - amount < old(
                    self,
                ).spec_min_stake() ==> (r matches Err(e) && e
                    == StakeManagerError::InsufficientBalance) && final(self)@ == old(self)@)
                &&& (s.amount >= amount && (s.amount - amount == 0 || s.amount - amount >= old(
                    self,
                ).spec_min_stake()) ==> r == Ok::<u128, StakeManagerError>(amount) && total_of(
                    final(self)@,
                ) == total_of(old(self)@) - amount && lookup(final(self)@, address@) == (
                if s.amount == amount {
                    None
                } else {
                    Some(
                        Stake {
                            amount: (s.amount - amount) as u128,
                            staked_at: s.staked_at,
                            last_reward_height: s.last_reward_height,
                        },
                    )
                }))
            }),
    {
        let ghost e = self@;
        match find_entry(&self.entries, &address) {
            None => Err(StakeManagerError::StakeNotFound),
            Some(i) => {
                let current = self.entries[i].1.amount;
                if current < amount {
                    return Err(StakeManagerError::InsufficientBalance);
                }
                let remaining = current - amount;
                if remaining > 0 && remaining < self.min_stake {
                    return Err(StakeManagerError::InsufficientBalance);
                }
                let pair = self.entries.remove(i);
                proof {
                    lemma_total_remove(e, i as int);
                }
                if remaining == 0 {
                    proof {
                        assert(self@ =~= e.remove(i as int));
                        lemma_remove_keeps_unique(e, i as int);
                        lemma_lookup_remove_none(e, address@, i as int);
                    }
                    Ok(amount)
                } else {
                    let updated = Stake {
                        amount: remaining,
                        staked_at: pair.1.staked_at,
                        last_reward_height: pair.1.last_reward_height,
                    };
                    self.entries.insert(i, (address, updated));
                    proof {
                        assert(self@ =~= e.update(i as int, (address@, updated)));
                        lemma_total_update(e, i as int, (address@, updated));
                        assert forall|p: int, q: int|
                            0 <= p < q < self@.len() implies self@[p].0 != self@[q].0 by {
                            assert(e[p].0 == self@[p].0 || (p == i && self@[p].0 == address@));
                            assert(e[q].0 == self@[q].0 || (q == i && self@[q].0 == address@));
                        }
                        lemma_lookup_update(self@, address@, i as int);
                    }
                    Ok(amount)
                }
            },
        }
    }

    /// Burns an offender's whole stake: the entry disappears and the
    /// total falls by its amount; nothing is redistributed.
    pub fn slash(&mut self, address: &Vec<u8>) -> (r: Result<u128, StakeManagerError>)
        requires
            old(self).wf(),
        ensures
            final(self).wf(),
            final(self).spec_min_stake() == old(self).spec_min_stake(),
            final(self).spec_reward_num() == old(self).spec_reward_num(),
            final(self).spec_reward_den() == old(self).spec_reward_den(),
            (lookup(old(self)@, address@) is None ==> (r matches Err(e) && e
                == StakeManagerError::StakeNotFound) && final(self)@ == old(self)@),
            (lookup(old(self)@, address@) matches Some(s) ==> {
                &&& r == Ok::<u128, StakeManagerError>(s.amount)
                &&& total_of(final(self)@) == total_of(old(self)@) - s.amount
                &&& lookup(final(self)@, address@) is None
            }),
    {
        let ghost e = self@;
        match find_entry(&self.entries, address) {
            None => Err(StakeManagerError::StakeNotFound),
            Some(i) => {
                let pair = self.entries.remove(i);
                proof {
                    assert(self@ =~= e.remove(i as int));
                    lemma_total_remove(e, i as int);
                    lemma_remove_keeps_unique(e, i as int);
                    lemma_lookup_remove_none(e, address@, i as int);
                }
                Ok(pair.1.amount)
            },
        }
    }

    /// The reward owed to one address at the given height.
    pub fn calculate_rewards(&self, address: &Vec<u8>, current_height: u64) -> (r: Result<
        u128,
        StakeManagerError,
    >)
        requires
            self.wf(),
            (lookup(self@, address@) matches Some(s) ==> current_height >= s.last_reward_height
                && s.amount * self.spec_reward_num() * (current_height - s.last_reward_height)
                <= u128::MAX),
        ensures
            (lookup(self@, address@) is None ==> (r matches Err(e) && e
                == StakeManagerError::StakeNotFound)),
            (lookup(self@, address@) matches Some(s) ==> r == Ok::<u128, StakeManagerError>(
                reward_of(s, current_height, self.spec_reward_num(), self.spec_reward_den()) as u128,
            )),
    {
        match find_entry(&self.entries, address) {
            None => Err(StakeManagerError::StakeNotFound),
            Some(i) => {
                let s = self.entries[i].1;
                let blocks = current_height - s.last_reward_height;
                if blocks == 0 {
                    proof {
                        vstd::arithmetic::mul::lemma_mul_basics(s.amount * self.reward_num);
                        vstd::arithmetic::div_mod::lemma_div_of0(self.reward_den as int);
                    }
                    return Ok(0);
                }
                proof {
                    vstd::arithmetic::mul::lemma_mul_inequality(
                        1,
                        blocks as int,
                        s.amount * self.reward_num,
                    );
                    vstd::arithmetic::mul::lemma_mul_is_commutative(
                        blocks as int,
                        s.amount * self.reward_num,
                    );
                }
                let product = s.amount * (self.reward_num as u128) * (blocks as u128);
                Ok(product / (self.reward_den as u128))
            },
        }
    }

    /// Credits every entry its reward at the given height and marks the
    /// height as rewarded.
    pub fn distribute_rewards(&mut self, current_height: u64) -> (r: Result<
        (),
        StakeManagerError,
    >)
        requires
            old(self).wf(),
            forall|i: int|
                0 <= i < old(self)@.len() ==> current_height >= (#[trigger] old(
                    self,
                )@[i]).1.last_reward_height && old(self)@[i].1.amount * old(self).spec_reward_num()
                    * (current_height - old(self)@[i].1.last_reward_height) <= u128::MAX && old(
                    self,
                )@[i].1.amount + reward_of(
                    old(self)@[i].1,
                    current_height,
                    old(self).spec_reward_num(),
                    old(self).spec_reward_den(),
                ) <= u128::MAX,
            total_of(
                distribute_spec(
                    old(self)@,
                    current_height,
                    old(self).spec_reward_num(),
                    old(self).spec_reward_den(),
                ),
            ) <= u128::MAX,
        ensures
            final(self).wf(),
            final(self).spec_min_stake() == old(self).spec_min_stake(),
            final(self).spec_reward_num() == old(self).spec_reward_num(),
            final(self).spec_reward_den() == old(self).spec_reward_den(),
            r is Ok,
            final(self)@ == distribute_spec(
                old(self)@,
                current_height,
                old(self).spec_reward_num(),
                old(self).spec_reward_den(),
            ),
    {
        let ghost e = self@;
        let ghost target = distribute_spec(e, current_height, self.reward_num, self.reward_den);
        let mut updated: Vec<(Vec<u8>, Stake)> = Vec::new();
        let mut i: usize = 0;
        while i < self.entries.len()
            invariant
                0 <= i <= self.entries@.len(),
                self.wf(),
                e == self@,
                target == distribute_spec(e, current_height, self.reward_num, self.reward_den),
                forall|k: int|
                    0 <= k < e.len() ==> current_height >= (#[trigger] e[k]).1.last_reward_height
                        && e[k].1.amount * self.reward_num * (current_height
                        - e[k].1.last_reward_height) <= u128::MAX && e[k].1.amount + reward_of(
                        e[k].1,
                        current_height,
                        self.reward_num,
                        self.reward_den,
                    ) <= u128::MAX,
                total_of(target) <= u128::MAX,
                entries_view(updated@) =~= target.take(i as int),
            decreases self.entries@.len() - i,
        {
            let key = clone_bytes(&self.entries[i].0);
            let s = self.entries[i].1;
            proof {
                assert(e[i as int].1 == s);
            }
            let blocks = current_height - s.last_reward_height;
            proof {
                lemma_entry_le_total(target, i as int);
                vstd::arithmetic::mul::lemma_mul_nonnegative(
                    s.amount * self.reward_num,
                    blocks as int,
                );
                vstd::arithmetic::div_mod::lemma_div_pos_is_pos(
                    s.amount * self.reward_num * blocks,
                    self.reward_den as int,
                );
                if blocks > 0 {
                    vstd::arithmetic::mul::lemma_mul_inequality(
                        1,
                        blocks as int,
                        s.amount * self.reward_num,
                    );
                    vstd::arithmetic::mul::lemma_mul_is_commutative(
                        blocks as int,
                        s.amount * self.reward_num,
                    );
                }
            }
            let product = if blocks == 0 {
                0
            } else {
                s.amount * (self.reward_num as u128) * (blocks as u128)
            };
            let reward = product / (self.reward_den as u128);
            proof {
                if blocks == 0 {
                    vstd::arithmetic::mul::lemma_mul_basics(s.amount * self.reward_num);
                    vstd::arithmetic::div_mod::lemma_div_of0(self.reward_den as int);
                }
                assert(reward as int == reward_of(s, current_height, self.reward_num,
                    self.reward_den));
            }
            let credited = Stake {
                amount: s.amount + reward,
                staked_at: s.staked_at,
                last_reward_height: current_height,
            };
            proof {
                assert(key@ == target[i as int].0);
                assert(credited.amount as int == e[i as int].1.amount + reward_of(
                    e[i as int].1,
                    current_height,
                    self.reward_num,
                    self.reward_den,
                ));
                assert(credited == target[i as int].1);
            }
            let ghost upd_before = updated@;
            updated.push((key, credited));
            i += 1;
            proof {
                assert(entries_view(updated@) =~= entries_view(upd_before).push(
                    (key@, credited),
                ));
                assert(target.take(i as int) =~= target.take(i as int - 1).push(
                    target[i as int - 1],
                ));
                assert(entries_view(updated@) =~= target.take(i as int));
            }
        }
        proof {
            assert(target.take(e.len() as int) =~= target);
        }
        self.entries = updated;
        proof {
            assert(self@ =~= target);
            assert forall|k: int| 0 <= k < self@.len() implies (#[trigger] self@[k]).1.amount
                >= self.min_stake by {
                assert(e[k].1.amount >= self.min_stake);
                vstd::arithmetic::mul::lemma_mul_nonnegative(
                    e[k].1.amount * self.reward_num,
                    current_height - e[k].1.last_reward_height,
                );
                vstd::arithmetic::div_mod::lemma_div_pos_is_pos(
                    e[k].1.amount * self.reward_num * (current_height
                        - e[k].1.last_reward_height),
                    self.reward_den as int,
                );
                lemma_entry_le_total(target, k);
                assert(self@[k].1.amount >= e[k].1.amount);
            }
            assert forall|p: int, q: int|
                0 <= p < q < self@.len() implies self@[p].0 != self@[q].0 by {
                assert(self@[p].0 == e[p].0 && self@[q].0 == e[q].0);
            }
        }
        Ok(())
    }

    /// The sum of all staked amounts.
    pub fn get_total_staked(&self) -> (r: Result<u128, StakeManagerError>)
        requires
            self.wf(),
        ensures
            r matches Ok(t) && t == total_of(self@),
    {
        let ghost e = self@;
        let mut acc: u128 = 0;
        let mut i: usize = 0;
        while i < self.entries.len()
            invariant
                0 <= i <= self.entries@.len(),
                e == self@,
                total_of(e) <= u128::MAX,
                acc == total_of(e.take(i as int)),
            decreases self.entries@.len() - i,
        {
            proof {
                assert(e.take(i as int + 1).drop_last() =~= e.take(i as int));
                assert(e.take(i as int + 1).last() == e[i as int]);
                lemma_total_take_le(e, i as int + 1);
            }
            acc = acc + self.entries[i].1.amount;
            i += 1;
        }
        proof {
            assert(e.take(e.len() as int) =~= e);
        }
        Ok(acc)
    }

    /// The stored entries, for read-only walks.
    pub fn get_stakes(&self) -> (r: &Vec<(Vec<u8>, Stake)>)
        ensures
            entries_view(r@) == self@,
    {
        &self.entries
    }
}

/// Removing an entry keeps the remaining addresses distinct.
proof fn lemma_remove_keeps_unique(e: StakeEntries, i: int)
    requires
        0 <= i < e.len(),
        forall|p: int, q: int| 0 <= p < q < e.len() ==> e[p].0 != e[q].0,
    ensures
        forall|p: int, q: int| 0 <= p < q < e.remove(i).len() ==> e.remove(i)[p].0 != e.remove(
            i,
        )[q].0,
{
    let u = e.remove(i);
    assert forall|p: int, q: int| 0 <= p < q < u.len() implies u[p].0 != u[q].0 by {
        let p0 = if p < i {
            p
        } else {
            p + 1
        };
        let q0 = if q < i {
            q
        } else {
            q + 1
        };
        assert(u[p] == e[p0] && u[q] == e[q0]);
    }
}

/// After removing the only entry of an address, the address has no stake.
proof fn lemma_lookup_remove_none(e: StakeEntries, a: Seq<u8>, i: int)
    requires
        0 <= i < e.len(),
        e[i].0 == a,
        forall|p: int, q: int| 0 <= p < q < e.len() ==> e[p].0 != e[q].0,
    ensures
        lookup(e.remove(i), a) is None,
{
    lemma_lookup_none_when_absent(e.remove(i), a, i, e);
}

/// An address that appears at no index has no stake.
proof fn lemma_lookup_none_when_absent(u: StakeEntries, a: Seq<u8>, i: int, e: StakeEntries)
    requires
        u == e.remove(i),
        0 <= i < e.len(),
        e[i].0 == a,
        forall|p: int, q: int| 0 <= p < q < e.len() ==> e[p].0 != e[q].0,
    ensures
        lookup(u, a) is None,
{
    assert forall|k: int| 0 <= k < u.len() implies u[k].0 != a by {
        let k0 = if k < i {
            k
        } else {
            k + 1
        };
        assert(u[k] == e[k0]);
    }
    lemma_lookup_all_absent(u, a);
}

/// Unfolds `lookup` over a ledger with no matching address.
proof fn lemma_lookup_all_absent(u: StakeEntries, a: Seq<u8>)
    requires
        forall|k: int| 0 <= k < u.len() ==> u[k].0 != a,
    ensures
        lookup(u, a) is None,
    decreases u.len(),
{
    if u.len() > 0 {
        lemma_lookup_all_absent(u.drop_first(), a);
    }
}

/// Looking up the address of an updated entry finds the update.
proof fn lemma_lookup_update(u: StakeEntries, a: Seq<u8>, i: int)
    requires
        0 <= i < u.len(),
        u[i].0 == a,
        forall|p: int, q: int| 0 <= p < q < u.len() ==> u[p].0 != u[q].0,
    ensures
        lookup(u, a) == Some(u[i].1),
{
    assert forall|j: int| 0 <= j < i implies u[j].0 != a by {}
    lemma_lookup_skip(u, a, i);
    assert(u.skip(i)[0] == u[i]);
}

} // verus!
