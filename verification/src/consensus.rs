//! The consensus engine: the registered validator set, deterministic
//! stake-weighted proposer selection, proposal tracking and stake-weighted
//! voting with equivocation slashing, the two-thirds quorum rule, the
//! engine's block-validation path, and fork tracking with the
//! canonical-chain choice.
//!
//! A slashed validator stays in the registered table so the quorum
//! denominator keeps the stake snapshot the height began with, but its
//! votes no longer count and it is absent from the active set.  Double
//! voting and proposing two distinct blocks at one height both slash.

use vstd::prelude::*;
use crate::block::Block;
use crate::block::BlockView;
use crate::block::block_hash_of;
use crate::block::validate_spec;
use crate::block::wf_header;
use crate::chain::blocks_view;
use crate::chain::check_tx_auth;
use crate::chain::is_tracked;
use crate::chain::tx_auth_ok;
use crate::codec::bytes_eq;
use crate::codec::from_be;
use crate::codec::to_be;
use crate::crypto::sha3_of;
use crate::block::block_sig_ok;
use crate::errors::BlockError;
use crate::errors::ChainError;
use crate::errors::ConsensusError;
use crate::errors::TransactionError;
use crate::transaction::TxView;
use crate::transaction::clone_bytes;

verus! {

/// The mathematical value of the engine.
#[verifier::ext_equal]
pub struct EngineView {
    pub validators: Seq<(Seq<u8>, u64)>,
    pub slashed: Seq<Seq<u8>>,
    pub votes: Seq<(u64, Seq<u8>, Seq<u8>)>,
    pub proposals: Seq<(u64, Seq<u8>, Seq<u8>)>,
    pub forks: Seq<Seq<BlockView>>,
}

/// Whether an address is in a list of addresses.
pub open spec fn addr_in(s: Seq<Seq<u8>>, a: Seq<u8>) -> bool {
    exists|i: int| 0 <= i < s.len() && s[i] == a
}

/// The registered weight of an address, if any.
pub open spec fn weight_lookup(vs: Seq<(Seq<u8>, u64)>, a: Seq<u8>) -> Option<u64>
    decreases vs.len(),
{
    if vs.len() == 0 {
        None
    } else if vs[0].0 == a {
        Some(vs[0].1)
    } else {
        weight_lookup(vs.drop_first(), a)
    }
}

/// The total registered stake, slashed validators included: the quorum
/// denominator.
pub open spec fn total_weight(vs: Seq<(Seq<u8>, u64)>) -> nat
    decreases vs.len(),
{
    if vs.len() == 0 {
        0
    } else {
        total_weight(vs.drop_last()) + vs.last().1 as nat
    }
}

/// Whether this voter has a recorded vote for this block at this height.
pub open spec fn has_vote(
    votes: Seq<(u64, Seq<u8>, Seq<u8>)>,
    height: u64,
    hash: Seq<u8>,
    voter: Seq<u8>,
) -> bool {
    exists|i: int|
        0 <= i < votes.len() && (#[trigger] votes[i]).0 == height && votes[i].1 == hash
            && votes[i].2 == voter
}

/// Whether this voter has a recorded vote for a different block at this
/// height.
pub open spec fn has_other_vote(
    votes: Seq<(u64, Seq<u8>, Seq<u8>)>,
    height: u64,
    hash: Seq<u8>,
    voter: Seq<u8>,
) -> bool {
    exists|i: int|
        0 <= i < votes.len() && (#[trigger] votes[i]).0 == height && votes[i].1 != hash
            && votes[i].2 == voter
}

/// The stake voting for a block at a height: each unslashed registered
/// validator with a recorded vote counts once, at its registered weight.
pub open spec fn vote_weight(ev: EngineView, height: u64, hash: Seq<u8>) -> nat {
    vote_weight_from(ev.validators, ev.slashed, ev.votes, height, hash)
}

pub open spec fn vote_weight_from(
    vs: Seq<(Seq<u8>, u64)>,
    slashed: Seq<Seq<u8>>,
    votes: Seq<(u64, Seq<u8>, Seq<u8>)>,
    height: u64,
    hash: Seq<u8>,
) -> nat
    decreases vs.len(),
{
    if vs.len() == 0 {
        0
    } else {
        vote_weight_from(vs.drop_last(), slashed, votes, height, hash) + (if !addr_in(
            slashed,
            vs.last().0,
        ) && has_vote(votes, height, hash, vs.last().0) {
            vs.last().1 as nat
        } else {
            0
        })
    }
}

/// The quorum rule: strictly more than two thirds of the registered
/// stake.
pub open spec fn quorum(ev: EngineView, height: u64, hash: Seq<u8>) -> bool {
    3 * vote_weight(ev, height, hash) > 2 * total_weight(ev.validators)
}

/// A validator is active when it is registered and not slashed.
pub open spec fn is_active(ev: EngineView, a: Seq<u8>) -> bool {
    weight_lookup(ev.validators, a) is Some && !addr_in(ev.slashed, a)
}

/// Byte-lexicographic order on hashes, from index `i` on.
pub open spec fn lex_lt_from(a: Seq<u8>, b: Seq<u8>, i: int) -> bool
    decreases a.len() - i,
{
    if i < 0 || i >= a.len() {
        i < b.len()
    } else if i >= b.len() {
        false
    } else if a[i] != b[i] {
        a[i] < b[i]
    } else {
        lex_lt_from(a, b, i + 1)
    }
}

/// Byte-lexicographic order on hashes.
pub open spec fn lex_lt(a: Seq<u8>, b: Seq<u8>) -> bool {
    lex_lt_from(a, b, 0)
}

/// The hash a fork is named by: its tip's hash.
pub open spec fn tip_hash(fork: Seq<BlockView>) -> Seq<u8> {
    block_hash_of(fork.last().header)
}

/// The stake that has voted for a fork's blocks, height by height: the
/// block at position k stands at height k + 1.
pub open spec fn fork_weight(
    vs: Seq<(Seq<u8>, u64)>,
    slashed: Seq<Seq<u8>>,
    votes: Seq<(u64, Seq<u8>, Seq<u8>)>,
    fork: Seq<BlockView>,
) -> nat
    decreases fork.len(),
{
    if fork.len() == 0 {
        0
    } else {
        fork_weight(vs, slashed, votes, fork.drop_last()) + vote_weight_from(
            vs,
            slashed,
            votes,
            fork.len() as u64,
            block_hash_of(fork.last().header),
        )
    }
}

/// The fork-choice order: greater height first, ties to the greater
/// cumulative vote weight, further ties to the lower tip hash.
pub open spec fn better_fork(ev: EngineView, f1: Seq<BlockView>, f2: Seq<BlockView>) -> bool {
    ||| f1.len() > f2.len()
    ||| (f1.len() == f2.len() && fork_weight(ev.validators, ev.slashed, ev.votes, f1)
        > fork_weight(ev.validators, ev.slashed, ev.votes, f2))
    ||| (f1.len() == f2.len() && fork_weight(ev.validators, ev.slashed, ev.votes, f1)
        == fork_weight(ev.validators, ev.slashed, ev.votes, f2) && lex_lt(
        tip_hash(f1),
        tip_hash(f2),
    ))
}

fn lex_lt_rec(a: &[u8], b: &[u8], i: usize) -> (r: bool)
    requires
        i <= a@.len(),
        i <= b@.len(),
    ensures
        r == lex_lt_from(a@, b@, i as int),
    decreases a@.len() - i,
{
    if i == a.len() {
        i < b.len()
    } else if i == b.len() {
        false
    } else if a[i] != b[i] {
        a[i] < b[i]
    } else {
        lex_lt_rec(a, b, i + 1)
    }
}

/// The lexicographic order is irreflexive.
pub proof fn lemma_lex_lt_irrefl(a: Seq<u8>, i: int)
    requires
        0 <= i,
    ensures
        !lex_lt_from(a, a, i),
    decreases a.len() - i,
{
    if i < a.len() {
        lemma_lex_lt_irrefl(a, i + 1);
    }
}

/// The lexicographic order is transitive.
pub proof fn lemma_lex_lt_trans(a: Seq<u8>, b: Seq<u8>, c: Seq<u8>, i: int)
    requires
        0 <= i,
        lex_lt_from(a, b, i),
        lex_lt_from(b, c, i),
    ensures
        lex_lt_from(a, c, i),
    decreases a.len() - i,
{
    if i < a.len() && i < b.len() && i < c.len() && a[i] == b[i] && b[i] == c[i] {
        lemma_lex_lt_trans(a, b, c, i + 1);
    }
}

/// Compares two hashes byte-lexicographically.
pub fn bytes_lt(a: &[u8], b: &[u8]) -> (r: bool)
    ensures
        r == lex_lt(a@, b@),
{
    lex_lt_rec(a, b, 0)
}

/// The consensus engine.
pub struct ConsensusEngine {
    pub validators: Vec<(Vec<u8>, u64)>,
    pub slashed: Vec<Vec<u8>>,
    pub votes: Vec<(u64, Vec<u8>, Vec<u8>)>,
    pub proposals: Vec<(u64, Vec<u8>, Vec<u8>)>,
    pub forks: Vec<Vec<Block>>,
}

/// The views of the validator table.
pub open spec fn validators_view(s: Seq<(Vec<u8>, u64)>) -> Seq<(Seq<u8>, u64)> {
    Seq::new(s.len(), |i: int| (s[i].0@, s[i].1))
}

/// The views of the slashed list.
pub open spec fn slashed_view(s: Seq<Vec<u8>>) -> Seq<Seq<u8>> {
    Seq::new(s.len(), |i: int| s[i]@)
}

/// The views of the vote table.
pub open spec fn votes_view(s: Seq<(u64, Vec<u8>, Vec<u8>)>) -> Seq<(u64, Seq<u8>, Seq<u8>)> {
    Seq::new(s.len(), |i: int| (s[i].0, s[i].1@, s[i].2@))
}

/// The views of the fork table.
pub open spec fn forks_view(s: Seq<Vec<Block>>) -> Seq<Seq<BlockView>> {
    Seq::new(s.len(), |i: int| blocks_view(s[i]@))
}

impl View for ConsensusEngine {
    type V = EngineView;

    open spec fn view(&self) -> EngineView {
        EngineView {
            validators: validators_view(self.validators@),
            slashed: slashed_view(self.slashed@),
            votes: votes_view(self.votes@),
            proposals: votes_view(self.proposals@),
            forks: forks_view(self.forks@),
        }
    }
}

/// Whether an address stands in the slashed list.
fn addr_in_exec(list: &Vec<Vec<u8>>, address: &Vec<u8>) -> (r: bool)
    ensures
        r == addr_in(slashed_view(list@), address@),
{
    let ghost s = slashed_view(list@);
    let mut i: usize = 0;
    while i < list.len()
        invariant
            0 <= i <= list@.len(),
            s == slashed_view(list@),
            forall|j: int| 0 <= j < i ==> s[j] != address@,
        decreases list@.len() - i,
    {
        if bytes_eq(list[i].as_slice(), address.as_slice()) {
            proof {
                assert(s[i as int] == address@);
            }
            return true;
        }
        i += 1;
    }
    false
}

/// Finds a validator's index in the registered table.
fn find_validator(validators: &Vec<(Vec<u8>, u64)>, address: &Vec<u8>) -> (r: Option<usize>)
    ensures
        (r matches Some(i) ==> i < validators@.len() && validators_view(validators@)[i as int].0
            == address@ && weight_lookup(validators_view(validators@), address@) == Some(
            validators_view(validators@)[i as int].1,
        )),
        (r is None ==> weight_lookup(validators_view(validators@), address@) is None),
{
    let ghost e = validators_view(validators@);
    let mut i: usize = 0;
    while i < validators.len()
        invariant
            0 <= i <= validators@.len(),
            e == validators_view(validators@),
            forall|j: int| 0 <= j < i ==> e[j].0 != address@,
        decreases validators@.len() - i,
    {
        if bytes_eq(validators[i].0.as_slice(), address.as_slice()) {
            proof {
                lemma_weight_lookup_skip(e, address@, i as int);
                assert(e.skip(i as int)[0] == e[i as int]);
            }
            return Some(i);
        }
        i += 1;
    }
    proof {
        lemma_weight_lookup_skip(e, address@, e.len() as int);
        assert(e.skip(e.len() as int) =~= Seq::empty());
    }
    None
}

pub proof fn lemma_weight_lookup_skip(vs: Seq<(Seq<u8>, u64)>, a: Seq<u8>, i: int)
    requires
        0 <= i <= vs.len(),
        forall|j: int| 0 <= j < i ==> vs[j].0 != a,
    ensures
        weight_lookup(vs, a) == weight_lookup(vs.skip(i), a),
    decreases i,
{
    if i > 0 {
        assert(vs.drop_first().skip(i - 1) =~= vs.skip(i));
        lemma_weight_lookup_skip(vs.drop_first(), a, i - 1);
        assert(vs.skip(0) =~= vs);
    } else {
        assert(vs.skip(0) =~= vs);
    }
}

/// Whether this (height, hash, voter) vote is recorded.
fn has_vote_exec(votes: &Vec<(u64, Vec<u8>, Vec<u8>)>, height: u64, hash: &Vec<u8>, voter: &Vec<
    u8,
>) -> (r: bool)
    ensures
        r == has_vote(votes_view(votes@), height, hash@, voter@),
{
    let ghost vv = votes_view(votes@);
    let mut i: usize = 0;
    while i < votes.len()
        invariant
            0 <= i <= votes@.len(),
            vv == votes_view(votes@),
            forall|j: int|
                0 <= j < i ==> !((#[trigger] vv[j]).0 == height && vv[j].1 == hash@ && vv[j].2
                    == voter@),
        decreases votes@.len() - i,
    {
        if votes[i].0 == height && bytes_eq(votes[i].1.as_slice(), hash.as_slice()) && bytes_eq(
            votes[i].2.as_slice(),
            voter.as_slice(),
        ) {
            proof {
                assert(vv[i as int].0 == height && vv[i as int].1 == hash@ && vv[i as int].2
                    == voter@);
            }
            return true;
        }
        i += 1;
    }
    false
}

/// Whether this voter voted for a different block at this height.
fn has_other_vote_exec(
    votes: &Vec<(u64, Vec<u8>, Vec<u8>)>,
    height: u64,
    hash: &Vec<u8>,
    voter: &Vec<u8>,
) -> (r: bool)
    ensures
        r == has_other_vote(votes_view(votes@), height, hash@, voter@),
{
    let ghost vv = votes_view(votes@);
    let mut i: usize = 0;
    while i < votes.len()
        invariant
            0 <= i <= votes@.len(),
            vv == votes_view(votes@),
            forall|j: int|
                0 <= j < i ==> !((#[trigger] vv[j]).0 == height && vv[j].1 != hash@ && vv[j].2
                    == voter@),
        decreases votes@.len() - i,
    {
        if votes[i].0 == height && bytes_eq(votes[i].2.as_slice(), voter.as_slice()) && !bytes_eq(
            votes[i].1.as_slice(),
            hash.as_slice(),
        ) {
            proof {
                assert(vv[i as int].0 == height && vv[i as int].1 != hash@ && vv[i as int].2
                    == voter@);
            }
            return true;
        }
        i += 1;
    }
    false
}

impl ConsensusEngine {
    /// The registered total fits the weight type, and every tracked fork
    /// is nonempty with well-formed headers.
    pub open spec fn wf(&self) -> bool {
        &&& total_weight(self@.validators) <= u64::MAX
        &&& (forall|i: int| 0 <= i < self@.forks.len() ==> (#[trigger] self@.forks[i]).len() > 0)
        &&& (forall|i: int, j: int|
            0 <= i < self@.forks.len() && 0 <= j < self@.forks[i].len() ==> wf_header(
                (#[trigger] self@.forks[i][j]).header,
            ))
    }

    /// An engine with no validators, votes or forks.
    pub fn new() -> (r: ConsensusEngine)
        ensures
            r.wf(),
            r@.validators == Seq::<(Seq<u8>, u64)>::empty(),
            r@.slashed == Seq::<Seq<u8>>::empty(),
            r@.votes == Seq::<(u64, Seq<u8>, Seq<u8>)>::empty(),
            r@.proposals == Seq::<(u64, Seq<u8>, Seq<u8>)>::empty(),
            r@.forks == Seq::<Seq<BlockView>>::empty(),
    {
        let r = ConsensusEngine {
            validators: Vec::new(),
            slashed: Vec::new(),
            votes: Vec::new(),
            proposals: Vec::new(),
            forks: Vec::new(),
        };
        proof {
            assert(r@.validators =~= Seq::<(Seq<u8>, u64)>::empty());
            assert(r@.slashed =~= Seq::<Seq<u8>>::empty());
            assert(r@.votes =~= Seq::<(u64, Seq<u8>, Seq<u8>)>::empty());
            assert(r@.proposals =~= Seq::<(u64, Seq<u8>, Seq<u8>)>::empty());
            assert(r@.forks =~= Seq::<Seq<BlockView>>::empty());
        }
        r
    }

    /// Registers a validator with its stake; a fresh address is appended,
    /// a known one keeps its place and has the stake added.
    pub fn register_validator(&mut self, address: Vec<u8>, stake: u64) -> (r: Result<
        (),
        ConsensusError,
    >)
        requires
            old(self).wf(),
            total_weight(old(self)@.validators) + stake <= u64::MAX,
        ensures
            final(self).wf(),
            r is Ok,
            final(self)@.slashed == old(self)@.slashed,
            final(self)@.votes == old(self)@.votes,
            final(self)@.proposals == old(self)@.proposals,
            final(self)@.forks == old(self)@.forks,
            total_weight(final(self)@.validators) == total_weight(old(self)@.validators) + stake,
            (weight_lookup(old(self)@.validators, address@) is None ==> final(self)@.validators
                == old(self)@.validators.push((address@, stake))),
            (weight_lookup(old(self)@.validators, address@) matches Some(w) ==> exists|i: int|
                0 <= i < old(self)@.validators.len() && old(self)@.validators[i].0 == address@
                    && final(self)@.validators == old(self)@.validators.update(
                    i,
                    (address@, (w + stake) as u64),
                )),
    {
        let ghost vs = self@.validators;
        match find_validator(&self.validators, &address) {
            Some(i) => {
                proof {
                    lemma_weight_le_total(vs, i as int);
                    lemma_weight_total_update(vs, i as int, (address@, 0u64));
                }
                let pair = self.validators.remove(i);
                let merged = pair.1 + stake;
                self.validators.insert(i, (address, merged));
                proof {
                    assert(self@.validators =~= vs.update(i as int, (address@, merged)));
                    lemma_weight_total_update(vs, i as int, (address@, merged));
                    assert(self@.slashed =~= old(self)@.slashed);
                    assert(self@.votes =~= old(self)@.votes);
                    assert(self@.proposals =~= old(self)@.proposals);
                    assert(self@.forks =~= old(self)@.forks);
                }
                Ok(())
            },
            None => {
                self.validators.push((address, stake));
                proof {
                    assert(self@.validators =~= vs.push((address@, stake)));
                    assert(self@.validators.drop_last() =~= vs);
                    assert(self@.slashed =~= old(self)@.slashed);
                    assert(self@.votes =~= old(self)@.votes);
                    assert(self@.proposals =~= old(self)@.proposals);
                    assert(self@.forks =~= old(self)@.forks);
                }
                Ok(())
            },
        }
    }

    /// The addresses of the active validators: registered and not
    /// slashed.
    pub fn get_active_validators(&self) -> (r: Vec<Vec<u8>>)
        ensures
            forall|i: int|
                0 <= i < r@.len() ==> is_active(self@, (#[trigger] r@[i])@),
            forall|i: int|
                0 <= i < self@.validators.len() && !addr_in(
                    self@.slashed,
                    (#[trigger] self@.validators[i]).0,
                ) ==> exists|j: int| 0 <= j < r@.len() && r@[j]@ == self@.validators[i].0,
    {
        let mut r: Vec<Vec<u8>> = Vec::new();
        let mut i: usize = 0;
        while i < self.validators.len()
            invariant
                0 <= i <= self.validators@.len(),
                forall|j: int|
                    0 <= j < r@.len() ==> is_active(self@, (#[trigger] r@[j])@),
                forall|k: int|
                    0 <= k < i && !addr_in(self@.slashed, (#[trigger] self@.validators[k]).0)
                        ==> exists|j: int| 0 <= j < r@.len() && r@[j]@ == self@.validators[k].0,
            decreases self.validators@.len() - i,
        {
            let ghost old_r = r@;
            if !addr_in_exec(&self.slashed, &self.validators[i].0) {
                let a = clone_bytes(&self.validators[i].0);
                r.push(a);
                proof {
                    lemma_weight_lookup_at(self@.validators, i as int);
                }
            }
            proof {
                assert forall|k: int|
                    0 <= k < i + 1 && !addr_in(
                        self@.slashed,
                        (#[trigger] self@.validators[k]).0,
                    ) implies exists|j: int| 0 <= j < r@.len() && r@[j]@ == self@.validators[k].0 by {
                    if k == i {
                        assert(r@[r@.len() - 1]@ == self@.validators[k].0);
                    } else {
                        let j = choose|j: int|
                            0 <= j < old_r.len() && old_r[j]@ == self@.validators[k].0;
                        assert(r@[j]@ == self@.validators[k].0);
                    }
                }
            }
            i += 1;
        }
        r
    }

    /// Casts a vote.  A second vote by the same validator for a different
    /// block at the same height is equivocation: the offender joins the
    /// slashed set, leaves the active set, and the vote is refused.  The
    /// result reports whether the block now holds a quorum.
    pub fn vote(&mut self, voter: Vec<u8>, height: u64, block_hash: Vec<u8>) -> (r: Result<
        bool,
        ConsensusError,
    >)
        requires
            old(self).wf(),
        ensures
            final(self).wf(),
            final(self)@.validators == old(self)@.validators,
            final(self)@.proposals == old(self)@.proposals,
            final(self)@.forks == old(self)@.forks,
            (!is_active(old(self)@, voter@) ==> (r matches Err(e) && e
                == ConsensusError::NotValidator) && final(self)@ == old(self)@),
            (is_active(old(self)@, voter@) && has_other_vote(
                old(self)@.votes,
                height,
                block_hash@,
                voter@,
            ) ==> {
                &&& r matches Err(e) && e == ConsensusError::Equivocation
                &&& final(self)@.slashed == old(self)@.slashed.push(voter@)
                &&& final(self)@.votes == old(self)@.votes
                &&& addr_in(final(self)@.slashed, voter@)
                &&& !is_active(final(self)@, voter@)
            }),
            (is_active(old(self)@, voter@) && !has_other_vote(
                old(self)@.votes,
                height,
                block_hash@,
                voter@,
            ) ==> {
                &&& final(self)@.slashed == old(self)@.slashed
                &&& (has_vote(old(self)@.votes, height, block_hash@, voter@) ==> final(self)@.votes
                    == old(self)@.votes)
                &&& (!has_vote(old(self)@.votes, height, block_hash@, voter@) ==> final(self)@.votes == old(self)@.votes.push((height, block_hash@, voter@)))
                &&& r == Ok::<bool, ConsensusError>(quorum(final(self)@, height, block_hash@))
            }),
    {
        let ghost va = voter@;
        let registered = match find_validator(&self.validators, &voter) {
            Some(_) => true,
            None => false,
        };
        if !registered || addr_in_exec(&self.slashed, &voter) {
            return Err(ConsensusError::NotValidator);
        }
        if has_other_vote_exec(&self.votes, height, &block_hash, &voter) {
            self.slashed.push(voter);
            proof {
                assert(self@.slashed =~= old(self)@.slashed.push(va));
                assert(self@.votes =~= old(self)@.votes);
                assert(self@.validators =~= old(self)@.validators);
                assert(self@.proposals =~= old(self)@.proposals);
                assert(self@.forks =~= old(self)@.forks);
                assert(self@.slashed.last() == va);
            }
            return Err(ConsensusError::Equivocation);
        }
        if !has_vote_exec(&self.votes, height, &block_hash, &voter) {
            let h = clone_bytes(&block_hash);
            self.votes.push((height, h, voter));
            proof {
                assert(self@.votes =~= old(self)@.votes.push((height, block_hash@, va)));
                assert(self@.validators =~= old(self)@.validators);
                assert(self@.slashed =~= old(self)@.slashed);
                assert(self@.proposals =~= old(self)@.proposals);
                assert(self@.forks =~= old(self)@.forks);
            }
        } else {
            proof {
                assert(self@ =~= old(self)@);
            }
        }
        let q = self.is_consensus_reached(height, &block_hash);
        Ok(q)
    }

    /// The stake voting for a block at a height.
    pub fn vote_weight_exec(&self, height: u64, block_hash: &Vec<u8>) -> (r: u64)
        requires
            self.wf(),
        ensures
            r == vote_weight_from(self@.validators, self@.slashed, self@.votes, height, block_hash@),
    {
        let ghost vs = self@.validators;
        let mut acc: u64 = 0;
        let mut i: usize = 0;
        while i < self.validators.len()
            invariant
                0 <= i <= self.validators@.len(),
                vs == self@.validators,
                self.wf(),
                acc == vote_weight_from(
                    vs.take(i as int),
                    self@.slashed,
                    self@.votes,
                    height,
                    block_hash@,
                ),
            decreases self.validators@.len() - i,
        {
            proof {
                assert(vs.take(i as int + 1).drop_last() =~= vs.take(i as int));
                assert(vs.take(i as int + 1).last() == vs[i as int]);
                lemma_vote_weight_le_total(vs, i as int + 1, self@.slashed, self@.votes, height,
                    block_hash@);
                lemma_weight_total_take_le(vs, i as int + 1);
            }
            let slashed_here = addr_in_exec(&self.slashed, &self.validators[i].0);
            let voted = has_vote_exec(&self.votes, height, block_hash, &self.validators[i].0);
            if !slashed_here && voted {
                acc = acc + self.validators[i].1;
            }
            i += 1;
        }
        proof {
            assert(vs.take(vs.len() as int) =~= vs);
        }
        acc
    }

    /// Whether the block holds votes of more than two thirds of the
    /// registered stake.
    pub fn is_consensus_reached(&self, height: u64, block_hash: &Vec<u8>) -> (r: bool)
        requires
            self.wf(),
        ensures
            r == quorum(self@, height, block_hash@),
    {
        let acc = self.vote_weight_exec(height, block_hash);
        let total = self.total_weight_exec();
        (3u128 * (acc as u128)) > (2u128 * (total as u128))
    }

    /// The stake that has voted for a fork's blocks, summed height by
    /// height.
    #[verifier::loop_isolation(false)]
    pub fn fork_weight_exec(&self, f: usize) -> (r: u128)
        requires
            self.wf(),
            f < self@.forks.len(),
        ensures
            r == fork_weight(self@.validators, self@.slashed, self@.votes, self@.forks[f as int]),
    {
        let ghost vs = self@.validators;
        let ghost fv = self@.forks[f as int];
        let ghost big: int = 0xFFFF_FFFF_FFFF_FFFF;
        let mut acc: u128 = 0;
        let mut k: usize = 0;
        proof {
            assert(fv.take(0) =~= Seq::<BlockView>::empty());
        }
        while k < self.forks[f].len()
            invariant
                0 <= k <= fv.len(),
                acc == fork_weight(vs, self@.slashed, self@.votes, fv.take(k as int)),
                acc <= k * big,
            decreases fv.len() - k,
        {
            proof {
                assert(self@.forks[f as int].len() > 0);
                assert(wf_header(self@.forks[f as int][k as int].header));
            }
            let h = self.forks[f][k].hash();
            let w = self.vote_weight_exec((k + 1) as u64, &h);
            proof {
                assert(fv.take(k as int + 1).drop_last() =~= fv.take(k as int));
                assert(fv.take(k as int + 1).last() == fv[k as int]);
                assert(fv.take(k as int + 1).len() == k + 1);
                lemma_vote_weight_le_total(vs, vs.len() as int, self@.slashed, self@.votes,
                    (k + 1) as u64, h@);
                assert(vs.take(vs.len() as int) =~= vs);
                vstd::arithmetic::mul::lemma_mul_is_distributive_add_other_way(
                    big,
                    k as int,
                    1,
                );
                vstd::arithmetic::mul::lemma_mul_basics(big);
                vstd::arithmetic::mul::lemma_mul_upper_bound(
                    k as int + 1,
                    0x1_0000_0000_0000_0000,
                    big,
                    big,
                );
            }
            acc = acc + (w as u128);
            k += 1;
        }
        proof {
            assert(fv.take(fv.len() as int) =~= fv);
        }
        acc
    }

    /// The registered total stake.
    pub fn total_weight_exec(&self) -> (r: u64)
        requires
            self.wf(),
        ensures
            r == total_weight(self@.validators),
    {
        let ghost vs = self@.validators;
        let mut acc: u64 = 0;
        let mut i: usize = 0;
        while i < self.validators.len()
            invariant
                0 <= i <= self.validators@.len(),
                vs == self@.validators,
                self.wf(),
                acc == total_weight(vs.take(i as int)),
            decreases self.validators@.len() - i,
        {
            proof {
                assert(vs.take(i as int + 1).drop_last() =~= vs.take(i as int));
                assert(vs.take(i as int + 1).last() == vs[i as int]);
                lemma_weight_total_take_le(vs, i as int + 1);
            }
            acc = acc + self.validators[i].1;
            i += 1;
        }
        proof {
            assert(vs.take(vs.len() as int) =~= vs);
        }
        acc
    }

    /// Tracks a block on the fork it extends: the first fork whose tip is
    /// the block's parent, or a new fork when none matches.
    pub fn add_block(&mut self, block: Block) -> (r: Result<(), BlockError>)
        requires
            old(self).wf(),
            wf_header(block@.header),
        ensures
            final(self).wf(),
            final(self)@.validators == old(self)@.validators,
            final(self)@.slashed == old(self)@.slashed,
            final(self)@.votes == old(self)@.votes,
            final(self)@.proposals == old(self)@.proposals,
            (r matches Err(e) ==> validate_spec(block@) == Err::<(), BlockError>(e) && final(self)@ == old(self)@),
            (r is Ok ==> validate_spec(block@) is Ok),
            (r is Ok && (exists|i: int|
                0 <= i < old(self)@.forks.len() && (#[trigger] old(self)@.forks[i]).len() > 0
                    && tip_hash(old(self)@.forks[i]) == block@.header.prev_block_hash) ==> exists|
                i: int,
            |
                {
                    &&& 0 <= i < old(self)@.forks.len()
                    &&& old(self)@.forks[i].len() > 0
                    &&& tip_hash(old(self)@.forks[i]) == block@.header.prev_block_hash
                    &&& (forall|j: int|
                        0 <= j < i ==> !((#[trigger] old(self)@.forks[j]).len() > 0 && tip_hash(
                            old(self)@.forks[j],
                        ) == block@.header.prev_block_hash))
                    &&& final(self)@.forks == old(self)@.forks.update(
                        i,
                        old(self)@.forks[i].push(block@),
                    )
                }),
            (r is Ok && !(exists|i: int|
                0 <= i < old(self)@.forks.len() && (#[trigger] old(self)@.forks[i]).len() > 0
                    && tip_hash(old(self)@.forks[i]) == block@.header.prev_block_hash) ==> final(self)@.forks == old(self)@.forks.push(seq![block@])),
    {
        match block.validate() {
            Err(e) => {
                return Err(e);
            },
            Ok(()) => {},
        }
        let ghost fv = self@.forks;
        let mut i: usize = 0;
        while i < self.forks.len()
            invariant
                old(self) == self,
                self.wf(),
                fv == self@.forks,
                wf_header(block@.header),
                0 <= i <= self.forks@.len(),
                validate_spec(block@) is Ok,
                forall|j: int|
                    0 <= j < i ==> !((#[trigger] fv[j]).len() > 0 && tip_hash(fv[j])
                        == block@.header.prev_block_hash),
            decreases self.forks@.len() - i,
        {
            if self.forks[i].len() > 0 {
                let last = self.forks[i].len() - 1;
                proof {
                    assert(self@.forks[i as int].len() > 0);
                    assert(wf_header(self@.forks[i as int][last as int].header));
                }
                let th = self.forks[i][last].hash();
                if bytes_eq(th.as_slice(), block.header.prev_block_hash.as_slice()) {
                    let ghost bv = block@;
                    proof {
                        assert(fv[i as int].len() > 0 && tip_hash(fv[i as int])
                            == bv.header.prev_block_hash);
                    }
                    let mut fork = self.forks.remove(i);
                    fork.push(block);
                    self.forks.insert(i, fork);
                    proof {
                        assert(blocks_view(self.forks@[i as int]@) =~= fv[i as int].push(bv));
                        assert(self@.forks =~= fv.update(i as int, fv[i as int].push(bv)));
                        assert(self@.validators =~= old(self)@.validators);
                        assert(self@.slashed =~= old(self)@.slashed);
                        assert(self@.votes =~= old(self)@.votes);
                        assert(self@.proposals =~= old(self)@.proposals);
                        assert forall|p: int, q: int|
                            0 <= p < self@.forks.len() && 0 <= q < self@.forks[p].len() implies wf_header(
                            (#[trigger] self@.forks[p][q]).header,
                        ) by {
                            if p == i && q == fv[i as int].len() {
                            } else {
                                assert(self@.forks[p][q] == fv[p][q]);
                            }
                        }
                    }
                    return Ok(());
                }
            }
            i += 1;
        }
        let ghost bv = block@;
        let mut fresh: Vec<Block> = Vec::new();
        fresh.push(block);
        self.forks.push(fresh);
        proof {
            assert(blocks_view(self.forks@.last()@) =~= seq![bv]);
            assert(self@.forks =~= fv.push(seq![bv]));
            assert(self@.validators =~= old(self)@.validators);
            assert(self@.slashed =~= old(self)@.slashed);
            assert(self@.votes =~= old(self)@.votes);
            assert(self@.proposals =~= old(self)@.proposals);
            assert forall|p: int, q: int|
                0 <= p < self@.forks.len() && 0 <= q < self@.forks[p].len() implies wf_header(
                (#[trigger] self@.forks[p][q]).header,
            ) by {
                if p < fv.len() {
                    assert(self@.forks[p][q] == fv[p][q]);
                } else {
                    assert(self@.forks[p][q] == bv);
                }
            }
        }
        Ok(())
    }

    /// The canonical chain: the first fork no other beats under the
    /// fork-choice order.
    pub fn get_canonical_chain(&self) -> (r: Option<&Vec<Block>>)
        requires
            self.wf(),
        ensures
            (r is None ==> self@.forks.len() == 0),
            (r matches Some(f) ==> exists|i: int|
                {
                    &&& 0 <= i < self@.forks.len()
                    &&& blocks_view(f@) == self@.forks[i]
                    &&& (forall|j: int|
                        0 <= j < self@.forks.len() ==> !better_fork(
                            self@,
                            #[trigger] self@.forks[j],
                            self@.forks[i],
                        ))
                }),
    {
        if self.forks.len() == 0 {
            return None;
        }
        proof {
            lemma_lex_lt_irrefl(tip_hash(self@.forks[0]), 0);
        }
        let mut best: usize = 0;
        let mut i: usize = 1;
        while i < self.forks.len()
            invariant
                self.wf(),
                self.forks@.len() > 0,
                0 <= best < i <= self.forks@.len(),
                forall|j: int|
                    0 <= j < i ==> !better_fork(
                        self@,
                        #[trigger] self@.forks[j],
                        self@.forks[best as int],
                    ),
            decreases self.forks@.len() - i,
        {
            proof {
                assert(self@.forks[i as int].len() > 0);
                assert(self@.forks[best as int].len() > 0);
                assert(wf_header(self@.forks[i as int][self@.forks[i as int].len() - 1].header));
                assert(wf_header(
                    self@.forks[best as int][self@.forks[best as int].len() - 1].header,
                ));
            }
            let cand_last = self.forks[i].len() - 1;
            let best_last = self.forks[best].len() - 1;
            let better = if self.forks[i].len() > self.forks[best].len() {
                true
            } else if self.forks[i].len() == self.forks[best].len() {
                let wi = self.fork_weight_exec(i);
                let wb = self.fork_weight_exec(best);
                if wi != wb {
                    wi > wb
                } else {
                    let hi = self.forks[i][cand_last].hash();
                    let hb = self.forks[best][best_last].hash();
                    bytes_lt(hi.as_slice(), hb.as_slice())
                }
            } else {
                false
            };
            let ghost ob = best as int;
            if better {
                proof {
                    lemma_lex_lt_irrefl(tip_hash(self@.forks[i as int]), 0);
                    assert forall|j: int|
                        0 <= j < i + 1 implies !better_fork(
                        self@,
                        #[trigger] self@.forks[j],
                        self@.forks[i as int],
                    ) by {
                        if j < i && better_fork(self@, self@.forks[j], self@.forks[i as int]) {
                            if self@.forks[j].len() == self@.forks[i as int].len()
                                && self@.forks[i as int].len() == self@.forks[ob].len()
                                && fork_weight(self@.validators, self@.slashed, self@.votes,
                                self@.forks[j]) == fork_weight(self@.validators, self@.slashed,
                                self@.votes, self@.forks[i as int]) && fork_weight(
                                self@.validators,
                                self@.slashed,
                                self@.votes,
                                self@.forks[i as int],
                            ) == fork_weight(self@.validators, self@.slashed, self@.votes,
                                self@.forks[ob]) {
                                lemma_lex_lt_trans(
                                    tip_hash(self@.forks[j]),
                                    tip_hash(self@.forks[i as int]),
                                    tip_hash(self@.forks[ob]),
                                    0,
                                );
                            }
                            assert(better_fork(self@, self@.forks[j], self@.forks[ob]));
                            assert(false);
                        }
                    }
                }
                best = i;
            } else {
                proof {
                    assert(!better_fork(self@, self@.forks[i as int], self@.forks[best as int]));
                }
            }
            i += 1;
        }
        proof {
            assert(blocks_view(self.forks@[best as int]@) == self@.forks[best as int]);
        }
        Some(&self.forks[best])
    }
}

/// The validator whose cumulative-weight range holds the draw `r`:
/// weights are laid out in registration order and `r` falls in exactly
/// one range when `r` is below the total.
pub open spec fn proposer_index(vs: Seq<(Seq<u8>, u64)>, r: nat) -> int
    decreases vs.len(),
{
    if vs.len() == 0 {
        0
    } else if r < vs[0].1 {
        0
    } else {
        1 + proposer_index(vs.drop_first(), (r - vs[0].1) as nat)
    }
}

/// The draw a height maps to: the first sixteen bytes of the height's
/// digest, reduced modulo the registered total.
pub open spec fn proposer_draw(vs: Seq<(Seq<u8>, u64)>, height: u64) -> nat {
    from_be(sha3_of(to_be(height as nat, 8)).take(16)) % total_weight(vs)
}

/// The total decomposes at the front.
proof fn lemma_total_weight_first(vs: Seq<(Seq<u8>, u64)>)
    requires
        vs.len() > 0,
    ensures
        total_weight(vs) == vs[0].1 + total_weight(vs.drop_first()),
    decreases vs.len(),
{
    reveal_with_fuel(total_weight, 3);
    if vs.len() == 1 {
        assert(vs.drop_first() =~= Seq::<(Seq<u8>, u64)>::empty());
    } else {
        assert(vs.drop_last().drop_first() =~= vs.drop_first().drop_last());
        lemma_total_weight_first(vs.drop_last());
        assert(vs.drop_first().last() == vs.last());
        assert(total_weight(vs.drop_first()) == total_weight(vs.drop_first().drop_last())
            + vs.drop_first().last().1);
    }
}

/// A draw below the total lands inside the table.
proof fn lemma_proposer_index_in_range(vs: Seq<(Seq<u8>, u64)>, r: nat)
    requires
        r < total_weight(vs),
    ensures
        0 <= proposer_index(vs, r) < vs.len(),
    decreases vs.len(),
{
    lemma_total_weight_first(vs);
    if vs.len() > 0 && r >= vs[0].1 {
        lemma_proposer_index_in_range(vs.drop_first(), (r - vs[0].1) as nat);
    }
}

impl ConsensusEngine {
    /// The proposer for a height: deterministic and stake-weighted, the
    /// validator whose cumulative-weight range holds the height's digest
    /// modulo the registered total.  There is none while no stake is
    /// registered.
    pub fn select_proposer(&self, height: u64) -> (r: Option<Vec<u8>>)
        requires
            self.wf(),
        ensures
            (r is None <==> total_weight(self@.validators) == 0),
            (r matches Some(a) ==> total_weight(self@.validators) > 0 && a@
                == self@.validators[proposer_index(
                self@.validators,
                proposer_draw(self@.validators, height),
            )].0),
    {
        let total = self.total_weight_exec();
        if total == 0 {
            return None;
        }
        let ghost vs = self@.validators;
        let height_bytes = crate::codec::nat_to_be(height as u128, 8);
        let digest = crate::crypto::sha3_bytes(height_bytes.as_slice());
        let draw128 = crate::codec::read_be(digest.as_slice(), 0, 16);
        proof {
            assert(digest@.take(16) =~= digest@.subrange(0, 16));
        }
        let mut rem = draw128 % (total as u128);
        let ghost draw0 = rem as nat;
        proof {
            assert(draw0 == proposer_draw(vs, height));
            assert(vs.skip(0) =~= vs);
            lemma_proposer_index_in_range(vs, draw0);
        }
        let mut i: usize = 0;
        while i < self.validators.len()
            invariant
                self.wf(),
                vs == self@.validators,
                draw0 == proposer_draw(vs, height),
                draw0 < total_weight(vs),
                0 <= i <= vs.len(),
                rem < total_weight(vs.skip(i as int)),
                proposer_index(vs, draw0) == i + proposer_index(vs.skip(i as int), rem as nat),
            decreases vs.len() - i,
        {
            let w = self.validators[i].1;
            proof {
                assert(vs.skip(i as int)[0] == vs[i as int]);
                lemma_total_weight_first(vs.skip(i as int));
                assert(vs.skip(i as int).drop_first() =~= vs.skip(i as int + 1));
            }
            if rem < w as u128 {
                proof {
                    assert(proposer_index(vs, draw0) == i);
                    lemma_proposer_index_in_range(vs, draw0);
                }
                return Some(clone_bytes(&self.validators[i].0));
            }
            rem = rem - w as u128;
            i += 1;
        }
        proof {
            assert(vs.skip(vs.len() as int) =~= Seq::<(Seq<u8>, u64)>::empty());
            assert(false);
        }
        None
    }
}

/// Whether an earlier transaction in the block shares this one's
/// (sender, nonce) pair.
pub open spec fn dup_pair(txs: Seq<TxView>, k: int) -> bool {
    exists|j: int|
        0 <= j < k && (#[trigger] txs[j]).from == txs[k].from && txs[j].nonce == txs[k].nonce
}

/// Per-transaction screening of a block's body from position `k` on: a
/// repeated (sender, nonce) pair, a missing or bad signature, or a wrong
/// sender address is reported, coinbase mints excepted from the signature
/// rule.
pub open spec fn txs_screen(txs: Seq<TxView>, k: int) -> Result<(), ChainError>
    decreases txs.len() - k,
{
    if k < 0 || k >= txs.len() {
        Ok(())
    } else if dup_pair(txs, k) {
        Err(ChainError::Transaction(TransactionError::BadNonce))
    } else if !is_tracked(txs[k]) {
        txs_screen(txs, k + 1)
    } else if txs[k].signature is None {
        Err(ChainError::Transaction(TransactionError::MissingSignature))
    } else if !tx_auth_ok(txs[k]) {
        Err(ChainError::Transaction(TransactionError::BadSignature))
    } else {
        txs_screen(txs, k + 1)
    }
}

/// What the engine's validation path yields on a received block:
/// structural validation, then the expected proposer for the height, then
/// the proposer's header signature, then the transaction screening.
pub open spec fn engine_validate_spec(
    vs: Seq<(Seq<u8>, u64)>,
    b: BlockView,
    height: u64,
) -> Result<(), ChainError> {
    match validate_spec(b) {
        Err(e) => Err(ChainError::Block(e)),
        Ok(()) => {
            if total_weight(vs) == 0 {
                Err(ChainError::Block(BlockError::InvalidProposer))
            } else if b.header.proposer != vs[proposer_index(vs, proposer_draw(vs, height))].0 {
                Err(ChainError::Block(BlockError::InvalidProposer))
            } else if !block_sig_ok(b) {
                Err(ChainError::Block(BlockError::InvalidProposer))
            } else {
                txs_screen(b.transactions, 0)
            }
        },
    }
}

impl ConsensusEngine {
    /// Records a proposal.  A second distinct block proposed by the same
    /// validator at one height is equivocation: the offender joins the
    /// slashed set and leaves the active set.
    pub fn record_proposal(&mut self, proposer: Vec<u8>, height: u64, block_hash: Vec<u8>) -> (r:
        Result<(), ConsensusError>)
        requires
            old(self).wf(),
        ensures
            final(self).wf(),
            final(self)@.validators == old(self)@.validators,
            final(self)@.votes == old(self)@.votes,
            final(self)@.forks == old(self)@.forks,
            (!is_active(old(self)@, proposer@) ==> (r matches Err(e) && e
                == ConsensusError::NotValidator) && final(self)@ == old(self)@),
            (is_active(old(self)@, proposer@) && has_other_vote(
                old(self)@.proposals,
                height,
                block_hash@,
                proposer@,
            ) ==> {
                &&& r matches Err(e) && e == ConsensusError::Equivocation
                &&& final(self)@.slashed == old(self)@.slashed.push(proposer@)
                &&& final(self)@.proposals == old(self)@.proposals
                &&& !is_active(final(self)@, proposer@)
            }),
            (is_active(old(self)@, proposer@) && !has_other_vote(
                old(self)@.proposals,
                height,
                block_hash@,
                proposer@,
            ) ==> {
                &&& r is Ok
                &&& final(self)@.slashed == old(self)@.slashed
                &&& (has_vote(old(self)@.proposals, height, block_hash@, proposer@) ==> final(self)@.proposals == old(self)@.proposals)
                &&& (!has_vote(old(self)@.proposals, height, block_hash@, proposer@) ==> final(self)@.proposals == old(self)@.proposals.push((height, block_hash@, proposer@)))
            }),
    {
        let ghost pa = proposer@;
        let registered = match find_validator(&self.validators, &proposer) {
            Some(_) => true,
            None => false,
        };
        if !registered || addr_in_exec(&self.slashed, &proposer) {
            return Err(ConsensusError::NotValidator);
        }
        if has_other_vote_exec(&self.proposals, height, &block_hash, &proposer) {
            self.slashed.push(proposer);
            proof {
                assert(self@.slashed =~= old(self)@.slashed.push(pa));
                assert(self@.votes =~= old(self)@.votes);
                assert(self@.validators =~= old(self)@.validators);
                assert(self@.proposals =~= old(self)@.proposals);
                assert(self@.forks =~= old(self)@.forks);
                assert(self@.slashed.last() == pa);
            }
            return Err(ConsensusError::Equivocation);
        }
        if !has_vote_exec(&self.proposals, height, &block_hash, &proposer) {
            self.proposals.push((height, block_hash, proposer));
            proof {
                assert(self@.proposals =~= old(self)@.proposals.push(
                    (height, self.proposals@.last().1@, pa),
                ));
                assert(self@.validators =~= old(self)@.validators);
                assert(self@.slashed =~= old(self)@.slashed);
                assert(self@.votes =~= old(self)@.votes);
                assert(self@.forks =~= old(self)@.forks);
            }
        } else {
            proof {
                assert(self@ =~= old(self)@);
            }
        }
        Ok(())
    }

    /// The engine's validation path for a received block at a height:
    /// structure, expected proposer, proposer signature, and the
    /// per-transaction screening.
    #[verifier::loop_isolation(false)]
    pub fn validate_block(&self, block: &Block, height: u64) -> (r: Result<(), ChainError>)
        requires
            self.wf(),
            wf_header(block@.header),
        ensures
            r == engine_validate_spec(self@.validators, block@, height),
    {
        match block.validate() {
            Err(e) => {
                return Err(ChainError::Block(e));
            },
            Ok(()) => {},
        }
        let expected = match self.select_proposer(height) {
            None => {
                return Err(ChainError::Block(BlockError::InvalidProposer));
            },
            Some(a) => a,
        };
        if !bytes_eq(expected.as_slice(), block.header.proposer.as_slice()) {
            return Err(ChainError::Block(BlockError::InvalidProposer));
        }
        match &block.signature {
            None => {
                return Err(ChainError::Block(BlockError::InvalidProposer));
            },
            Some(sig) => {
                if sig.len() != 64 {
                    return Err(ChainError::Block(BlockError::InvalidProposer));
                }
                let pk = crate::codec::take_range(sig.as_slice(), 0, 32);
                let digest = block.hash();
                if !crate::crypto::verify_sig(pk.as_slice(), digest.as_slice(), sig.as_slice()) {
                    return Err(ChainError::Block(BlockError::InvalidProposer));
                }
                let pk_digest = crate::crypto::sha3_bytes(pk.as_slice());
                let derived = crate::codec::take_range(pk_digest.as_slice(), 12, 32);
                proof {
                    assert(derived@ =~= crate::crypto::addr_of_pk(sig@.take(32)));
                }
                if !bytes_eq(derived.as_slice(), block.header.proposer.as_slice()) {
                    return Err(ChainError::Block(BlockError::InvalidProposer));
                }
                proof {
                    assert(block_sig_ok(block@));
                }
            },
        }
        let ghost txsv = block@.transactions;
        let mut k: usize = 0;
        while k < block.transactions.len()
            invariant
                0 <= k <= txsv.len(),
                txs_screen(txsv, 0) == txs_screen(txsv, k as int),
            decreases txsv.len() - k,
        {
            let tx = &block.transactions[k];
            proof {
                assert(txsv[k as int] == tx@);
            }
            let mut j: usize = 0;
            while j < k
                invariant
                    0 <= j <= k < txsv.len(),
                    txsv[k as int] == tx@,
                    forall|p: int|
                        0 <= p < j ==> !((#[trigger] txsv[p]).from == txsv[k as int].from
                            && txsv[p].nonce == txsv[k as int].nonce),
                decreases k - j,
            {
                if block.transactions[j].nonce == tx.nonce && bytes_eq(
                    block.transactions[j].from.as_slice(),
                    tx.from.as_slice(),
                ) {
                    proof {
                        assert(txsv[j as int].from == txsv[k as int].from && txsv[j as int].nonce
                            == txsv[k as int].nonce);
                        assert(dup_pair(txsv, k as int));
                    }
                    return Err(ChainError::Transaction(TransactionError::BadNonce));
                }
                j += 1;
            }
            proof {
                assert(!dup_pair(txsv, k as int));
            }
            if !tx.is_coinbase() {
                match check_tx_auth(tx) {
                    Err(e) => {
                        return Err(ChainError::Transaction(e));
                    },
                    Ok(()) => {},
                }
            }
            k += 1;
        }
        proof {
            assert(txs_screen(txsv, txsv.len() as int) is Ok);
        }
        Ok(())
    }
}

/// One validator's weight is at most the registered total.
proof fn lemma_weight_le_total(vs: Seq<(Seq<u8>, u64)>, i: int)
    requires
        0 <= i < vs.len(),
    ensures
        vs[i].1 <= total_weight(vs),
    decreases vs.len(),
{
    if i + 1 == vs.len() {
    } else {
        assert(vs.drop_last()[i] == vs[i]);
        lemma_weight_le_total(vs.drop_last(), i);
    }
}

/// Replacing one validator shifts the total by the change in its weight.
proof fn lemma_weight_total_update(vs: Seq<(Seq<u8>, u64)>, i: int, p: (Seq<u8>, u64))
    requires
        0 <= i < vs.len(),
    ensures
        total_weight(vs.update(i, p)) == total_weight(vs) - vs[i].1 + p.1,
    decreases vs.len(),
{
    let u = vs.update(i, p);
    if i + 1 == vs.len() {
        assert(u.drop_last() =~= vs.drop_last());
        assert(u.last() == p);
    } else {
        assert(u.drop_last() =~= vs.drop_last().update(i, p));
        assert(u.last() == vs.last());
        lemma_weight_total_update(vs.drop_last(), i, p);
    }
}

/// A prefix of the validator table weighs no more than the whole.
proof fn lemma_weight_total_take_le(vs: Seq<(Seq<u8>, u64)>, i: int)
    requires
        0 <= i <= vs.len(),
    ensures
        total_weight(vs.take(i)) <= total_weight(vs),
    decreases vs.len() - i,
{
    if i == vs.len() {
        assert(vs.take(i) =~= vs);
    } else {
        assert(vs.take(i + 1).drop_last() =~= vs.take(i));
        lemma_weight_total_take_le(vs, i + 1);
    }
}

/// The voting stake for a block never exceeds the total of the
/// validators considered.
proof fn lemma_vote_weight_le_total(
    vs: Seq<(Seq<u8>, u64)>,
    i: int,
    slashed: Seq<Seq<u8>>,
    votes: Seq<(u64, Seq<u8>, Seq<u8>)>,
    height: u64,
    hash: Seq<u8>,
)
    requires
        0 <= i <= vs.len(),
    ensures
        vote_weight_from(vs.take(i), slashed, votes, height, hash) <= total_weight(vs.take(i)),
    decreases i,
{
    if i > 0 {
        assert(vs.take(i).drop_last() =~= vs.take(i - 1));
        lemma_vote_weight_le_total(vs, i - 1, slashed, votes, height, hash);
    }
}

/// The weight table pins an entry's lookup when its address is unique up
/// to that point; here used only to witness that a kept validator is
/// registered.
proof fn lemma_weight_lookup_at(vs: Seq<(Seq<u8>, u64)>, i: int)
    requires
        0 <= i < vs.len(),
    ensures
        weight_lookup(vs, vs[i].0) is Some,
    decreases vs.len(),
{
    if vs[0].0 == vs[i].0 {
    } else {
        assert(vs.drop_first()[i - 1] == vs[i]);
        lemma_weight_lookup_at(vs.drop_first(), i - 1);
    }
}

/// A slashed validator is out of the active set: what the slashing path
/// of `vote` establishes, stated on its own.
pub proof fn lemma_slashed_not_active(ev: EngineView, a: Seq<u8>)
    requires
        addr_in(ev.slashed, a),
    ensures
        !is_active(ev, a),
{
}

} // verus!
