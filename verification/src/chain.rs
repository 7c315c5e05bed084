//! The canonical chain store: an append-only sequence of validated blocks,
//! one per height, linked by hash, with per-account nonce tracking.
//!
//! The store's invariant carries the chain's safety properties: every
//! committed block links to its parent by hash with a strictly later
//! timestamp, passes structural validation, carries only authenticated
//! transactions, and every account's committed nonces are exactly
//! 0, 1, 2, ... in chain order.

use vstd::prelude::*;
use crate::block::Block;
use crate::block::BlockView;
use crate::block::block_hash_of;
use crate::block::validate_spec;
use crate::block::wf_header;
use crate::codec::bytes_eq;
use crate::codec::take_range;
use crate::crypto::sha3_bytes;
use crate::crypto::addr_of_pk;
use crate::crypto::sig_valid;
use crate::crypto::verify_sig;
use crate::errors::BlockError;
use crate::errors::ChainError;
use crate::errors::TransactionError;
use crate::transaction::Transaction;
use crate::transaction::TxView;
use crate::transaction::TransactionType;
use crate::transaction::zero_addr;
use crate::transaction::spec_tx_hash;
use crate::transaction::clone_bytes;

verus! {

/// The views of stored blocks.
pub open spec fn blocks_view(s: Seq<Block>) -> Seq<BlockView> {
    Seq::new(s.len(), |i: int| s[i]@)
}

/// Whether a transaction is nonce-tracked: every transaction but the
/// coinbase mint.
pub open spec fn is_tracked(t: TxView) -> bool {
    !(t.from == zero_addr() && t.transaction_type == TransactionType::Transfer)
}

/// A tracked transaction is authenticated: it carries a 64-byte signature
/// that verifies under its embedded public key, and that key denotes the
/// sender address.
pub open spec fn tx_auth_ok(t: TxView) -> bool {
    match t.signature {
        None => false,
        Some(s) => {
            &&& s.len() == 64
            &&& sig_valid(s.take(32), spec_tx_hash(t), s)
            &&& t.from == addr_of_pk(s.take(32))
        },
    }
}

/// The nonces of tracked transactions sent by `a`, in list order.
pub open spec fn txs_nonces(txs: Seq<TxView>, a: Seq<u8>) -> Seq<u64>
    decreases txs.len(),
{
    if txs.len() == 0 {
        Seq::empty()
    } else {
        txs_nonces(txs.drop_last(), a) + (if txs.last().from == a && is_tracked(txs.last()) {
            seq![txs.last().nonce]
        } else {
            Seq::empty()
        })
    }
}

/// The nonces of tracked transactions sent by `a` across the chain.
pub open spec fn chain_nonces(chain: Seq<BlockView>, a: Seq<u8>) -> Seq<u64>
    decreases chain.len(),
{
    if chain.len() == 0 {
        Seq::empty()
    } else {
        chain_nonces(chain.drop_last(), a) + txs_nonces(chain.last().transactions, a)
    }
}

/// The sequence 0, 1, ..., n-1.
pub open spec fn id_seq(n: nat) -> Seq<u64> {
    Seq::new(n, |i: int| i as u64)
}

/// Every block links to its parent by hash and carries a strictly later
/// timestamp.
pub open spec fn chain_linked(chain: Seq<BlockView>) -> bool {
    forall|h: int|
        0 < h < chain.len() ==> (#[trigger] chain[h]).header.prev_block_hash == block_hash_of(
            chain[h - 1].header,
        ) && chain[h].header.timestamp > chain[h - 1].header.timestamp
}

/// Every block passes structural validation and has a well-formed header.
pub open spec fn chain_valid(chain: Seq<BlockView>) -> bool {
    forall|h: int|
        0 <= h < chain.len() ==> validate_spec(#[trigger] chain[h]) == Ok::<(), BlockError>(())
            && wf_header(chain[h].header)
}

/// Every tracked transaction in the chain is authenticated.
pub open spec fn chain_auth(chain: Seq<BlockView>) -> bool {
    forall|h: int, i: int|
        0 <= h < chain.len() && 0 <= i < (#[trigger] chain[h]).transactions.len() && is_tracked(
            #[trigger] chain[h].transactions[i],
        ) ==> tx_auth_ok(chain[h].transactions[i])
}

/// Every account's committed nonces are exactly 0, 1, 2, ...
pub open spec fn chain_nonces_ok(chain: Seq<BlockView>) -> bool {
    forall|a: Seq<u8>| #[trigger]
        chain_nonces(chain, a) == id_seq(chain_nonces(chain, a).len())
}

/// The committed block at height `h`, where there is one.
pub open spec fn committed(chain: Seq<BlockView>, h: int, b: BlockView) -> bool {
    0 <= h < chain.len() && chain[h] == b
}

/// The next nonce recorded for an address, if any.
pub open spec fn nonce_lookup(e: Seq<(Seq<u8>, u64)>, a: Seq<u8>) -> Option<u64>
    decreases e.len(),
{
    if e.len() == 0 {
        None
    } else if e[0].0 == a {
        Some(e[0].1)
    } else {
        nonce_lookup(e.drop_first(), a)
    }
}

/// The count an account table holds for an address.
pub open spec fn acct_count(e: Seq<(Seq<u8>, u64)>, a: Seq<u8>) -> nat {
    match nonce_lookup(e, a) {
        Some(n) => n as nat,
        None => 0,
    }
}

/// The views of the account table.
pub open spec fn accounts_view(s: Seq<(Vec<u8>, u64)>) -> Seq<(Seq<u8>, u64)> {
    Seq::new(s.len(), |i: int| (s[i].0@, s[i].1))
}

pub proof fn lemma_nonce_lookup_skip(e: Seq<(Seq<u8>, u64)>, a: Seq<u8>, i: int)
    requires
        0 <= i <= e.len(),
        forall|j: int| 0 <= j < i ==> e[j].0 != a,
    ensures
        nonce_lookup(e, a) == nonce_lookup(e.skip(i), a),
    decreases i,
{
    if i > 0 {
        assert(e.drop_first().skip(i - 1) =~= e.skip(i));
        lemma_nonce_lookup_skip(e.drop_first(), a, i - 1);
        assert(e.skip(0) =~= e);
    } else {
        assert(e.skip(0) =~= e);
    }
}

/// Finds an address in the account table.
pub fn find_account(accounts: &Vec<(Vec<u8>, u64)>, address: &Vec<u8>) -> (r: Option<usize>)
    ensures
        (r matches Some(i) ==> i < accounts@.len() && accounts_view(accounts@)[i as int].0
            == address@ && nonce_lookup(accounts_view(accounts@), address@) == Some(
            accounts_view(accounts@)[i as int].1,
        )),
        (r is None ==> nonce_lookup(accounts_view(accounts@), address@) is None),
{
    let ghost e = accounts_view(accounts@);
    let mut i: usize = 0;
    while i < accounts.len()
        invariant
            0 <= i <= accounts@.len(),
            e == accounts_view(accounts@),
            forall|j: int| 0 <= j < i ==> e[j].0 != address@,
        decreases accounts@.len() - i,
    {
        if bytes_eq(accounts[i].0.as_slice(), address.as_slice()) {
            proof {
                lemma_nonce_lookup_skip(e, address@, i as int);
                assert(e.skip(i as int)[0] == e[i as int]);
            }
            return Some(i);
        }
        i += 1;
    }
    proof {
        lemma_nonce_lookup_skip(e, address@, e.len() as int);
        assert(e.skip(e.len() as int) =~= Seq::empty());
    }
    None
}

/// Screens one transaction's signature: the exact check the commit path
/// and the mempool apply.
pub fn check_tx_auth(tx: &Transaction) -> (r: Result<(), TransactionError>)
    ensures
        (tx@.signature is None ==> (r matches Err(e) && e == TransactionError::MissingSignature)),
        (tx@.signature is Some ==> if tx_auth_ok(tx@) {
            r is Ok
        } else {
            (r matches Err(e) && e == TransactionError::BadSignature)
        }),
{
    let digest = match tx.hash() {
        Ok(d) => d,
        Err(_) => {
            proof {
                assert(false);
            }
            return Err(TransactionError::SerializationError);
        },
    };
    match &tx.signature {
        None => Err(TransactionError::MissingSignature),
        Some(sig) => {
            if sig.len() != 64 {
                return Err(TransactionError::BadSignature);
            }
            let pk = take_range(sig.as_slice(), 0, 32);
            if !verify_sig(pk.as_slice(), digest.as_slice(), sig.as_slice()) {
                return Err(TransactionError::BadSignature);
            }
            let pk_digest = sha3_bytes(pk.as_slice());
            let derived = take_range(pk_digest.as_slice(), 12, 32);
            if !bytes_eq(derived.as_slice(), tx.from.as_slice()) {
                proof {
                    assert(derived@ =~= addr_of_pk(sig@.take(32)));
                }
                return Err(TransactionError::BadSignature);
            }
            proof {
                assert(derived@ =~= addr_of_pk(sig@.take(32)));
            }
            Ok(())
        },
    }
}

/// Account tables keep one entry per address.
pub open spec fn accounts_unique(e: Seq<(Seq<u8>, u64)>) -> bool {
    forall|p: int, q: int| 0 <= p < q < e.len() ==> e[p].0 != e[q].0
}

/// Looking up any address after an update at `i`: the updated address gets
/// the new value, others are unchanged.
proof fn lemma_lookup_after_update(e: Seq<(Seq<u8>, u64)>, i: int, p: (Seq<u8>, u64), b: Seq<u8>)
    requires
        accounts_unique(e),
        0 <= i < e.len(),
        p.0 == e[i].0,
    ensures
        nonce_lookup(e.update(i, p), b) == (if b == p.0 {
            Some(p.1)
        } else {
            nonce_lookup(e, b)
        }),
    decreases e.len(),
{
    let u = e.update(i, p);
    if i == 0 {
        if b != p.0 {
            assert(u.drop_first() =~= e.drop_first());
        }
    } else {
        assert(u.drop_first() =~= e.drop_first().update(i - 1, p));
        lemma_lookup_after_update(e.drop_first(), i - 1, p, b);
        if b == p.0 {
            assert(e[0].0 != p.0);
        }
    }
}

/// Looking up any address after a push: the new address gets the new
/// value, others are unchanged.
proof fn lemma_lookup_after_push(e: Seq<(Seq<u8>, u64)>, p: (Seq<u8>, u64), b: Seq<u8>)
    requires
        nonce_lookup(e, p.0) is None,
    ensures
        nonce_lookup(e.push(p), b) == (if b == p.0 {
            Some(p.1)
        } else {
            nonce_lookup(e, b)
        }),
    decreases e.len(),
{
    let u = e.push(p);
    if e.len() == 0 {
        assert(u.drop_first() =~= Seq::empty());
    } else {
        assert(u.drop_first() =~= e.drop_first().push(p));
        lemma_lookup_after_push(e.drop_first(), p, b);
    }
}

/// One step of the nonce projection: consuming one more transaction
/// appends its nonce when the sender matches.
pub proof fn lemma_txs_nonces_step(txs: Seq<TxView>, k: int, a: Seq<u8>)
    requires
        0 <= k < txs.len(),
    ensures
        txs_nonces(txs.take(k + 1), a) == txs_nonces(txs.take(k), a) + (if txs[k].from == a
            && is_tracked(txs[k]) {
            seq![txs[k].nonce]
        } else {
            Seq::empty()
        }),
{
    let t1 = txs.take(k + 1);
    assert(t1.drop_last() =~= txs.take(k));
    assert(t1.last() == txs[k]);
}

/// What per-transaction screening yields on the suffix of a block's
/// transactions from position `k` on, given the chain so far: the first
/// missing or bad signature, bad sender address or nonce gap is reported.
pub open spec fn txs_check(chain: Seq<BlockView>, txs: Seq<TxView>, k: int) -> Result<
    (),
    ChainError,
>
    decreases txs.len() - k,
{
    if k < 0 || k >= txs.len() {
        Ok(())
    } else {
        let t = txs[k];
        if !is_tracked(t) {
            txs_check(chain, txs, k + 1)
        } else if t.signature is None {
            Err(ChainError::Transaction(TransactionError::MissingSignature))
        } else if !tx_auth_ok(t) {
            Err(ChainError::Transaction(TransactionError::BadSignature))
        } else if t.nonce as int != chain_nonces(chain, t.from).len() + txs_nonces(
            txs.take(k),
            t.from,
        ).len() || t.nonce == u64::MAX {
            Err(ChainError::Transaction(TransactionError::BadNonce))
        } else {
            txs_check(chain, txs, k + 1)
        }
    }
}

/// Whether some committed block already has this hash.
pub open spec fn chain_contains_hash(chain: Seq<BlockView>, h: Seq<u8>) -> bool {
    exists|i: int| 0 <= i < chain.len() && block_hash_of((#[trigger] chain[i]).header) == h
}

/// What committing a block to the chain yields: a known hash is a no-op,
/// then structural validation, parent linkage, timestamp order and the
/// per-transaction screening, in that order.
pub open spec fn append_result(chain: Seq<BlockView>, b: BlockView) -> Result<(), ChainError> {
    if chain_contains_hash(chain, block_hash_of(b.header)) {
        Ok(())
    } else {
        match validate_spec(b) {
            Err(e) => Err(ChainError::Block(e)),
            Ok(()) => {
                if chain.len() > 0 && b.header.prev_block_hash != block_hash_of(
                    chain.last().header,
                ) {
                    Err(ChainError::Block(BlockError::UnknownParent))
                } else if chain.len() > 0 && b.header.timestamp <= chain.last().header.timestamp {
                    Err(ChainError::Block(BlockError::BadTimestamp))
                } else {
                    txs_check(chain, b.transactions, 0)
                }
            },
        }
    }
}

/// The canonical chain store.
pub struct ChainStore {
    blocks: Vec<Block>,
    hashes: Vec<Vec<u8>>,
    accounts: Vec<(Vec<u8>, u64)>,
}

impl View for ChainStore {
    type V = Seq<BlockView>;

    closed spec fn view(&self) -> Seq<BlockView> {
        blocks_view(self.blocks@)
    }
}

impl ChainStore {
    /// The stored hashes mirror the blocks, the account table mirrors the
    /// committed nonces, and the chain's safety properties hold.
    pub closed spec fn wf(&self) -> bool {
        &&& self.hashes@.len() == self@.len()
        &&& (forall|i: int|
            0 <= i < self@.len() ==> (#[trigger] self.hashes@[i])@ == block_hash_of(
                self@[i].header,
            ) && self.hashes@[i]@.len() == 32)
        &&& accounts_unique(accounts_view(self.accounts@))
        &&& (forall|a: Seq<u8>| #[trigger]
            acct_count(accounts_view(self.accounts@), a) == chain_nonces(self@, a).len())
        &&& chain_linked(self@)
        &&& chain_valid(self@)
        &&& chain_auth(self@)
        &&& chain_nonces_ok(self@)
    }

    /// An empty chain.
    pub fn new() -> (r: ChainStore)
        ensures
            r.wf(),
            r@ == Seq::<BlockView>::empty(),
    {
        let r = ChainStore { blocks: Vec::new(), hashes: Vec::new(), accounts: Vec::new() };
        proof {
            assert(r@ =~= Seq::<BlockView>::empty());
            assert forall|a: Seq<u8>| #[trigger]
                acct_count(accounts_view(r.accounts@), a) == chain_nonces(r@, a).len() by {
                assert(accounts_view(r.accounts@) =~= Seq::<(Seq<u8>, u64)>::empty());
            }
            assert forall|a: Seq<u8>| #[trigger]
                chain_nonces(r@, a) == id_seq(chain_nonces(r@, a).len()) by {
                assert(chain_nonces(r@, a) =~= id_seq(chain_nonces(r@, a).len()));
            }
        }
        r
    }

    /// The number of committed blocks; the next block's height.
    pub fn height(&self) -> (r: u64)
        requires
            self@.len() <= u64::MAX,
        ensures
            r == self@.len(),
    {
        self.blocks.len() as u64
    }

    /// The committed block at a height.
    pub fn get_block(&self, height: usize) -> (r: Option<&Block>)
        ensures
            (r matches Some(b) ==> height < self@.len() && b@ == self@[height as int]),
            (r is None ==> height >= self@.len()),
    {
        if height < self.blocks.len() {
            Some(&self.blocks[height])
        } else {
            None
        }
    }

    /// The tip's hash and the chain's height.
    pub fn head(&self) -> (r: Option<(Vec<u8>, u64)>)
        requires
            self.wf(),
            self@.len() <= u64::MAX,
        ensures
            (r matches Some(p) ==> self@.len() > 0 && p.0@ == block_hash_of(self@.last().header)
                && p.0@.len() == 32 && p.1 == self@.len()),
            (r is None ==> self@.len() == 0),
    {
        if self.blocks.len() == 0 {
            None
        } else {
            let h = clone_bytes(&self.hashes[self.hashes.len() - 1]);
            Some((h, self.blocks.len() as u64))
        }
    }

    /// The next nonce expected from an account.
    pub fn account_nonce(&self, address: &Vec<u8>) -> (r: u64)
        requires
            self.wf(),
        ensures
            r == chain_nonces(self@, address@).len(),
    {
        proof {
            assert(acct_count(accounts_view(self.accounts@), address@) == chain_nonces(
                self@,
                address@,
            ).len());
        }
        match find_account(&self.accounts, address) {
            Some(i) => self.accounts[i].1,
            None => 0,
        }
    }

    /// Commits a block at the next height.  Committing a block whose hash
    /// is already in the chain is a no-op; otherwise the block must
    /// validate, link to the tip with a later timestamp, and carry only
    /// authenticated transactions with consecutive nonces.
    #[verifier::rlimit(100)]
    pub fn append(&mut self, block: Block) -> (r: Result<(), ChainError>)
        requires
            old(self).wf(),
            wf_header(block@.header),
        ensures
            final(self).wf(),
            r == append_result(old(self)@, block@),
            (r is Ok && !chain_contains_hash(old(self)@, block_hash_of(block@.header))
                ==> final(self)@ == old(self)@.push(block@)),
            (r is Ok && chain_contains_hash(old(self)@, block_hash_of(block@.header))
                ==> final(self)@ == old(self)@),
            (r is Err ==> final(self)@ == old(self)@),
    {
        let ghost chain = self@;
        let bh = block.hash();
        let mut i: usize = 0;
        while i < self.hashes.len()
            invariant
                old(self) == self,
                self.wf(),
                chain == self@,
                bh@ == block_hash_of(block@.header),
                0 <= i <= self.hashes@.len(),
                forall|j: int| 0 <= j < i ==> (#[trigger] self.hashes@[j])@ != bh@,
            decreases self.hashes@.len() - i,
        {
            if bytes_eq(self.hashes[i].as_slice(), bh.as_slice()) {
                proof {
                    assert(block_hash_of(self@[i as int].header) == bh@);
                    assert(chain_contains_hash(chain, bh@));
                }
                return Ok(());
            }
            i += 1;
        }
        proof {
            assert forall|j: int| 0 <= j < chain.len() implies block_hash_of(
                (#[trigger] chain[j]).header,
            ) != bh@ by {
                assert(self.hashes@[j]@ == block_hash_of(chain[j].header));
            }
            assert(!chain_contains_hash(chain, bh@));
        }
        match block.validate() {
            Err(e) => {
                return Err(ChainError::Block(e));
            },
            Ok(()) => {},
        }
        if self.blocks.len() > 0 {
            let tip = self.hashes.len() - 1;
            if !bytes_eq(block.header.prev_block_hash.as_slice(), self.hashes[tip].as_slice()) {
                return Err(ChainError::Block(BlockError::UnknownParent));
            }
            let last_ts = self.blocks[self.blocks.len() - 1].header.timestamp;
            if block.header.timestamp <= last_ts {
                return Err(ChainError::Block(BlockError::BadTimestamp));
            }
        }
        let mut scratch = clone_accounts(&self.accounts);
        let ghost txs = block@.transactions;
        let mut k: usize = 0;
        while k < block.transactions.len()
            invariant
                old(self) == self,
                self.wf(),
                chain == self@,
                txs == block@.transactions,
                bh@ == block_hash_of(block@.header),
                0 <= k <= txs.len(),
                accounts_unique(accounts_view(scratch@)),
                !chain_contains_hash(chain, bh@),
                validate_spec(block@) == Ok::<(), BlockError>(()),
                chain.len() > 0 ==> block@.header.prev_block_hash == block_hash_of(
                    chain.last().header,
                ) && block@.header.timestamp > chain.last().header.timestamp,
                forall|a: Seq<u8>| #[trigger]
                    acct_count(accounts_view(scratch@), a) == chain_nonces(chain, a).len()
                        + txs_nonces(txs.take(k as int), a).len(),
                forall|a: Seq<u8>|
                    chain_nonces(chain, a) + #[trigger] txs_nonces(txs.take(k as int), a) == id_seq(
                        (chain_nonces(chain, a).len() + txs_nonces(txs.take(k as int), a).len())
                            as nat,
                    ),
                txs_check(chain, txs, 0) == txs_check(chain, txs, k as int),
                forall|j: int|
                    0 <= j < k && is_tracked(#[trigger] txs[j]) ==> tx_auth_ok(txs[j]),
            decreases txs.len() - k,
        {
            let ghost scr = accounts_view(scratch@);
            let tx = &block.transactions[k];
            proof {
                assert(txs[k as int] == tx@);
            }
            if tx.is_coinbase() {
                proof {
                    assert forall|a: Seq<u8>| #[trigger]
                        txs_nonces(txs.take(k as int + 1), a) == txs_nonces(
                            txs.take(k as int),
                            a,
                        ) by {
                        lemma_txs_nonces_step(txs, k as int, a);
                        assert(txs_nonces(txs.take(k as int), a) + Seq::<u64>::empty()
                            =~= txs_nonces(txs.take(k as int), a));
                    }
                }
                k += 1;
                continue ;
            }
            let digest = match tx.hash() {
                Ok(d) => d,
                Err(_) => {
                    proof {
                        assert(false);
                    }
                    return Err(ChainError::Transaction(TransactionError::SerializationError));
                },
            };
            match &tx.signature {
                None => {
                    return Err(ChainError::Transaction(TransactionError::MissingSignature));
                },
                Some(sig) => {
                    if sig.len() != 64 {
                        return Err(ChainError::Transaction(TransactionError::BadSignature));
                    }
                    let pk = take_range(sig.as_slice(), 0, 32);
                    if !verify_sig(pk.as_slice(), digest.as_slice(), sig.as_slice()) {
                        return Err(ChainError::Transaction(TransactionError::BadSignature));
                    }
                    let pk_digest = sha3_bytes(pk.as_slice());
                    let derived = take_range(pk_digest.as_slice(), 12, 32);
                    if !bytes_eq(derived.as_slice(), tx.from.as_slice()) {
                        proof {
                            assert(derived@ =~= addr_of_pk(sig@.take(32)));
                        }
                        return Err(ChainError::Transaction(TransactionError::BadSignature));
                    }
                    proof {
                        assert(derived@ =~= addr_of_pk(sig@.take(32)));
                        assert(tx_auth_ok(tx@));
                    }
                },
            }
            let expected = match find_account(&scratch, &tx.from) {
                Some(i2) => scratch[i2].1,
                None => 0,
            };
            if tx.nonce != expected || expected == u64::MAX {
                proof {
                    assert(expected as nat == acct_count(scr, tx@.from));
                }
                return Err(ChainError::Transaction(TransactionError::BadNonce));
            }
            bump_account(&mut scratch, &tx.from, expected + 1);
            proof {
                let a0 = tx@.from;
                assert(expected as nat == acct_count(scr, a0));
                assert forall|a: Seq<u8>| #[trigger]
                    acct_count(accounts_view(scratch@), a) == chain_nonces(chain, a).len()
                        + txs_nonces(txs.take(k as int + 1), a).len() by {
                    lemma_txs_nonces_step(txs, k as int, a);
                    assert(acct_count(scr, a) == chain_nonces(chain, a).len() + txs_nonces(
                        txs.take(k as int),
                        a,
                    ).len());
                    assert(nonce_lookup(accounts_view(scratch@), a) == (if a == a0 {
                        Some((expected + 1) as u64)
                    } else {
                        nonce_lookup(scr, a)
                    }));
                    if a == a0 {
                    } else {
                        assert(txs_nonces(txs.take(k as int), a) + Seq::<u64>::empty()
                            =~= txs_nonces(txs.take(k as int), a));
                    }
                }
                assert forall|a: Seq<u8>|
                    chain_nonces(chain, a) + #[trigger] txs_nonces(txs.take(k as int + 1), a)
                        == id_seq(
                        (chain_nonces(chain, a).len() + txs_nonces(txs.take(k as int + 1), a).len())
                            as nat,
                    ) by {
                    lemma_txs_nonces_step(txs, k as int, a);
                    if a == a0 {
                        let before = chain_nonces(chain, a) + txs_nonces(txs.take(k as int), a);
                        assert(chain_nonces(chain, a) + txs_nonces(txs.take(k as int + 1), a)
                            =~= before.push(tx@.nonce));
                        assert(before.push(tx@.nonce) =~= id_seq((before.len() + 1) as nat));
                    } else {
                        assert(txs_nonces(txs.take(k as int), a) + Seq::<u64>::empty()
                            =~= txs_nonces(txs.take(k as int), a));
                    }
                }
            }
            k += 1;
        }
        proof {
            assert(txs.take(txs.len() as int) =~= txs);
        }
        let ghost new_chain = chain.push(block@);
        self.blocks.push(block);
        self.hashes.push(bh);
        self.accounts = scratch;
        proof {
            assert(self@ =~= new_chain);
            assert(new_chain.drop_last() =~= chain);
            assert(new_chain.last() == new_chain[chain.len() as int]);
            assert forall|a: Seq<u8>| #[trigger]
                acct_count(accounts_view(self.accounts@), a) == chain_nonces(self@, a).len() by {
                assert(chain_nonces(new_chain, a) == chain_nonces(chain, a) + txs_nonces(txs, a));
            }
            assert forall|a: Seq<u8>| #[trigger]
                chain_nonces(self@, a) == id_seq(chain_nonces(self@, a).len()) by {
                assert(chain_nonces(new_chain, a) == chain_nonces(chain, a) + txs_nonces(txs, a));
            }
            assert(chain_linked(new_chain));
            assert(chain_valid(new_chain));
            assert forall|h: int, i: int|
                0 <= h < new_chain.len() && 0 <= i < (#[trigger] new_chain[h]).transactions.len()
                    && is_tracked(#[trigger] new_chain[h].transactions[i]) implies tx_auth_ok(
                new_chain[h].transactions[i],
            ) by {
                if h < chain.len() {
                    assert(chain[h] == new_chain[h]);
                } else {
                    assert(new_chain[h].transactions == txs);
                }
            }
        }
        Ok(())
    }
}

/// Copies the account table.
pub fn clone_accounts(accounts: &Vec<(Vec<u8>, u64)>) -> (r: Vec<(Vec<u8>, u64)>)
    ensures
        accounts_view(r@) == accounts_view(accounts@),
{
    let mut r: Vec<(Vec<u8>, u64)> = Vec::new();
    let mut i: usize = 0;
    while i < accounts.len()
        invariant
            0 <= i <= accounts@.len(),
            r@.len() == i,
            forall|j: int|
                0 <= j < i ==> (#[trigger] r@[j]).0@ == accounts@[j].0@ && r@[j].1
                    == accounts@[j].1,
        decreases accounts@.len() - i,
    {
        let key = clone_bytes(&accounts[i].0);
        let n = accounts[i].1;
        r.push((key, n));
        i += 1;
    }
    proof {
        assert(accounts_view(r@) =~= accounts_view(accounts@));
    }
    r
}

/// Records a new next-nonce for an address, keeping other entries as they
/// are.
fn bump_account(accounts: &mut Vec<(Vec<u8>, u64)>, address: &Vec<u8>, next: u64)
    requires
        accounts_unique(accounts_view(old(accounts)@)),
    ensures
        accounts_unique(accounts_view(final(accounts)@)),
        forall|b: Seq<u8>| #[trigger]
            nonce_lookup(accounts_view(final(accounts)@), b) == (if b == address@ {
                Some(next)
            } else {
                nonce_lookup(accounts_view(old(accounts)@), b)
            }),
{
    let ghost e = accounts_view(accounts@);
    match find_account(accounts, address) {
        Some(i) => {
            let pair = accounts.remove(i);
            let key = pair.0;
            accounts.insert(i, (key, next));
            proof {
                assert(accounts_view(accounts@) =~= e.update(i as int, (address@, next)));
                assert forall|p: int, q: int|
                    0 <= p < q < accounts_view(accounts@).len() implies accounts_view(
                    accounts@,
                )[p].0 != accounts_view(accounts@)[q].0 by {
                    assert(e[p].0 == accounts_view(accounts@)[p].0 || (p == i
                        && accounts_view(accounts@)[p].0 == address@));
                    assert(e[q].0 == accounts_view(accounts@)[q].0 || (q == i
                        && accounts_view(accounts@)[q].0 == address@));
                }
                assert forall|b: Seq<u8>| #[trigger]
                    nonce_lookup(accounts_view(accounts@), b) == (if b == address@ {
                        Some(next)
                    } else {
                        nonce_lookup(e, b)
                    }) by {
                    lemma_lookup_after_update(e, i as int, (address@, next), b);
                }
            }
        },
        None => {
            let key = clone_bytes(address);
            accounts.push((key, next));
            proof {
                assert(accounts_view(accounts@) =~= e.push((address@, next)));
                assert forall|b: Seq<u8>| #[trigger]
                    nonce_lookup(accounts_view(accounts@), b) == (if b == address@ {
                        Some(next)
                    } else {
                        nonce_lookup(e, b)
                    }) by {
                    lemma_lookup_after_push(e, (address@, next), b);
                }
                assert forall|p: int, q: int|
                    0 <= p < q < accounts_view(accounts@).len() implies accounts_view(
                    accounts@,
                )[p].0 != accounts_view(accounts@)[q].0 by {
                    let u = accounts_view(accounts@);
                    if q < e.len() {
                        assert(u[p] == e[p] && u[q] == e[q]);
                    } else {
                        assert(u[q].0 == address@);
                        if e[p].0 == address@ {
                            lemma_nonce_lookup_skip(e, address@, p);
                            assert(e.skip(p)[0] == e[p]);
                            assert(false);
                        }
                    }
                }
            }
        },
    }
}

/// What a well-formed store's chain satisfies, exported for callers: the
/// invariants below are otherwise sealed inside the store.
pub proof fn lemma_store_invariants(s: &ChainStore)
    requires
        s.wf(),
    ensures
        chain_linked(s@),
        chain_valid(s@),
        chain_auth(s@),
        chain_nonces_ok(s@),
        forall|a: Seq<u8>| #[trigger] chain_nonces(s@, a).len() <= u64::MAX,
{
    assert forall|a: Seq<u8>| #[trigger] chain_nonces(s@, a).len() <= u64::MAX by {
        assert(acct_count(accounts_view(s.accounts@), a) == chain_nonces(s@, a).len());
    }
}

/// No two committed blocks share a height: the block at each height is
/// unique.
pub proof fn lemma_height_unique(chain: Seq<BlockView>, h: int, b1: BlockView, b2: BlockView)
    requires
        committed(chain, h, b1),
        committed(chain, h, b2),
    ensures
        b1 == b2,
{
}

/// Every committed block above the genesis links to its parent by hash
/// and strictly increases the timestamp.
pub proof fn lemma_parent_links(chain: Seq<BlockView>, h: int, b: BlockView)
    requires
        chain_linked(chain),
        committed(chain, h, b),
        h > 0,
    ensures
        b.header.prev_block_hash == block_hash_of(chain[h - 1].header),
        b.header.timestamp > chain[h - 1].header.timestamp,
{
}

/// Every committed block carries the Merkle root of its transactions and
/// clears its difficulty.
pub proof fn lemma_committed_valid(chain: Seq<BlockView>, h: int, b: BlockView)
    requires
        chain_valid(chain),
        committed(chain, h, b),
    ensures
        b.header.merkle_root == crate::block::merkle_root_spec(b.transactions),
        crate::block::proof_ok(b.header),
{
    assert(validate_spec(b) == Ok::<(), BlockError>(()));
}

/// Every account's committed nonces are strictly increasing from zero:
/// the i-th tracked transaction of an account carries nonce i.
pub proof fn lemma_nonces_strictly_increasing(chain: Seq<BlockView>, a: Seq<u8>)
    requires
        chain_nonces_ok(chain),
        chain_nonces(chain, a).len() <= u64::MAX,
    ensures
        forall|i: int| 0 <= i < chain_nonces(chain, a).len() ==> chain_nonces(chain, a)[i] == i,
        forall|i: int, j: int|
            0 <= i < j < chain_nonces(chain, a).len() ==> chain_nonces(chain, a)[i] < chain_nonces(
                chain,
                a,
            )[j],
        chain_nonces(chain, a).len() > 0 ==> chain_nonces(chain, a)[0] == 0,
{
    assert(chain_nonces(chain, a) == id_seq(chain_nonces(chain, a).len()));
    assert forall|i: int| 0 <= i < chain_nonces(chain, a).len() implies chain_nonces(chain, a)[i]
        == i by {
        assert(id_seq(chain_nonces(chain, a).len())[i] == i as u64);
    }
}

} // verus!
