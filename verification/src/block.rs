//! Blocks: the header (proposer address included) and its canonical
//! encoding, the SHA3-256 Merkle root over transaction hashes, the
//! leading-zero-bit difficulty predicate, structural validation, and the
//! proposer's signature over the block hash.
//!
//! The block hash is the digest of the canonical header encoding alone, so
//! it depends only on header fields, and signing a block does not change
//! its hash.  The Merkle root pairs hashes left to right, duplicating the
//! last hash of an odd level.

use vstd::prelude::*;
use crate::codec::to_be;
use crate::codec::from_be;
use crate::codec::lemma_to_be_len;
use crate::codec::lemma_from_be_bound;
use crate::codec::lemma_be_round_trip;
use crate::codec::lemma_pow256_vals;
use crate::codec::nat_to_be;
use crate::codec::read_be;
use crate::codec::take_range;
use crate::codec::bytes_eq;
use crate::crypto::sha3_of;
use crate::crypto::sha3_bytes;
use crate::crypto::push_all;
use crate::crypto::now_ts;
use crate::transaction::Transaction;
use crate::transaction::TxView;
use crate::transaction::wf_tx;
use crate::transaction::tx_enc;
use crate::transaction::tx_dec;
use crate::transaction::spec_tx_hash;
use crate::transaction::lemma_tx_round_trip;
use crate::transaction::clone_bytes;
use crate::errors::BlockError;
use vstd::pervasive::unreached;

verus! {

/// The largest number of transactions a block may carry.
pub open spec fn max_transactions() -> nat {
    1000
}

/// The mathematical value of a block header.
#[verifier::ext_equal]
pub struct HeaderView {
    pub version: u32,
    pub prev_block_hash: Seq<u8>,
    pub merkle_root: Seq<u8>,
    pub timestamp: i64,
    pub difficulty: u32,
    pub nonce: u64,
    pub proposer: Seq<u8>,
}

/// The header a block is hashed and linked by.
pub struct BlockHeader {
    pub version: u32,
    pub prev_block_hash: Vec<u8>,
    pub merkle_root: Vec<u8>,
    pub timestamp: i64,
    pub difficulty: u32,
    pub nonce: u64,
    pub proposer: Vec<u8>,
}

impl View for BlockHeader {
    type V = HeaderView;

    open spec fn view(&self) -> HeaderView {
        HeaderView {
            version: self.version,
            prev_block_hash: self.prev_block_hash@,
            merkle_root: self.merkle_root@,
            timestamp: self.timestamp,
            difficulty: self.difficulty,
            nonce: self.nonce,
            proposer: self.proposer@,
        }
    }
}

/// Structural bounds of a well-formed header: 32-byte hashes, a 20-byte
/// proposer address and a non-negative UTC timestamp.
pub open spec fn wf_header(h: HeaderView) -> bool {
    &&& h.prev_block_hash.len() == 32
    &&& h.merkle_root.len() == 32
    &&& h.timestamp >= 0
    &&& h.proposer.len() == 20
}

/// The canonical encoding of a header: 108 bytes in declared field
/// order, the proposer address last.
pub open spec fn header_enc(h: HeaderView) -> Seq<u8> {
    to_be(h.version as nat, 4) + h.prev_block_hash + h.merkle_root + to_be(
        h.timestamp as nat,
        8,
    ) + to_be(h.difficulty as nat, 4) + to_be(h.nonce as nat, 8) + h.proposer
}

/// What canonical header decoding yields, if anything.
pub open spec fn header_dec(s: Seq<u8>) -> Option<HeaderView> {
    if s.len() != 108 {
        None
    } else {
        let ts = from_be(s.subrange(68, 76));
        if ts >= 0x8000_0000_0000_0000 {
            None
        } else {
            Some(HeaderView {
                version: from_be(s.subrange(0, 4)) as u32,
                prev_block_hash: s.subrange(4, 36),
                merkle_root: s.subrange(36, 68),
                timestamp: ts as i64,
                difficulty: from_be(s.subrange(76, 80)) as u32,
                nonce: from_be(s.subrange(80, 88)) as u64,
                proposer: s.subrange(88, 108),
            })
        }
    }
}

pub proof fn lemma_header_enc_len(h: HeaderView)
    requires
        wf_header(h),
    ensures
        header_enc(h).len() == 108,
{
    lemma_to_be_len(h.version as nat, 4);
    lemma_to_be_len(h.timestamp as nat, 8);
    lemma_to_be_len(h.difficulty as nat, 4);
    lemma_to_be_len(h.nonce as nat, 8);
}

/// A well-formed header survives the encode/decode pair.
pub proof fn lemma_header_round_trip(h: HeaderView)
    requires
        wf_header(h),
    ensures
        header_dec(header_enc(h)) == Some(h),
{
    let s = header_enc(h);
    lemma_pow256_vals();
    lemma_header_enc_len(h);
    lemma_to_be_len(h.version as nat, 4);
    lemma_to_be_len(h.timestamp as nat, 8);
    lemma_to_be_len(h.difficulty as nat, 4);
    lemma_be_round_trip(h.version as nat, 4);
    lemma_be_round_trip(h.timestamp as nat, 8);
    lemma_be_round_trip(h.difficulty as nat, 4);
    lemma_be_round_trip(h.nonce as nat, 8);
    assert(s.subrange(0, 4) =~= to_be(h.version as nat, 4));
    assert(s.subrange(4, 36) =~= h.prev_block_hash);
    assert(s.subrange(36, 68) =~= h.merkle_root);
    assert(s.subrange(68, 76) =~= to_be(h.timestamp as nat, 8));
    assert(s.subrange(76, 80) =~= to_be(h.difficulty as nat, 4));
    assert(s.subrange(80, 88) =~= to_be(h.nonce as nat, 8));
    assert(s.subrange(88, 108) =~= h.proposer);
    assert(header_dec(s) matches Some(u) && u =~= h);
}

/// The block hash: the digest of the canonical header encoding.
pub open spec fn block_hash_of(h: HeaderView) -> Seq<u8> {
    sha3_of(header_enc(h))
}

/// Writes the canonical 108-byte header encoding.
pub fn encode_header(h: &BlockHeader) -> (r: Vec<u8>)
    requires
        h.timestamp >= 0,
    ensures
        r@ == header_enc(h@),
{
    let mut r = nat_to_be(h.version as u128, 4);
    push_all(&mut r, h.prev_block_hash.as_slice());
    push_all(&mut r, h.merkle_root.as_slice());
    let ts_bytes = nat_to_be(h.timestamp as u128, 8);
    push_all(&mut r, ts_bytes.as_slice());
    let diff_bytes = nat_to_be(h.difficulty as u128, 4);
    push_all(&mut r, diff_bytes.as_slice());
    let nonce_bytes = nat_to_be(h.nonce as u128, 8);
    push_all(&mut r, nonce_bytes.as_slice());
    push_all(&mut r, h.proposer.as_slice());
    proof {
        assert(r@ =~= header_enc(h@));
    }
    r
}

/// Reads a header back from its canonical encoding.
pub fn decode_header(bytes: &[u8]) -> (r: Option<BlockHeader>)
    ensures
        (r matches Some(h) ==> header_dec(bytes@) == Some(h@)),
        (r is None ==> header_dec(bytes@) is None),
{
    if bytes.len() != 108 {
        return None;
    }
    proof {
        lemma_pow256_vals();
        lemma_from_be_bound(bytes@.subrange(0, 4));
        lemma_from_be_bound(bytes@.subrange(68, 76));
        lemma_from_be_bound(bytes@.subrange(76, 80));
        lemma_from_be_bound(bytes@.subrange(80, 88));
        crate::codec::lemma_pow256_mono(4, 8);
    }
    let ts = read_be(bytes, 68, 76);
    if ts >= 0x8000_0000_0000_0000 {
        return None;
    }
    let h = BlockHeader {
        version: read_be(bytes, 0, 4) as u32,
        prev_block_hash: take_range(bytes, 4, 36),
        merkle_root: take_range(bytes, 36, 68),
        timestamp: ts as i64,
        difficulty: read_be(bytes, 76, 80) as u32,
        nonce: read_be(bytes, 80, 88) as u64,
        proposer: take_range(bytes, 88, 108),
    };
    proof {
        assert(header_dec(bytes@) matches Some(u) && u =~= h@);
    }
    Some(h)
}

/// Leading zero bits of the byte `b`.
pub open spec fn byte_lz(b: u8) -> nat {
    if b >= 128 {
        0
    } else if b >= 64 {
        1
    } else if b >= 32 {
        2
    } else if b >= 16 {
        3
    } else if b >= 8 {
        4
    } else if b >= 4 {
        5
    } else if b >= 2 {
        6
    } else if b >= 1 {
        7
    } else {
        8
    }
}

/// Leading zero bits of `s` counted from index `i` on.
pub open spec fn lz_from(s: Seq<u8>, i: int) -> nat
    decreases s.len() - i,
{
    if i < 0 || i >= s.len() {
        0
    } else if s[i] == 0 {
        8 + lz_from(s, i + 1)
    } else {
        byte_lz(s[i])
    }
}

pub proof fn lemma_lz_from_bound(s: Seq<u8>, i: int)
    requires
        0 <= i <= s.len(),
    ensures
        lz_from(s, i) <= 8 * (s.len() - i),
    decreases s.len() - i,
{
    if i < s.len() {
        lemma_lz_from_bound(s, i + 1);
    }
}

/// Counts the leading zero bits of a digest.
pub fn leading_zero_bits(d: &[u8]) -> (r: u64)
    requires
        d@.len() <= 0x1000,
    ensures
        r == lz_from(d@, 0),
{
    lz_bits_rec(d, 0)
}

fn lz_bits_rec(d: &[u8], i: usize) -> (r: u64)
    requires
        d@.len() <= 0x1000,
        i <= d@.len(),
    ensures
        r == lz_from(d@, i as int),
    decreases d@.len() - i,
{
    proof {
        lemma_lz_from_bound(d@, i as int);
    }
    if i == d.len() {
        0
    } else {
        let b = d[i];
        if b == 0 {
            8 + lz_bits_rec(d, i + 1)
        } else if b >= 128 {
            0
        } else if b >= 64 {
            1
        } else if b >= 32 {
            2
        } else if b >= 16 {
            3
        } else if b >= 8 {
            4
        } else if b >= 4 {
            5
        } else if b >= 2 {
            6
        } else {
            7
        }
    }
}

/// The same header with another nonce.
pub open spec fn with_nonce(h: HeaderView, n: u64) -> HeaderView {
    HeaderView { nonce: n, ..h }
}

/// The difficulty predicate: the header's digest starts with at least
/// `difficulty` zero bits.
pub open spec fn proof_ok(h: HeaderView) -> bool {
    lz_from(block_hash_of(h), 0) >= h.difficulty
}

/// The digest a header's proof-of-work is judged by.
pub struct ProofOfWork {
    pub digest: Vec<u8>,
}

impl ProofOfWork {
    /// The digest has the fixed SHA3-256 width.
    pub open spec fn wf(&self) -> bool {
        self.digest@.len() == 32
    }

    /// Digests a header for the difficulty check.
    pub fn new(header: &BlockHeader) -> (r: ProofOfWork)
        requires
            header.timestamp >= 0,
        ensures
            r.digest@ == block_hash_of(header@),
            r.wf(),
    {
        let enc = encode_header(header);
        ProofOfWork { digest: sha3_bytes(enc.as_slice()) }
    }

    /// Whether the digest clears the given difficulty.
    pub fn is_valid(&self, difficulty: u32) -> (r: bool)
        requires
            self.wf(),
        ensures
            r == (lz_from(self.digest@, 0) >= difficulty),
    {
        let lz = leading_zero_bits(self.digest.as_slice());
        lz >= difficulty as u64
    }
}

/// The hash of each transaction, in order.
pub open spec fn tx_hashes(txs: Seq<TxView>) -> Seq<Seq<u8>> {
    Seq::new(txs.len(), |i: int| spec_tx_hash(txs[i]))
}

/// The all-zero root of an empty transaction list.
pub open spec fn zero32() -> Seq<u8> {
    Seq::new(32, |i: int| 0u8)
}

/// One Merkle level: hashes paired left to right, the last element
/// duplicated when the level has odd arity.
pub open spec fn merkle_level(hs: Seq<Seq<u8>>) -> Seq<Seq<u8>>
    decreases hs.len(),
{
    if hs.len() == 0 {
        Seq::empty()
    } else if hs.len() == 1 {
        seq![sha3_of(hs[0] + hs[0])]
    } else {
        seq![sha3_of(hs[0] + hs[1])] + merkle_level(hs.skip(2))
    }
}

pub proof fn lemma_merkle_level_len(hs: Seq<Seq<u8>>)
    ensures
        merkle_level(hs).len() == (hs.len() + 1) / 2,
    decreases hs.len(),
{
    if hs.len() >= 2 {
        lemma_merkle_level_len(hs.skip(2));
    }
}

/// The Merkle root of a list of hashes.
pub open spec fn merkle_root_of(hs: Seq<Seq<u8>>) -> Seq<u8>
    decreases hs.len(),
    via merkle_root_of_decreases
{
    if hs.len() == 0 {
        zero32()
    } else if hs.len() == 1 {
        hs[0]
    } else {
        merkle_root_of(merkle_level(hs))
    }
}

#[via_fn]
proof fn merkle_root_of_decreases(hs: Seq<Seq<u8>>) {
    if hs.len() >= 2 {
        lemma_merkle_level_len(hs);
    }
}

/// The Merkle root of a block's transactions.
pub open spec fn merkle_root_spec(txs: Seq<TxView>) -> Seq<u8> {
    merkle_root_of(tx_hashes(txs))
}

/// The views of a list of hashes.
pub open spec fn views_of(s: Seq<Vec<u8>>) -> Seq<Seq<u8>> {
    Seq::new(s.len(), |i: int| s[i]@)
}

/// The mathematical value of a block.
#[verifier::ext_equal]
pub struct BlockView {
    pub header: HeaderView,
    pub transactions: Seq<TxView>,
    pub signature: Option<Seq<u8>>,
}

/// The views of a list of transactions.
pub open spec fn txs_view(s: Seq<Transaction>) -> Seq<TxView> {
    Seq::new(s.len(), |i: int| s[i]@)
}

/// A block: a header over an ordered transaction list.
pub struct Block {
    pub header: BlockHeader,
    pub transactions: Vec<Transaction>,
    pub signature: Option<Vec<u8>>,
}

impl View for Block {
    type V = BlockView;

    open spec fn view(&self) -> BlockView {
        BlockView {
            header: self.header@,
            transactions: txs_view(self.transactions@),
            signature: match self.signature {
                Some(s) => Some(s@),
                None => None,
            },
        }
    }
}

/// Structural bounds of a well-formed block.
pub open spec fn wf_block(b: BlockView) -> bool {
    &&& wf_header(b.header)
    &&& b.transactions.len() <= max_transactions()
    &&& (forall|i: int| 0 <= i < b.transactions.len() ==> wf_tx(#[trigger] b.transactions[i]))
    &&& (b.signature matches Some(s) ==> s.len() == 64)
}

/// The outcome of structural validation: transaction bound, Merkle root
/// and difficulty predicate, checked in that order.
pub open spec fn validate_spec(b: BlockView) -> Result<(), BlockError> {
    if b.transactions.len() > max_transactions() {
        Err(BlockError::TooManyTransactions)
    } else if b.header.merkle_root != merkle_root_spec(b.transactions) {
        Err(BlockError::InvalidMerkleRoot)
    } else if !proof_ok(b.header) {
        Err(BlockError::InvalidProof)
    } else {
        Ok(())
    }
}

/// Computes the Merkle root of a transaction list.
pub fn calculate_merkle_root(transactions: &Vec<Transaction>) -> (r: Vec<u8>)
    ensures
        r@ == merkle_root_spec(txs_view(transactions@)),
        r@.len() == 32,
{
    let mut hashes: Vec<Vec<u8>> = Vec::new();
    let mut i: usize = 0;
    while i < transactions.len()
        invariant
            0 <= i <= transactions@.len(),
            hashes@.len() == i,
            views_of(hashes@) =~= tx_hashes(txs_view(transactions@)).take(i as int),
            forall|j: int| 0 <= j < i ==> #[trigger] hashes@[j]@.len() == 32,
        decreases transactions@.len() - i,
    {
        let h = match transactions[i].hash() {
            Ok(h) => h,
            Err(_) => unreached(),
        };
        hashes.push(h);
        i += 1;
        proof {
            assert(views_of(hashes@) =~= tx_hashes(txs_view(transactions@)).take(i as int));
        }
    }
    proof {
        assert(views_of(hashes@) =~= tx_hashes(txs_view(transactions@)));
    }
    if hashes.len() == 0 {
        let mut r: Vec<u8> = Vec::new();
        let mut k: usize = 0;
        while k < 32
            invariant
                0 <= k <= 32,
                r@ =~= Seq::new(k as nat, |j: int| 0u8),
            decreases 32 - k,
        {
            r.push(0);
            k += 1;
            proof {
                assert(r@ =~= Seq::new(k as nat, |j: int| 0u8));
            }
        }
        proof {
            assert(r@ =~= zero32());
        }
        return r;
    }
    while hashes.len() > 1
        invariant
            hashes@.len() >= 1,
            merkle_root_of(views_of(hashes@)) == merkle_root_spec(txs_view(transactions@)),
            forall|j: int| 0 <= j < hashes@.len() ==> #[trigger] hashes@[j]@.len() == 32,
        decreases hashes@.len(),
    {
        let ghost level_in = views_of(hashes@);
        let mut next: Vec<Vec<u8>> = Vec::new();
        let mut j: usize = 0;
        proof {
            assert(level_in.skip(0) =~= level_in);
            assert(views_of(next@) + merkle_level(level_in.skip(0)) =~= merkle_level(level_in));
        }
        while j < hashes.len()
            invariant
                hashes@.len() >= 2,
                0 <= j <= hashes@.len(),
                level_in == views_of(hashes@),
                forall|q: int| 0 <= q < hashes@.len() ==> #[trigger] hashes@[q]@.len() == 32,
                forall|q: int| 0 <= q < next@.len() ==> #[trigger] next@[q]@.len() == 32,
                views_of(next@) + merkle_level(level_in.skip(j as int)) =~= merkle_level(level_in),
            decreases hashes@.len() - j,
        {
            let ghost rest = level_in.skip(j as int);
            let mut buf = clone_bytes(&hashes[j]);
            if j + 1 < hashes.len() {
                push_all(&mut buf, hashes[j + 1].as_slice());
                proof {
                    assert(rest[0] == level_in[j as int]);
                    assert(rest[1] == level_in[j as int + 1]);
                    assert(rest.skip(2) =~= level_in.skip(j as int + 2));
                }
                let parent = sha3_bytes(buf.as_slice());
                next.push(parent);
                j += 2;
            } else {
                let dup = clone_bytes(&hashes[j]);
                push_all(&mut buf, dup.as_slice());
                proof {
                    assert(rest.len() == 1);
                    assert(rest[0] == level_in[j as int]);
                }
                let parent = sha3_bytes(buf.as_slice());
                next.push(parent);
                j += 1;
            }
            proof {
                assert(level_in.skip(hashes@.len() as int) =~= Seq::empty());
                assert(views_of(next@) + merkle_level(level_in.skip(j as int)) =~= merkle_level(
                    level_in,
                ));
            }
        }
        proof {
            assert(level_in.skip(hashes@.len() as int) =~= Seq::empty());
            assert(views_of(next@) =~= views_of(next@) + merkle_level(
                level_in.skip(hashes@.len() as int),
            ));
            assert(views_of(next@) =~= merkle_level(level_in));
            lemma_merkle_level_len(level_in);
        }
        hashes = next;
    }
    let r = match hashes.pop() {
        Some(v) => v,
        None => unreached(),
    };
    proof {
        assert(views_of(hashes@.push(r)).len() == 1);
        assert(views_of(hashes@.push(r))[0] == r@);
        assert(merkle_root_of(views_of(hashes@.push(r))) == r@);
    }
    r
}

/// The block hash depends on header fields alone: two blocks with equal
/// headers hash alike whatever their transactions.
pub proof fn lemma_hash_depends_on_header(b1: BlockView, b2: BlockView)
    requires
        b1.header == b2.header,
    ensures
        block_hash_of(b1.header) == block_hash_of(b2.header),
{
}

/// A proposed block is authenticated: it carries a 64-byte signature
/// over the block hash that verifies under its embedded public key, and
/// that key denotes the header's proposer address.
pub open spec fn block_sig_ok(b: BlockView) -> bool {
    match b.signature {
        None => false,
        Some(s) => {
            &&& s.len() == 64
            &&& crate::crypto::sig_valid(s.take(32), block_hash_of(b.header), s)
            &&& b.header.proposer == crate::crypto::addr_of_pk(s.take(32))
        },
    }
}

/// One transaction in a block body: its encoding, length-prefixed.
pub open spec fn tx_blob(t: TxView) -> Seq<u8> {
    to_be(tx_enc(t).len(), 8) + tx_enc(t)
}

/// The concatenated length-prefixed encodings of a transaction list.
pub open spec fn txs_enc(txs: Seq<TxView>) -> Seq<u8>
    decreases txs.len(),
{
    if txs.len() == 0 {
        Seq::empty()
    } else {
        tx_blob(txs.first()) + txs_enc(txs.drop_first())
    }
}

/// Parses exactly `n` length-prefixed transactions consuming all of `s`.
pub open spec fn txs_dec(s: Seq<u8>, n: nat) -> Option<Seq<TxView>>
    decreases n,
{
    if n == 0 {
        if s.len() == 0 {
            Some(Seq::empty())
        } else {
            None
        }
    } else if s.len() < 8 {
        None
    } else {
        let blob_len = from_be(s.subrange(0, 8)) as int;
        if s.len() < 8 + blob_len {
            None
        } else {
            match tx_dec(s.subrange(8, 8 + blob_len)) {
                None => None,
                Some(t) => match txs_dec(s.subrange(8 + blob_len, s.len() as int), (n - 1) as nat) {
                    None => None,
                    Some(rest) => Some(seq![t] + rest),
                },
            }
        }
    }
}

/// The canonical encoding of a block: header, tagged optional proposer
/// signature, transaction count, then the length-prefixed transactions.
pub open spec fn block_enc(b: BlockView) -> Seq<u8> {
    header_enc(b.header) + crate::transaction::sig_enc(b.signature) + to_be(
        b.transactions.len(),
        8,
    ) + txs_enc(b.transactions)
}

/// What canonical block decoding yields, if anything.
pub open spec fn block_dec(s: Seq<u8>) -> Option<BlockView> {
    if s.len() < 117 {
        None
    } else {
        match header_dec(s.subrange(0, 108)) {
            None => None,
            Some(h) => {
                let flag = s[108];
                if flag == 0 {
                    let n = from_be(s.subrange(109, 117));
                    match txs_dec(s.subrange(117, s.len() as int), n) {
                        None => None,
                        Some(txs) => Some(
                            BlockView { header: h, transactions: txs, signature: None },
                        ),
                    }
                } else if flag == 1 && s.len() >= 181 {
                    let sig = s.subrange(109, 173);
                    let n = from_be(s.subrange(173, 181));
                    match txs_dec(s.subrange(181, s.len() as int), n) {
                        None => None,
                        Some(txs) => Some(
                            BlockView { header: h, transactions: txs, signature: Some(sig) },
                        ),
                    }
                } else {
                    None
                }
            },
        }
    }
}

pub proof fn lemma_tx_enc_len(t: TxView)
    requires
        wf_tx(t),
    ensures
        tx_enc(t).len() == 98 + t.data.len() + (match t.signature {
            Some(s) => s.len(),
            None => 0nat,
        }),
{
    lemma_to_be_len(t.nonce as nat, 8);
    lemma_to_be_len(t.value as nat, 16);
    lemma_to_be_len(t.gas_price as nat, 8);
    lemma_to_be_len(t.gas_limit as nat, 8);
    lemma_to_be_len(t.timestamp as nat, 8);
    lemma_to_be_len(t.data.len(), 8);
}

/// A list of well-formed transactions survives the encode/decode pair.
pub proof fn lemma_txs_round_trip(txs: Seq<TxView>)
    requires
        forall|i: int| 0 <= i < txs.len() ==> wf_tx(#[trigger] txs[i]),
    ensures
        txs_dec(txs_enc(txs), txs.len()) == Some(txs),
    decreases txs.len(),
{
    if txs.len() > 0 {
        let t = txs.first();
        assert(wf_tx(txs[0]));
        let s = txs_enc(txs);
        let blob_len = tx_enc(t).len();
        lemma_pow256_vals();
        lemma_tx_enc_len(t);
        lemma_be_round_trip(blob_len, 8);
        lemma_tx_round_trip(t);
        assert(s.subrange(0, 8) =~= to_be(blob_len, 8));
        assert(s.subrange(8, 8 + blob_len as int) =~= tx_enc(t));
        assert(s.subrange(8 + blob_len as int, s.len() as int) =~= txs_enc(txs.drop_first()));
        lemma_txs_round_trip(txs.drop_first());
        assert(seq![t] + txs.drop_first() =~= txs);
    }
}

/// A well-formed block survives the encode/decode pair.
#[verifier::rlimit(100)]
#[verifier::spinoff_prover]
pub proof fn lemma_block_round_trip(b: BlockView)
    requires
        wf_block(b),
    ensures
        block_dec(block_enc(b)) == Some(b),
{
    let s = block_enc(b);
    lemma_pow256_vals();
    lemma_header_enc_len(b.header);
    lemma_to_be_len(b.transactions.len(), 8);
    lemma_be_round_trip(b.transactions.len(), 8);
    lemma_header_round_trip(b.header);
    lemma_txs_round_trip(b.transactions);
    assert(s.subrange(0, 108) =~= header_enc(b.header));
    match b.signature {
        None => {
            assert(s[108] == 0u8);
            assert(s.subrange(109, 117) =~= to_be(b.transactions.len(), 8));
            assert(s.subrange(117, s.len() as int) =~= txs_enc(b.transactions));
        },
        Some(sig) => {
            assert(s[108] == 1u8);
            assert(s.subrange(109, 173) =~= sig);
            assert(s.subrange(173, 181) =~= to_be(b.transactions.len(), 8));
            assert(s.subrange(181, s.len() as int) =~= txs_enc(b.transactions));
        },
    }
    assert(block_dec(s) matches Some(u) && u =~= b);
}

/// txs_enc distributes over concatenation.
pub proof fn lemma_txs_enc_concat(a: Seq<TxView>, b: Seq<TxView>)
    ensures
        txs_enc(a + b) == txs_enc(a) + txs_enc(b),
    decreases a.len(),
{
    if a.len() == 0 {
        assert(a + b =~= b);
        assert(txs_enc(a) + txs_enc(b) =~= txs_enc(b));
    } else {
        assert((a + b).drop_first() =~= a.drop_first() + b);
        lemma_txs_enc_concat(a.drop_first(), b);
        assert(txs_enc(a + b) =~= txs_enc(a) + txs_enc(b));
    }
}

/// Writes the canonical encoding of a block.
pub fn encode_block(b: &Block) -> (r: Vec<u8>)
    requires
        b.header.timestamp >= 0,
    ensures
        r@ == block_enc(b@),
{
    let mut r = encode_header(&b.header);
    match &b.signature {
        Some(sig) => {
            r.push(1);
            push_all(&mut r, sig.as_slice());
        },
        None => {
            r.push(0);
        },
    }
    proof {
        assert(r@ =~= header_enc(b@.header) + crate::transaction::sig_enc(b@.signature));
    }
    let cnt = nat_to_be(b.transactions.len() as u128, 8);
    push_all(&mut r, cnt.as_slice());
    let mut i: usize = 0;
    while i < b.transactions.len()
        invariant
            0 <= i <= b.transactions@.len(),
            r@ =~= header_enc(b@.header) + crate::transaction::sig_enc(b@.signature) + to_be(
                b.transactions@.len(),
                8,
            ) + txs_enc(txs_view(b.transactions@).take(i as int)),
        decreases b.transactions@.len() - i,
    {
        let ghost prefix = txs_view(b.transactions@).take(i as int);
        let enc = crate::transaction::encode_tx(&b.transactions[i]);
        let blob_len = nat_to_be(enc.len() as u128, 8);
        push_all(&mut r, blob_len.as_slice());
        push_all(&mut r, enc.as_slice());
        i += 1;
        proof {
            let full = txs_view(b.transactions@);
            assert(full.take(i as int) =~= prefix + seq![full[i - 1]]);
            lemma_txs_enc_concat(prefix, seq![full[i - 1]]);
            assert(seq![full[i - 1]].drop_first() =~= Seq::<TxView>::empty());
            assert(tx_blob(full[i - 1]) + txs_enc(Seq::<TxView>::empty()) =~= tx_blob(
                full[i - 1],
            ));
            assert(txs_enc(seq![full[i - 1]]) =~= tx_blob(full[i - 1]));
            assert(r@ =~= header_enc(b@.header) + crate::transaction::sig_enc(b@.signature)
                + to_be(b.transactions@.len(), 8) + txs_enc(full.take(i as int)));
        }
    }
    proof {
        assert(txs_view(b.transactions@).take(b.transactions@.len() as int) =~= txs_view(
            b.transactions@,
        ));
        assert(r@ =~= block_enc(b@));
    }
    r
}

/// Reads a block back from its canonical encoding.
#[verifier::rlimit(100)]
pub fn decode_block(bytes: &[u8]) -> (r: Option<Block>)
    ensures
        (r matches Some(b) ==> block_dec(bytes@) == Some(b@)),
        (r is None ==> block_dec(bytes@) is None),
{
    if bytes.len() < 117 {
        return None;
    }
    let header = match decode_header(take_range(bytes, 0, 108).as_slice()) {
        Some(h) => h,
        None => {
            return None;
        },
    };
    let ghost hv = header@;
    let flag = bytes[108];
    let signature: Option<Vec<u8>> = if flag == 0 {
        None
    } else if flag == 1 && bytes.len() >= 181 {
        Some(take_range(bytes, 109, 173))
    } else {
        return None;
    };
    let ghost sigv: Option<Seq<u8>> = match &signature {
        Some(v) => Some(v@),
        None => None,
    };
    let cnt_lo: usize = if flag == 0 {
        109
    } else {
        173
    };
    proof {
        lemma_pow256_vals();
        lemma_from_be_bound(bytes@.subrange(cnt_lo as int, cnt_lo as int + 8));
        crate::codec::lemma_pow256_mono(8, 16);
    }
    let n128 = read_be(bytes, cnt_lo, cnt_lo + 8);
    let mut txs: Vec<Transaction> = Vec::new();
    let mut off: usize = cnt_lo + 8;
    let mut remaining = n128;
    let ghost total = n128 as nat;
    let ghost whole = bytes@.subrange(cnt_lo as int + 8, bytes@.len() as int);
    proof {
        match txs_dec(whole, total) {
            Some(all) => {
                assert(txs_view(txs@) + all =~= all);
                assert(block_dec(bytes@) == Some(
                    BlockView { header: hv, transactions: all, signature: sigv },
                ));
            },
            None => {
                assert(block_dec(bytes@) is None);
            },
        }
    }
    while remaining > 0
        invariant
            cnt_lo + 8 <= off <= bytes@.len(),
            remaining <= total,
            txs@.len() == total - remaining,
            whole == bytes@.subrange(cnt_lo as int + 8, bytes@.len() as int),
            (match txs_dec(whole, total) {
                Some(all) => block_dec(bytes@) == Some(
                    BlockView { header: hv, transactions: all, signature: sigv },
                ),
                None => block_dec(bytes@) is None,
            }),
            (match txs_dec(bytes@.subrange(off as int, bytes@.len() as int), remaining as nat) {
                Some(rest) => txs_dec(whole, total) == Some(txs_view(txs@) + rest),
                None => txs_dec(whole, total) is None,
            }),
        decreases remaining,
    {
        let ghost sub = bytes@.subrange(off as int, bytes@.len() as int);
        let ghost txs_before = txs@;
        if bytes.len() - off < 8 {
            proof {
                assert(txs_dec(sub, remaining as nat) is None);
                assert(txs_dec(whole, total) is None);
            }
            return None;
        }
        let blob128 = read_be(bytes, off, off + 8);
        proof {
            assert(sub.subrange(0, 8) =~= bytes@.subrange(off as int, off as int + 8));
        }
        if blob128 > (bytes.len() - off - 8) as u128 {
            proof {
                assert(txs_dec(sub, remaining as nat) is None);
            }
            return None;
        }
        let blob_len = blob128 as usize;
        let piece = take_range(bytes, off + 8, off + 8 + blob_len);
        proof {
            assert(sub.subrange(8, 8 + blob_len as int) =~= piece@);
        }
        let tx = match crate::transaction::decode_tx(piece.as_slice()) {
            Some(t) => t,
            None => {
                proof {
                    assert(txs_dec(sub, remaining as nat) is None);
                }
                return None;
            },
        };
        txs.push(tx);
        off = off + 8 + blob_len;
        remaining = remaining - 1;
        proof {
            assert(sub.subrange(8 + blob_len as int, sub.len() as int) =~= bytes@.subrange(
                off as int,
                bytes@.len() as int,
            ));
            assert(txs_view(txs@) =~= txs_view(txs_before) + seq![tx@]);
            match txs_dec(bytes@.subrange(off as int, bytes@.len() as int), remaining as nat) {
                Some(rest) => {
                    assert(txs_dec(sub, (remaining + 1) as nat) == Some(seq![tx@] + rest));
                    assert(txs_view(txs_before) + (seq![tx@] + rest) =~= txs_view(txs@) + rest);
                },
                None => {},
            }
        }
    }
    if off != bytes.len() {
        proof {
            assert(bytes@.subrange(off as int, bytes@.len() as int).len() != 0);
        }
        return None;
    }
    let b = Block { header, transactions: txs, signature };
    proof {
        assert(bytes@.subrange(off as int, bytes@.len() as int).len() == 0);
        assert(txs_view(txs@) + Seq::<TxView>::empty() =~= txs_view(txs@));
        assert(block_dec(bytes@) matches Some(u) && u =~= b@);
    }
    Some(b)
}

impl Clone for BlockHeader {
    fn clone(&self) -> (res: Self)
        ensures
            res@ == self@,
    {
        BlockHeader {
            version: self.version,
            prev_block_hash: clone_bytes(&self.prev_block_hash),
            merkle_root: clone_bytes(&self.merkle_root),
            timestamp: self.timestamp,
            difficulty: self.difficulty,
            nonce: self.nonce,
            proposer: clone_bytes(&self.proposer),
        }
    }
}

impl Clone for Block {
    fn clone(&self) -> (res: Self)
        ensures
            res@ == self@,
    {
        let mut txs: Vec<Transaction> = Vec::new();
        let mut i: usize = 0;
        while i < self.transactions.len()
            invariant
                0 <= i <= self.transactions@.len(),
                txs@.len() == i,
                forall|j: int| 0 <= j < i ==> #[trigger] txs@[j]@ == self.transactions@[j]@,
            decreases self.transactions@.len() - i,
        {
            txs.push(self.transactions[i].clone());
            i += 1;
        }
        let res = Block {
            header: self.header.clone(),
            transactions: txs,
            signature: match &self.signature {
                Some(sig) => Some(clone_bytes(sig)),
                None => None,
            },
        };
        proof {
            assert(txs_view(txs@) =~= txs_view(self.transactions@));
            assert(res@ =~= self@);
        }
        res
    }
}

impl Block {
    /// Builds a block over the given transactions, rooted and stamped; the
    /// nonce starts at zero for mining.
    pub fn new(
        prev_block_hash: Vec<u8>,
        transactions: Vec<Transaction>,
        difficulty: u32,
        proposer: Vec<u8>,
    ) -> (r: Result<Block, BlockError>)
        requires
            prev_block_hash@.len() == 32,
            proposer@.len() == 20,
        ensures
            (transactions@.len() > max_transactions() ==> (r matches Err(e) && e
                == BlockError::TooManyTransactions)),
            (transactions@.len() <= max_transactions() ==> (r matches Ok(b) && {
                &&& b@.header.version == 1
                &&& b@.header.prev_block_hash == prev_block_hash@
                &&& b@.header.merkle_root == merkle_root_spec(txs_view(transactions@))
                &&& b@.header.difficulty == difficulty
                &&& b@.header.nonce == 0
                &&& b@.header.timestamp >= 0
                &&& b@.header.proposer == proposer@
                &&& b@.transactions == txs_view(transactions@)
                &&& b@.signature is None
                &&& wf_header(b@.header)
            })),
    {
        if transactions.len() > 1000 {
            return Err(BlockError::TooManyTransactions);
        }
        let merkle_root = calculate_merkle_root(&transactions);
        let t = now_ts();
        let timestamp: i64 = if t < 0 {
            0
        } else {
            t
        };
        let b = Block {
            header: BlockHeader {
                version: 1,
                prev_block_hash,
                merkle_root,
                timestamp,
                difficulty,
                nonce: 0,
                proposer,
            },
            transactions,
            signature: None,
        };
        proof {
            assert(b@.transactions =~= txs_view(b.transactions@));
        }
        Ok(b)
    }

    /// Signs the block hash with the proposer's secret key and stores the
    /// signature; the hash covers the header alone, so signing does not
    /// change it.
    pub fn sign(&mut self, private_key: &[u8]) -> (r: Result<(), BlockError>)
        requires
            wf_header(old(self)@.header),
        ensures
            r is Ok,
            final(self)@ == (BlockView {
                signature: Some(
                    crate::crypto::sign_spec(private_key@, block_hash_of(old(self)@.header)),
                ),
                ..old(self)@
            }),
    {
        let digest = self.hash();
        let sig = crate::crypto::sign_bytes(private_key, digest.as_slice());
        self.signature = Some(sig);
        Ok(())
    }

    /// Searches nonces upward from the current one until the header's
    /// digest clears its difficulty; gives up only when every remaining
    /// nonce fails.
    pub fn mine(&mut self) -> (r: Option<ProofOfWork>)
        requires
            wf_header(old(self)@.header),
        ensures
            final(self)@.header == (HeaderView {
                nonce: final(self)@.header.nonce,
                ..old(self)@.header
            }),
            final(self)@.transactions == old(self)@.transactions,
            final(self)@.signature == old(self)@.signature,
            (r matches Some(p) ==> {
                &&& proof_ok(final(self)@.header)
                &&& p.wf()
                &&& p.digest@ == block_hash_of(final(self)@.header)
                &&& (forall|n: u64|
                    old(self)@.header.nonce <= n < final(self)@.header.nonce ==> !proof_ok(
                        #[trigger] with_nonce(old(self)@.header, n),
                    ))
            }),
            (r is None ==> forall|n: u64|
                n >= old(self)@.header.nonce ==> !proof_ok(
                    #[trigger] with_nonce(old(self)@.header, n),
                )),
    {
        loop
            invariant
                wf_header(self@.header),
                self@.header == (HeaderView { nonce: self@.header.nonce, ..old(self)@.header }),
                self@.header.nonce >= old(self)@.header.nonce,
                self@.transactions == old(self)@.transactions,
                self@.signature == old(self)@.signature,
                forall|n: u64|
                    old(self)@.header.nonce <= n < self@.header.nonce ==> !proof_ok(
                        #[trigger] with_nonce(old(self)@.header, n),
                    ),
            decreases u64::MAX - self@.header.nonce,
        {
            let pr = ProofOfWork::new(&self.header);
            if pr.is_valid(self.header.difficulty) {
                return Some(pr);
            }
            if self.header.nonce == u64::MAX {
                proof {
                    assert(self@.header == with_nonce(old(self)@.header, self@.header.nonce));
                    assert(forall|n: u64|
                        n >= old(self)@.header.nonce ==> !proof_ok(
                            #[trigger] with_nonce(old(self)@.header, n),
                        ));
                }
                return None;
            }
            self.header.nonce = self.header.nonce + 1;
        }
    }

    /// The block hash: the digest of the canonical header encoding.
    pub fn hash(&self) -> (r: Vec<u8>)
        requires
            wf_header(self@.header),
        ensures
            r@ == block_hash_of(self@.header),
            r@.len() == 32,
    {
        let enc = encode_header(&self.header);
        sha3_bytes(enc.as_slice())
    }

    /// Structural validation: transaction bound, Merkle root, difficulty.
    pub fn validate(&self) -> (r: Result<(), BlockError>)
        requires
            wf_header(self@.header),
        ensures
            r == validate_spec(self@),
    {
        if self.transactions.len() > 1000 {
            return Err(BlockError::TooManyTransactions);
        }
        let computed = calculate_merkle_root(&self.transactions);
        if !bytes_eq(computed.as_slice(), self.header.merkle_root.as_slice()) {
            return Err(BlockError::InvalidMerkleRoot);
        }
        let pr = ProofOfWork::new(&self.header);
        if !pr.is_valid(self.header.difficulty) {
            return Err(BlockError::InvalidProof);
        }
        Ok(())
    }
}

} // verus!
