//! Transactions: the data model, the canonical byte encoding that the
//! transaction hash is defined over, and signing and verification.
//!
//! The canonical encoding lays the fields out in declared order with
//! fixed-width big-endian numbers, a length-prefixed payload and a tagged
//! optional signature.  The transaction hash is the SHA3-256 digest of the
//! encoding with the signature cleared, so signing does not change the hash.

use vstd::prelude::*;
use crate::codec::to_be;
use crate::codec::from_be;
use crate::codec::lemma_to_be_len;
use crate::codec::lemma_from_be_bound;
use crate::codec::lemma_be_round_trip;
use crate::codec::lemma_pow256_vals;
use crate::codec::nat_to_be;
use crate::codec::read_be;
use crate::codec::take_range;
use crate::crypto::sha3_of;
use crate::crypto::sha3_bytes;
use crate::crypto::sign_spec;
use crate::crypto::sig_valid;
use crate::crypto::sign_bytes;
use crate::crypto::verify_sig;
use crate::crypto::now_ts;
use crate::errors::TransactionError;

verus! {

/// The kind of work a transaction asks for; AI payloads are opaque bytes
/// executed by an external runtime.
#[derive(Clone, Copy, Debug, PartialEq, Eq, Structural)]
pub enum TransactionType {
    Transfer,
    StakeDeposit,
    StakeWithdraw,
    AIModelDeploy,
    AIModelInvoke,
    DataValidation,
}

/// The byte tag of a transaction kind in the canonical encoding.
pub open spec fn kind_byte(k: TransactionType) -> u8 {
    match k {
        TransactionType::Transfer => 0,
        TransactionType::StakeDeposit => 1,
        TransactionType::StakeWithdraw => 2,
        TransactionType::AIModelDeploy => 3,
        TransactionType::AIModelInvoke => 4,
        TransactionType::DataValidation => 5,
    }
}

/// The transaction kind a byte tag denotes, if any.
pub open spec fn kind_of_byte(b: u8) -> Option<TransactionType> {
    if b == 0 {
        Some(TransactionType::Transfer)
    } else if b == 1 {
        Some(TransactionType::StakeDeposit)
    } else if b == 2 {
        Some(TransactionType::StakeWithdraw)
    } else if b == 3 {
        Some(TransactionType::AIModelDeploy)
    } else if b == 4 {
        Some(TransactionType::AIModelInvoke)
    } else if b == 5 {
        Some(TransactionType::DataValidation)
    } else {
        None
    }
}

pub fn kind_to_byte(k: TransactionType) -> (r: u8)
    ensures
        r == kind_byte(k),
{
    match k {
        TransactionType::Transfer => 0,
        TransactionType::StakeDeposit => 1,
        TransactionType::StakeWithdraw => 2,
        TransactionType::AIModelDeploy => 3,
        TransactionType::AIModelInvoke => 4,
        TransactionType::DataValidation => 5,
    }
}

pub fn byte_to_kind(b: u8) -> (r: Option<TransactionType>)
    ensures
        r == kind_of_byte(b),
{
    if b == 0 {
        Some(TransactionType::Transfer)
    } else if b == 1 {
        Some(TransactionType::StakeDeposit)
    } else if b == 2 {
        Some(TransactionType::StakeWithdraw)
    } else if b == 3 {
        Some(TransactionType::AIModelDeploy)
    } else if b == 4 {
        Some(TransactionType::AIModelInvoke)
    } else if b == 5 {
        Some(TransactionType::DataValidation)
    } else {
        None
    }
}

/// The mathematical value of a transaction.
#[verifier::ext_equal]
pub struct TxView {
    pub nonce: u64,
    pub from: Seq<u8>,
    pub to: Seq<u8>,
    pub value: u128,
    pub gas_price: u64,
    pub gas_limit: u64,
    pub data: Seq<u8>,
    pub transaction_type: TransactionType,
    pub timestamp: u64,
    pub signature: Option<Seq<u8>>,
}

/// A value transfer or typed payload, signed by its sender.
pub struct Transaction {
    pub nonce: u64,
    pub from: Vec<u8>,
    pub to: Vec<u8>,
    pub value: u128,
    pub gas_price: u64,
    pub gas_limit: u64,
    pub data: Vec<u8>,
    pub transaction_type: TransactionType,
    pub timestamp: u64,
    pub signature: Option<Vec<u8>>,
}

impl View for Transaction {
    type V = TxView;

    open spec fn view(&self) -> TxView {
        TxView {
            nonce: self.nonce,
            from: self.from@,
            to: self.to@,
            value: self.value,
            gas_price: self.gas_price,
            gas_limit: self.gas_limit,
            data: self.data@,
            transaction_type: self.transaction_type,
            timestamp: self.timestamp,
            signature: match self.signature {
                Some(s) => Some(s@),
                None => None,
            },
        }
    }
}

/// The zero sender address reserved for coinbase transactions.
pub open spec fn zero_addr() -> Seq<u8> {
    Seq::new(20, |i: int| 0u8)
}

/// Structural bounds every well-formed transaction meets: 20-byte
/// addresses and, when signed, a 64-byte signature.
pub open spec fn wf_tx(t: TxView) -> bool {
    &&& t.from.len() == 20
    &&& t.to.len() == 20
    &&& t.data.len() < 0x1_0000_0000
    &&& (t.signature matches Some(s) ==> s.len() == 64)
}

/// The same transaction with its signature cleared.
pub open spec fn clear_sig(t: TxView) -> TxView {
    TxView { signature: None, ..t }
}

/// The canonical encoding of an optional signature: a presence tag, then
/// the signature bytes.
pub open spec fn sig_enc(s: Option<Seq<u8>>) -> Seq<u8> {
    match s {
        None => seq![0u8],
        Some(v) => seq![1u8] + v,
    }
}

/// The canonical encoding of a transaction.
pub open spec fn tx_enc(t: TxView) -> Seq<u8> {
    to_be(t.nonce as nat, 8) + t.from + t.to + to_be(t.value as nat, 16) + to_be(
        t.gas_price as nat,
        8,
    ) + to_be(t.gas_limit as nat, 8) + seq![kind_byte(t.transaction_type)] + to_be(
        t.timestamp as nat,
        8,
    ) + to_be(t.data.len(), 8) + t.data + sig_enc(t.signature)
}

/// The transaction hash: the digest of the canonical encoding with the
/// signature cleared.
pub open spec fn spec_tx_hash(t: TxView) -> Seq<u8> {
    sha3_of(tx_enc(clear_sig(t)))
}

/// What canonical decoding yields on a byte string, if anything.
pub open spec fn tx_dec(s: Seq<u8>) -> Option<TxView> {
    if s.len() < 98 {
        None
    } else {
        let dlen = from_be(s.subrange(89, 97)) as int;
        if s.len() < 98 + dlen {
            None
        } else {
            let flag = s[97 + dlen];
            match kind_of_byte(s[80]) {
                None => None,
                Some(k) => {
                    if flag == 0 && s.len() == 98 + dlen {
                        Some(tx_dec_fields(s, dlen, k, None))
                    } else if flag == 1 && s.len() == 98 + dlen + 64 {
                        Some(tx_dec_fields(s, dlen, k, Some(s.subrange(98 + dlen, 98 + dlen + 64))))
                    } else {
                        None
                    }
                },
            }
        }
    }
}

/// The fields read back from a canonical encoding.
pub open spec fn tx_dec_fields(
    s: Seq<u8>,
    dlen: int,
    k: TransactionType,
    sig: Option<Seq<u8>>,
) -> TxView {
    TxView {
        nonce: from_be(s.subrange(0, 8)) as u64,
        from: s.subrange(8, 28),
        to: s.subrange(28, 48),
        value: from_be(s.subrange(48, 64)) as u128,
        gas_price: from_be(s.subrange(64, 72)) as u64,
        gas_limit: from_be(s.subrange(72, 80)) as u64,
        data: s.subrange(97, 97 + dlen),
        transaction_type: k,
        timestamp: from_be(s.subrange(81, 89)) as u64,
        signature: sig,
    }
}

/// A well-formed transaction survives the encode/decode pair.
#[verifier::rlimit(60)]
pub proof fn lemma_tx_round_trip(t: TxView)
    requires
        wf_tx(t),
    ensures
        tx_dec(tx_enc(t)) == Some(t),
{
    let s = tx_enc(t);
    lemma_pow256_vals();
    lemma_to_be_len(t.nonce as nat, 8);
    lemma_to_be_len(t.value as nat, 16);
    lemma_to_be_len(t.gas_price as nat, 8);
    lemma_to_be_len(t.gas_limit as nat, 8);
    lemma_to_be_len(t.timestamp as nat, 8);
    lemma_to_be_len(t.data.len(), 8);
    lemma_be_round_trip(t.nonce as nat, 8);
    lemma_be_round_trip(t.value as nat, 16);
    lemma_be_round_trip(t.gas_price as nat, 8);
    lemma_be_round_trip(t.gas_limit as nat, 8);
    lemma_be_round_trip(t.timestamp as nat, 8);
    lemma_be_round_trip(t.data.len(), 8);
    let d = t.data.len() as int;
    assert(s.len() == 98 + d + (match t.signature {
        Some(v) => 64int,
        None => 0int,
    }));
    assert(s.subrange(0, 8) =~= to_be(t.nonce as nat, 8));
    assert(s.subrange(8, 28) =~= t.from);
    assert(s.subrange(28, 48) =~= t.to);
    assert(s.subrange(48, 64) =~= to_be(t.value as nat, 16));
    assert(s.subrange(64, 72) =~= to_be(t.gas_price as nat, 8));
    assert(s.subrange(72, 80) =~= to_be(t.gas_limit as nat, 8));
    assert(s[80] == kind_byte(t.transaction_type));
    assert(s.subrange(81, 89) =~= to_be(t.timestamp as nat, 8));
    assert(s.subrange(89, 97) =~= to_be(t.data.len(), 8));
    assert(s.subrange(97, 97 + d) =~= t.data);
    assert(s[97 + d] == (match t.signature {
        Some(v) => 1u8,
        None => 0u8,
    }));
    assert(kind_of_byte(kind_byte(t.transaction_type)) == Some(t.transaction_type));
    match t.signature {
        Some(v) => {
            assert(s.subrange(98 + d, 98 + d + 64) =~= v);
            assert(tx_dec(s) matches Some(u) && u =~= t);
        },
        None => {
            assert(tx_dec(s) matches Some(u) && u =~= t);
        },
    }
}

/// Writes the canonical encoding of `tx`, with or without its signature.
fn encode_tx_inner(tx: &Transaction, include_sig: bool) -> (r: Vec<u8>)
    ensures
        include_sig ==> r@ == tx_enc(tx@),
        !include_sig ==> r@ == tx_enc(clear_sig(tx@)),
{
    let mut r = nat_to_be(tx.nonce as u128, 8);
    crate::crypto::push_all(&mut r, tx.from.as_slice());
    crate::crypto::push_all(&mut r, tx.to.as_slice());
    let value_bytes = nat_to_be(tx.value, 16);
    crate::crypto::push_all(&mut r, value_bytes.as_slice());
    let gp_bytes = nat_to_be(tx.gas_price as u128, 8);
    crate::crypto::push_all(&mut r, gp_bytes.as_slice());
    let gl_bytes = nat_to_be(tx.gas_limit as u128, 8);
    crate::crypto::push_all(&mut r, gl_bytes.as_slice());
    r.push(kind_to_byte(tx.transaction_type));
    let ts_bytes = nat_to_be(tx.timestamp as u128, 8);
    crate::crypto::push_all(&mut r, ts_bytes.as_slice());
    let dlen_bytes = nat_to_be(tx.data.len() as u128, 8);
    crate::crypto::push_all(&mut r, dlen_bytes.as_slice());
    crate::crypto::push_all(&mut r, tx.data.as_slice());
    if include_sig {
        match &tx.signature {
            Some(sig) => {
                r.push(1);
                crate::crypto::push_all(&mut r, sig.as_slice());
                proof {
                    assert(r@ =~= tx_enc(tx@));
                }
            },
            None => {
                r.push(0);
                proof {
                    assert(r@ =~= tx_enc(tx@));
                }
            },
        }
    } else {
        r.push(0);
        proof {
            assert(r@ =~= tx_enc(clear_sig(tx@)));
        }
    }
    r
}

/// The canonical encoding of a transaction, signature included.
pub fn encode_tx(tx: &Transaction) -> (r: Vec<u8>)
    ensures
        r@ == tx_enc(tx@),
{
    encode_tx_inner(tx, true)
}

/// Reads a transaction back from its canonical encoding.
pub fn decode_tx(bytes: &[u8]) -> (r: Option<Transaction>)
    ensures
        (r matches Some(tx) ==> tx_dec(bytes@) == Some(tx@)),
        (r is None ==> tx_dec(bytes@) is None),
{
    if bytes.len() < 98 {
        return None;
    }
    proof {
        lemma_pow256_vals();
        lemma_from_be_bound(bytes@.subrange(0, 8));
        lemma_from_be_bound(bytes@.subrange(48, 64));
        lemma_from_be_bound(bytes@.subrange(64, 72));
        lemma_from_be_bound(bytes@.subrange(72, 80));
        lemma_from_be_bound(bytes@.subrange(81, 89));
        crate::codec::lemma_pow256_mono(8, 16);
    }
    let dlen128 = read_be(bytes, 89, 97);
    if dlen128 > (bytes.len() - 98) as u128 {
        return None;
    }
    let dlen = dlen128 as usize;
    let kind = match byte_to_kind(bytes[80]) {
        Some(k) => k,
        None => {
            return None;
        },
    };
    let flag = bytes[97 + dlen];
    let signature: Option<Vec<u8>> = if flag == 0 && bytes.len() == 98 + dlen {
        None
    } else if flag == 1 && bytes.len() - 98 - dlen == 64 {
        Some(take_range(bytes, 98 + dlen, 98 + dlen + 64))
    } else {
        return None;
    };
    let tx = Transaction {
        nonce: read_be(bytes, 0, 8) as u64,
        from: take_range(bytes, 8, 28),
        to: take_range(bytes, 28, 48),
        value: read_be(bytes, 48, 64),
        gas_price: read_be(bytes, 64, 72) as u64,
        gas_limit: read_be(bytes, 72, 80) as u64,
        data: take_range(bytes, 97, 97 + dlen),
        transaction_type: kind,
        timestamp: read_be(bytes, 81, 89) as u64,
        signature,
    };
    proof {
        assert(tx_dec(bytes@) matches Some(u) && u =~= tx@);
    }
    Some(tx)
}

/// Whether the bytes are the zero address.
pub fn is_zero_addr(v: &Vec<u8>) -> (r: bool)
    ensures
        r == (v@ == zero_addr()),
{
    if v.len() != 20 {
        proof {
            assert(v@.len() != zero_addr().len());
        }
        return false;
    }
    let mut i: usize = 0;
    while i < 20
        invariant
            0 <= i <= 20,
            v@.len() == 20,
            forall|j: int| 0 <= j < i ==> v@[j] == 0u8,
        decreases 20 - i,
    {
        if v[i] != 0 {
            proof {
                assert(v@[i as int] != zero_addr()[i as int]);
            }
            return false;
        }
        i += 1;
    }
    proof {
        assert(v@ =~= zero_addr());
    }
    true
}

/// The zero address as bytes.
pub fn zero_address() -> (r: Vec<u8>)
    ensures
        r@ == zero_addr(),
{
    let mut r: Vec<u8> = Vec::new();
    let mut i: usize = 0;
    while i < 20
        invariant
            0 <= i <= 20,
            r@ =~= Seq::new(i as nat, |j: int| 0u8),
        decreases 20 - i,
    {
        r.push(0);
        i += 1;
        proof {
            assert(r@ =~= Seq::new(i as nat, |j: int| 0u8));
        }
    }
    proof {
        assert(r@ =~= zero_addr());
    }
    r
}

/// Copies a byte vector.
pub fn clone_bytes(v: &Vec<u8>) -> (r: Vec<u8>)
    ensures
        r@ == v@,
{
    let r = take_range(v.as_slice(), 0, v.len());
    proof {
        assert(v@.subrange(0, v@.len() as int) =~= v@);
    }
    r
}

impl Clone for Transaction {
    fn clone(&self) -> (res: Self)
        ensures
            res@ == self@,
    {
        Transaction {
            nonce: self.nonce,
            from: clone_bytes(&self.from),
            to: clone_bytes(&self.to),
            value: self.value,
            gas_price: self.gas_price,
            gas_limit: self.gas_limit,
            data: clone_bytes(&self.data),
            transaction_type: self.transaction_type,
            timestamp: self.timestamp,
            signature: match &self.signature {
                Some(s) => Some(clone_bytes(s)),
                None => None,
            },
        }
    }
}

impl Transaction {
    /// Builds an unsigned transaction stamped with the current time.
    pub fn new(
        nonce: u64,
        from: Vec<u8>,
        to: Vec<u8>,
        value: u128,
        gas_price: u64,
        gas_limit: u64,
        data: Vec<u8>,
        transaction_type: TransactionType,
    ) -> (r: Transaction)
        ensures
            r.nonce == nonce,
            r.from@ == from@,
            r.to@ == to@,
            r.value == value,
            r.gas_price == gas_price,
            r.gas_limit == gas_limit,
            r.data@ == data@,
            r.transaction_type == transaction_type,
            r.signature is None,
    {
        let t = now_ts();
        let timestamp: u64 = if t < 0 {
            0
        } else {
            t as u64
        };
        Transaction {
            nonce,
            from,
            to,
            value,
            gas_price,
            gas_limit,
            data,
            transaction_type,
            timestamp,
            signature: None,
        }
    }

    /// The transaction hash, a pure function of everything but the
    /// signature.
    pub fn hash(&self) -> (r: Result<Vec<u8>, TransactionError>)
        ensures
            r matches Ok(h) && h@ == spec_tx_hash(self@) && h@.len() == 32,
    {
        let enc = encode_tx_inner(self, false);
        Ok(sha3_bytes(enc.as_slice()))
    }

    /// Signs the transaction hash with the given secret key and stores the
    /// signature.
    pub fn sign(&mut self, private_key: &[u8]) -> (r: Result<(), TransactionError>)
        ensures
            r is Ok,
            final(self)@ == (TxView {
                signature: Some(sign_spec(private_key@, spec_tx_hash(old(self)@))),
                ..old(self)@
            }),
    {
        let enc = encode_tx_inner(self, false);
        let digest = sha3_bytes(enc.as_slice());
        let sig = sign_bytes(private_key, digest.as_slice());
        self.signature = Some(sig);
        Ok(())
    }

    /// Checks the stored signature against a public key.
    pub fn verify(&self, public_key: &[u8]) -> (r: Result<bool, TransactionError>)
        ensures
            (self@.signature is None ==> (r matches Err(e) && e
                == TransactionError::MissingSignature)),
            (self@.signature matches Some(sv) ==> (r matches Ok(b) && b == sig_valid(
                public_key@,
                spec_tx_hash(self@),
                sv,
            ))),
    {
        match &self.signature {
            None => Err(TransactionError::MissingSignature),
            Some(sig) => {
                let enc = encode_tx_inner(self, false);
                let digest = sha3_bytes(enc.as_slice());
                Ok(verify_sig(public_key, digest.as_slice(), sig.as_slice()))
            },
        }
    }

    /// The gas this transaction pays for in full.
    pub fn gas_cost(&self) -> (r: u64)
        requires
            self.gas_price * self.gas_limit <= u64::MAX,
        ensures
            r == self.gas_price * self.gas_limit,
    {
        self.gas_price * self.gas_limit
    }

    /// A coinbase transaction: a transfer minted from the zero address.
    pub fn is_coinbase(&self) -> (r: bool)
        ensures
            r == (self@.from == zero_addr() && self@.transaction_type
                == TransactionType::Transfer),
    {
        let is_transfer = matches!(self.transaction_type, TransactionType::Transfer);
        is_transfer && is_zero_addr(&self.from)
    }
}

/// An event recorded while a transaction was applied.
pub struct Log {
    pub address: Vec<u8>,
    pub topics: Vec<Vec<u8>>,
    pub data: Vec<u8>,
}

/// The immutable record of an applied transaction.
pub struct TransactionReceipt {
    pub transaction_hash: Vec<u8>,
    pub block_hash: Vec<u8>,
    pub block_number: u64,
    pub gas_used: u64,
    pub status: bool,
    pub logs: Vec<Log>,
}

} // verus!
