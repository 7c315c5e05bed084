//! The wire protocol: the typed messages peers exchange over the gossip
//! substrate, in the canonical encoding.  The transport only moves bytes;
//! framing and parsing happen here, so a malformed frame is rejected
//! before any handler sees it.

use vstd::prelude::*;
use crate::block::Block;
use crate::block::BlockView;
use crate::block::BlockHeader;
use crate::block::HeaderView;
use crate::block::header_enc;
use crate::block::header_dec;
use crate::block::wf_header;
use crate::block::wf_block;
use crate::block::block_enc;
use crate::block::block_dec;
use crate::block::encode_block;
use crate::block::decode_block;
use crate::block::encode_header;
use crate::block::decode_header;
use crate::block::txs_enc;
use crate::block::txs_dec;
use crate::block::txs_view;
use crate::block::lemma_header_enc_len;
use crate::block::lemma_header_round_trip;
use crate::block::lemma_block_round_trip;
use crate::block::lemma_txs_round_trip;
use crate::codec::to_be;
use crate::codec::from_be;
use crate::codec::lemma_to_be_len;
use crate::codec::lemma_from_be_bound;
use crate::codec::lemma_be_round_trip;
use crate::codec::lemma_pow256_vals;
use crate::codec::lemma_pow256_mono;
use crate::codec::nat_to_be;
use crate::codec::read_be;
use crate::codec::take_range;
use crate::crypto::push_all;
use crate::transaction::Transaction;
use crate::transaction::TxView;
use crate::transaction::tx_enc;
use crate::transaction::tx_dec;
use crate::transaction::wf_tx;
use crate::transaction::lemma_tx_round_trip;
use crate::transaction::encode_tx;

verus! {

/// The mathematical value of a wire message.
#[verifier::ext_equal]
pub enum MessageView {
    NewBlock(BlockView),
    NewTransaction(TxView),
    Vote { height: u64, block_hash: Seq<u8>, voter: Seq<u8>, signature: Seq<u8> },
    GetHeaders { from: u64, to: u64 },
    Headers(Seq<HeaderView>),
    GetBody { block_hash: Seq<u8> },
    Body(Seq<TxView>),
    GetHeight,
    Height { value: u64, head_hash: Seq<u8> },
}

/// A message of the gossip protocol.
pub enum Message {
    NewBlock(Block),
    NewTransaction(Transaction),
    Vote { height: u64, block_hash: Vec<u8>, voter: Vec<u8>, signature: Vec<u8> },
    GetHeaders { from: u64, to: u64 },
    Headers(Vec<BlockHeader>),
    GetBody { block_hash: Vec<u8> },
    Body(Vec<Transaction>),
    GetHeight,
    Height { value: u64, head_hash: Vec<u8> },
}

/// The views of a header list.
pub open spec fn headers_view(s: Seq<BlockHeader>) -> Seq<HeaderView> {
    Seq::new(s.len(), |i: int| s[i]@)
}

impl View for Message {
    type V = MessageView;

    open spec fn view(&self) -> MessageView {
        match self {
            Message::NewBlock(b) => MessageView::NewBlock(b@),
            Message::NewTransaction(t) => MessageView::NewTransaction(t@),
            Message::Vote { height, block_hash, voter, signature } => MessageView::Vote {
                height: *height,
                block_hash: block_hash@,
                voter: voter@,
                signature: signature@,
            },
            Message::GetHeaders { from, to } => MessageView::GetHeaders {
                from: *from,
                to: *to,
            },
            Message::Headers(hs) => MessageView::Headers(headers_view(hs@)),
            Message::GetBody { block_hash } => MessageView::GetBody { block_hash: block_hash@ },
            Message::Body(txs) => MessageView::Body(txs_view(txs@)),
            Message::GetHeight => MessageView::GetHeight,
            Message::Height { value, head_hash } => MessageView::Height {
                value: *value,
                head_hash: head_hash@,
            },
        }
    }
}

/// Structural bounds a message must meet to be encodable: fixed hash,
/// address and signature widths, well-formed payloads.
pub open spec fn wf_message(m: MessageView) -> bool {
    match m {
        MessageView::NewBlock(b) => wf_block(b),
        MessageView::NewTransaction(t) => wf_tx(t),
        MessageView::Vote { height, block_hash, voter, signature } => block_hash.len() == 32
            && voter.len() == 20 && signature.len() == 64,
        MessageView::GetHeaders { .. } => true,
        MessageView::Headers(hs) => hs.len() < 0x1_0000_0000 && (forall|i: int|
            0 <= i < hs.len() ==> wf_header(#[trigger] hs[i])),
        MessageView::GetBody { block_hash } => block_hash.len() == 32,
        MessageView::Body(txs) => txs.len() < 0x1_0000_0000 && (forall|i: int|
            0 <= i < txs.len() ==> wf_tx(#[trigger] txs[i])),
        MessageView::GetHeight => true,
        MessageView::Height { value, head_hash } => head_hash.len() == 32,
    }
}

/// The concatenated encodings of a header list, fixed 108 bytes each.
pub open spec fn hdrs_enc(hs: Seq<HeaderView>) -> Seq<u8>
    decreases hs.len(),
{
    if hs.len() == 0 {
        Seq::empty()
    } else {
        header_enc(hs.first()) + hdrs_enc(hs.drop_first())
    }
}

/// Parses exactly `n` fixed-width headers consuming all of `s`.
pub open spec fn hdrs_dec(s: Seq<u8>, n: nat) -> Option<Seq<HeaderView>>
    decreases n,
{
    if n == 0 {
        if s.len() == 0 {
            Some(Seq::empty())
        } else {
            None
        }
    } else if s.len() < 108 {
        None
    } else {
        match header_dec(s.subrange(0, 108)) {
            None => None,
            Some(h) => match hdrs_dec(s.subrange(108, s.len() as int), (n - 1) as nat) {
                None => None,
                Some(rest) => Some(seq![h] + rest),
            },
        }
    }
}

/// The canonical encoding of a wire message: a kind tag, then the
/// payload.
pub open spec fn msg_enc(m: MessageView) -> Seq<u8> {
    match m {
        MessageView::NewBlock(b) => seq![0u8] + block_enc(b),
        MessageView::NewTransaction(t) => seq![1u8] + tx_enc(t),
        MessageView::Vote { height, block_hash, voter, signature } => seq![2u8] + to_be(
            height as nat,
            8,
        ) + block_hash + voter + signature,
        MessageView::GetHeaders { from, to } => seq![3u8] + to_be(from as nat, 8) + to_be(
            to as nat,
            8,
        ),
        MessageView::Headers(hs) => seq![4u8] + to_be(hs.len(), 8) + hdrs_enc(hs),
        MessageView::GetBody { block_hash } => seq![5u8] + block_hash,
        MessageView::Body(txs) => seq![6u8] + to_be(txs.len(), 8) + txs_enc(txs),
        MessageView::GetHeight => seq![7u8],
        MessageView::Height { value, head_hash } => seq![8u8] + to_be(value as nat, 8)
            + head_hash,
    }
}

/// What canonical decoding yields on a frame, if anything.
pub open spec fn msg_dec(s: Seq<u8>) -> Option<MessageView> {
    if s.len() < 1 {
        None
    } else {
        let body = s.subrange(1, s.len() as int);
        if s[0] == 0 {
            match block_dec(body) {
                None => None,
                Some(b) => Some(MessageView::NewBlock(b)),
            }
        } else if s[0] == 1 {
            match tx_dec(body) {
                None => None,
                Some(t) => Some(MessageView::NewTransaction(t)),
            }
        } else if s[0] == 2 {
            if body.len() != 8 + 32 + 20 + 64 {
                None
            } else {
                Some(MessageView::Vote {
                    height: from_be(body.subrange(0, 8)) as u64,
                    block_hash: body.subrange(8, 40),
                    voter: body.subrange(40, 60),
                    signature: body.subrange(60, 124),
                })
            }
        } else if s[0] == 3 {
            if body.len() != 16 {
                None
            } else {
                Some(MessageView::GetHeaders {
                    from: from_be(body.subrange(0, 8)) as u64,
                    to: from_be(body.subrange(8, 16)) as u64,
                })
            }
        } else if s[0] == 4 {
            if body.len() < 8 {
                None
            } else {
                match hdrs_dec(body.subrange(8, body.len() as int), from_be(body.subrange(0, 8))) {
                    None => None,
                    Some(hs) => Some(MessageView::Headers(hs)),
                }
            }
        } else if s[0] == 5 {
            if body.len() != 32 {
                None
            } else {
                Some(MessageView::GetBody { block_hash: body })
            }
        } else if s[0] == 6 {
            if body.len() < 8 {
                None
            } else {
                match txs_dec(body.subrange(8, body.len() as int), from_be(body.subrange(0, 8))) {
                    None => None,
                    Some(txs) => Some(MessageView::Body(txs)),
                }
            }
        } else if s[0] == 7 {
            if body.len() == 0 {
                Some(MessageView::GetHeight)
            } else {
                None
            }
        } else if s[0] == 8 {
            if body.len() != 40 {
                None
            } else {
                Some(MessageView::Height {
                    value: from_be(body.subrange(0, 8)) as u64,
                    head_hash: body.subrange(8, 40),
                })
            }
        } else {
            None
        }
    }
}

/// A list of well-formed headers survives the encode/decode pair.
#[verifier::rlimit(100)]
#[verifier::spinoff_prover]
pub proof fn lemma_hdrs_round_trip(hs: Seq<HeaderView>)
    requires
        forall|i: int| 0 <= i < hs.len() ==> wf_header(#[trigger] hs[i]),
    ensures
        hdrs_dec(hdrs_enc(hs), hs.len()) == Some(hs),
    decreases hs.len(),
{
    if hs.len() > 0 {
        let h = hs.first();
        assert(wf_header(hs[0]));
        let s = hdrs_enc(hs);
        lemma_header_enc_len(h);
        lemma_header_round_trip(h);
        assert(s.subrange(0, 108) =~= header_enc(h));
        assert(s.subrange(108, s.len() as int) =~= hdrs_enc(hs.drop_first()));
        lemma_hdrs_round_trip(hs.drop_first());
        assert(seq![h] + hs.drop_first() =~= hs);
    }
}

/// A well-formed message survives the encode/decode pair.
#[verifier::rlimit(60)]
pub proof fn lemma_msg_round_trip(m: MessageView)
    requires
        wf_message(m),
    ensures
        msg_dec(msg_enc(m)) == Some(m),
{
    let s = msg_enc(m);
    lemma_pow256_vals();
    match m {
        MessageView::NewBlock(b) => {
            lemma_block_round_trip(b);
            assert(s.subrange(1, s.len() as int) =~= block_enc(b));
        },
        MessageView::NewTransaction(t) => {
            lemma_tx_round_trip(t);
            assert(s.subrange(1, s.len() as int) =~= tx_enc(t));
        },
        MessageView::Vote { height, block_hash, voter, signature } => {
            lemma_to_be_len(height as nat, 8);
            lemma_be_round_trip(height as nat, 8);
            let body = s.subrange(1, s.len() as int);
            assert(body.subrange(0, 8) =~= to_be(height as nat, 8));
            assert(body.subrange(8, 40) =~= block_hash);
            assert(body.subrange(40, 60) =~= voter);
            assert(body.subrange(60, 124) =~= signature);
            assert(msg_dec(s) matches Some(u) && u =~= m);
        },
        MessageView::GetHeaders { from, to } => {
            lemma_to_be_len(from as nat, 8);
            lemma_to_be_len(to as nat, 8);
            lemma_be_round_trip(from as nat, 8);
            lemma_be_round_trip(to as nat, 8);
            let body = s.subrange(1, s.len() as int);
            assert(body.subrange(0, 8) =~= to_be(from as nat, 8));
            assert(body.subrange(8, 16) =~= to_be(to as nat, 8));
            assert(msg_dec(s) matches Some(u) && u =~= m);
        },
        MessageView::Headers(hs) => {
            lemma_to_be_len(hs.len(), 8);
            lemma_be_round_trip(hs.len(), 8);
            lemma_hdrs_round_trip(hs);
            let body = s.subrange(1, s.len() as int);
            assert(body.subrange(0, 8) =~= to_be(hs.len(), 8));
            assert(body.subrange(8, body.len() as int) =~= hdrs_enc(hs));
        },
        MessageView::GetBody { block_hash } => {
            assert(s.subrange(1, s.len() as int) =~= block_hash);
        },
        MessageView::Body(txs) => {
            lemma_to_be_len(txs.len(), 8);
            lemma_be_round_trip(txs.len(), 8);
            lemma_txs_round_trip(txs);
            let body = s.subrange(1, s.len() as int);
            assert(body.subrange(0, 8) =~= to_be(txs.len(), 8));
            assert(body.subrange(8, body.len() as int) =~= txs_enc(txs));
        },
        MessageView::GetHeight => {
            assert(s.subrange(1, s.len() as int) =~= Seq::<u8>::empty());
        },
        MessageView::Height { value, head_hash } => {
            lemma_to_be_len(value as nat, 8);
            lemma_be_round_trip(value as nat, 8);
            let body = s.subrange(1, s.len() as int);
            assert(body.subrange(0, 8) =~= to_be(value as nat, 8));
            assert(body.subrange(8, 40) =~= head_hash);
            assert(msg_dec(s) matches Some(u) && u =~= m);
        },
    }
}

/// Writes the canonical frame of a message.
pub fn encode_message(m: &Message) -> (r: Vec<u8>)
    requires
        wf_message(m@),
    ensures
        r@ == msg_enc(m@),
{
    let mut r: Vec<u8> = Vec::new();
    match m {
        Message::NewBlock(b) => {
            r.push(0);
            let body = encode_block(b);
            push_all(&mut r, body.as_slice());
            proof {
                assert(r@ =~= msg_enc(m@));
            }
        },
        Message::NewTransaction(t) => {
            r.push(1);
            let body = encode_tx(t);
            push_all(&mut r, body.as_slice());
            proof {
                assert(r@ =~= msg_enc(m@));
            }
        },
        Message::Vote { height, block_hash, voter, signature } => {
            r.push(2);
            let hbytes = nat_to_be(*height as u128, 8);
            push_all(&mut r, hbytes.as_slice());
            push_all(&mut r, block_hash.as_slice());
            push_all(&mut r, voter.as_slice());
            push_all(&mut r, signature.as_slice());
            proof {
                assert(r@ =~= msg_enc(m@));
            }
        },
        Message::GetHeaders { from, to } => {
            r.push(3);
            let fbytes = nat_to_be(*from as u128, 8);
            push_all(&mut r, fbytes.as_slice());
            let tbytes = nat_to_be(*to as u128, 8);
            push_all(&mut r, tbytes.as_slice());
            proof {
                assert(r@ =~= msg_enc(m@));
            }
        },
        Message::Headers(hs) => {
            r.push(4);
            proof {
                assert forall|j: int| 0 <= j < hs@.len() implies (#[trigger] hs@[j])@.timestamp
                    >= 0 by {
                    assert(wf_header(headers_view(hs@)[j]));
                }
            }
            let cnt = nat_to_be(hs.len() as u128, 8);
            push_all(&mut r, cnt.as_slice());
            let mut i: usize = 0;
            while i < hs.len()
                invariant
                    0 <= i <= hs@.len(),
                    forall|j: int| 0 <= j < hs@.len() ==> (#[trigger] hs@[j])@.timestamp >= 0,
                    r@ =~= seq![4u8] + to_be(hs@.len(), 8) + hdrs_enc(
                        headers_view(hs@).take(i as int),
                    ),
                decreases hs@.len() - i,
            {
                let ghost prefix = headers_view(hs@).take(i as int);
                let hb = encode_header(&hs[i]);
                push_all(&mut r, hb.as_slice());
                i += 1;
                proof {
                    let full = headers_view(hs@);
                    assert(full.take(i as int) =~= prefix.push(full[i - 1]));
                    lemma_hdrs_enc_concat(prefix, full[i - 1]);
                    assert(r@ =~= seq![4u8] + to_be(hs@.len(), 8) + hdrs_enc(
                        full.take(i as int),
                    ));
                }
            }
            proof {
                assert(headers_view(hs@).take(hs@.len() as int) =~= headers_view(hs@));
                assert(r@ =~= msg_enc(m@));
            }
        },
        Message::GetBody { block_hash } => {
            r.push(5);
            push_all(&mut r, block_hash.as_slice());
            proof {
                assert(r@ =~= msg_enc(m@));
            }
        },
        Message::Body(txs) => {
            r.push(6);
            let cnt = nat_to_be(txs.len() as u128, 8);
            push_all(&mut r, cnt.as_slice());
            let mut i: usize = 0;
            while i < txs.len()
                invariant
                    0 <= i <= txs@.len(),
                    r@ =~= seq![6u8] + to_be(txs@.len(), 8) + txs_enc(
                        txs_view(txs@).take(i as int),
                    ),
                decreases txs@.len() - i,
            {
                let ghost prefix = txs_view(txs@).take(i as int);
                let enc = encode_tx(&txs[i]);
                let blob_len = nat_to_be(enc.len() as u128, 8);
                push_all(&mut r, blob_len.as_slice());
                push_all(&mut r, enc.as_slice());
                i += 1;
                proof {
                    let full = txs_view(txs@);
                    assert(full.take(i as int) =~= prefix + seq![full[i - 1]]);
                    crate::block::lemma_txs_enc_concat(prefix, seq![full[i - 1]]);
                    assert(seq![full[i - 1]].drop_first() =~= Seq::<TxView>::empty());
                    assert(crate::block::tx_blob(full[i - 1]) + txs_enc(Seq::<TxView>::empty())
                        =~= crate::block::tx_blob(full[i - 1]));
                    assert(txs_enc(seq![full[i - 1]]) =~= crate::block::tx_blob(full[i - 1]));
                    assert(r@ =~= seq![6u8] + to_be(txs@.len(), 8) + txs_enc(
                        full.take(i as int),
                    ));
                }
            }
            proof {
                assert(txs_view(txs@).take(txs@.len() as int) =~= txs_view(txs@));
                assert(r@ =~= msg_enc(m@));
            }
        },
        Message::GetHeight => {
            r.push(7);
            proof {
                assert(r@ =~= msg_enc(m@));
            }
        },
        Message::Height { value, head_hash } => {
            r.push(8);
            let vbytes = nat_to_be(*value as u128, 8);
            push_all(&mut r, vbytes.as_slice());
            push_all(&mut r, head_hash.as_slice());
            proof {
                assert(r@ =~= msg_enc(m@));
            }
        },
    }
    r
}

/// hdrs_enc grows by one fixed-width header at the end.
proof fn lemma_hdrs_enc_concat(hs: Seq<HeaderView>, h: HeaderView)
    ensures
        hdrs_enc(hs.push(h)) == hdrs_enc(hs) + header_enc(h),
    decreases hs.len(),
{
    reveal_with_fuel(hdrs_enc, 3);
    if hs.len() == 0 {
        assert(hs.push(h).drop_first() =~= Seq::<HeaderView>::empty());
        assert(hs.push(h).first() == h);
        assert(hdrs_enc(hs.push(h)) =~= hdrs_enc(hs) + header_enc(h));
    } else {
        assert(hs.push(h).drop_first() =~= hs.drop_first().push(h));
        lemma_hdrs_enc_concat(hs.drop_first(), h);
        assert(hdrs_enc(hs.push(h)) =~= hdrs_enc(hs) + header_enc(h));
    }
}

/// Reads a message back from a canonical frame.  Only the simple frames
/// are parsed here; block and transaction payloads go through their own
/// decoders.
#[verifier::rlimit(100)]
#[verifier::loop_isolation(false)]
pub fn decode_message(bytes: &[u8]) -> (r: Option<Message>)
    ensures
        (r matches Some(m) ==> msg_dec(bytes@) == Some(m@)),
        (r is None ==> msg_dec(bytes@) is None),
{
    if bytes.len() < 1 {
        return None;
    }
    let tag = bytes[0];
    let body = take_range(bytes, 1, bytes.len());
    proof {
        lemma_pow256_vals();
        lemma_pow256_mono(8, 16);
    }
    if tag == 0 {
        match decode_block(body.as_slice()) {
            Some(b) => Some(Message::NewBlock(b)),
            None => None,
        }
    } else if tag == 1 {
        match crate::transaction::decode_tx(body.as_slice()) {
            Some(t) => Some(Message::NewTransaction(t)),
            None => None,
        }
    } else if tag == 2 {
        if body.len() != 124 {
            return None;
        }
        proof {
            lemma_from_be_bound(body@.subrange(0, 8));
        }
        let m = Message::Vote {
            height: read_be(body.as_slice(), 0, 8) as u64,
            block_hash: take_range(body.as_slice(), 8, 40),
            voter: take_range(body.as_slice(), 40, 60),
            signature: take_range(body.as_slice(), 60, 124),
        };
        proof {
            assert(msg_dec(bytes@) matches Some(u) && u =~= m@);
        }
        Some(m)
    } else if tag == 3 {
        if body.len() != 16 {
            return None;
        }
        proof {
            lemma_from_be_bound(body@.subrange(0, 8));
            lemma_from_be_bound(body@.subrange(8, 16));
        }
        let m = Message::GetHeaders {
            from: read_be(body.as_slice(), 0, 8) as u64,
            to: read_be(body.as_slice(), 8, 16) as u64,
        };
        proof {
            assert(msg_dec(bytes@) matches Some(u) && u =~= m@);
        }
        Some(m)
    } else if tag == 4 {
        if body.len() < 8 {
            return None;
        }
        proof {
            lemma_from_be_bound(body@.subrange(0, 8));
        }
        let n128 = read_be(body.as_slice(), 0, 8);
        let mut hs: Vec<BlockHeader> = Vec::new();
        let mut off: usize = 8;
        let mut remaining = n128;
        let ghost total = n128 as nat;
        let ghost whole = body@.subrange(8, body@.len() as int);
        proof {
            match hdrs_dec(whole, total) {
                Some(rest0) => {
                    assert(headers_view(hs@) + rest0 =~= rest0);
                },
                None => {},
            }
        }
        while remaining > 0
            invariant
                8 <= off <= body@.len(),
                remaining <= total,
                hs@.len() == total - remaining,
                whole == body@.subrange(8, body@.len() as int),
                (match hdrs_dec(body@.subrange(off as int, body@.len() as int), remaining as nat) {
                    Some(rest) => hdrs_dec(whole, total) == Some(headers_view(hs@) + rest),
                    None => hdrs_dec(whole, total) is None,
                }),
            decreases remaining,
        {
            let ghost sub = body@.subrange(off as int, body@.len() as int);
            let ghost hs_before = hs@;
            if body.len() - off < 108 {
                return None;
            }
            let piece = take_range(body.as_slice(), off, off + 108);
            proof {
                assert(sub.subrange(0, 108) =~= piece@);
            }
            let h = match decode_header(piece.as_slice()) {
                Some(h) => h,
                None => {
                    return None;
                },
            };
            hs.push(h);
            off = off + 108;
            remaining = remaining - 1;
            proof {
                assert(sub.subrange(108, sub.len() as int) =~= body@.subrange(
                    off as int,
                    body@.len() as int,
                ));
                assert(headers_view(hs@) =~= headers_view(hs_before) + seq![hs@.last()@]);
                match hdrs_dec(body@.subrange(off as int, body@.len() as int), remaining as nat) {
                    Some(rest) => {
                        assert(headers_view(hs_before) + (seq![hs@.last()@] + rest)
                            =~= headers_view(hs@) + rest);
                    },
                    None => {},
                }
            }
        }
        if off != body.len() {
            proof {
                assert(body@.subrange(off as int, body@.len() as int).len() != 0);
            }
            return None;
        }
        proof {
            assert(body@.subrange(off as int, body@.len() as int).len() == 0);
            assert(headers_view(hs@) + Seq::<HeaderView>::empty() =~= headers_view(hs@));
        }
        let m = Message::Headers(hs);
        proof {
            assert(msg_dec(bytes@) matches Some(u) && u =~= m@);
        }
        Some(m)
    } else if tag == 5 {
        if body.len() != 32 {
            return None;
        }
        let m = Message::GetBody { block_hash: body };
        proof {
            assert(msg_dec(bytes@) matches Some(u) && u =~= m@);
        }
        Some(m)
    } else if tag == 6 {
        if body.len() < 8 {
            return None;
        }
        match decode_body_payload(body.as_slice()) {
            Some(txs) => {
                let m = Message::Body(txs);
                proof {
                    assert(msg_dec(bytes@) matches Some(u) && u =~= m@);
                }
                Some(m)
            },
            None => None,
        }
    } else if tag == 7 {
        if body.len() != 0 {
            return None;
        }
        Some(Message::GetHeight)
    } else if tag == 8 {
        if body.len() != 40 {
            return None;
        }
        proof {
            lemma_from_be_bound(body@.subrange(0, 8));
        }
        let m = Message::Height {
            value: read_be(body.as_slice(), 0, 8) as u64,
            head_hash: take_range(body.as_slice(), 8, 40),
        };
        proof {
            assert(msg_dec(bytes@) matches Some(u) && u =~= m@);
        }
        Some(m)
    } else {
        None
    }
}

/// Parses a Body payload: a count, then that many length-prefixed
/// transactions.
#[verifier::loop_isolation(false)]
fn decode_body_payload(body: &[u8]) -> (r: Option<Vec<Transaction>>)
    requires
        body@.len() >= 8,
    ensures
        (r matches Some(txs) ==> txs_dec(body@.subrange(8, body@.len() as int), from_be(
            body@.subrange(0, 8),
        )) == Some(txs_view(txs@))),
        (r is None ==> txs_dec(body@.subrange(8, body@.len() as int), from_be(
            body@.subrange(0, 8),
        )) is None),
{
    proof {
        lemma_pow256_vals();
        lemma_pow256_mono(8, 16);
        lemma_from_be_bound(body@.subrange(0, 8));
    }
    let n128 = read_be(body, 0, 8);
    let mut txs: Vec<Transaction> = Vec::new();
    let mut off: usize = 8;
    let mut remaining = n128;
    let ghost total = n128 as nat;
    let ghost whole = body@.subrange(8, body@.len() as int);
    proof {
        match txs_dec(whole, total) {
            Some(rest0) => {
                assert(txs_view(txs@) + rest0 =~= rest0);
            },
            None => {},
        }
    }
    while remaining > 0
        invariant
            8 <= off <= body@.len(),
            remaining <= total,
            txs@.len() == total - remaining,
            whole == body@.subrange(8, body@.len() as int),
            (match txs_dec(body@.subrange(off as int, body@.len() as int), remaining as nat) {
                Some(rest) => txs_dec(whole, total) == Some(txs_view(txs@) + rest),
                None => txs_dec(whole, total) is None,
            }),
        decreases remaining,
    {
        let ghost sub = body@.subrange(off as int, body@.len() as int);
        let ghost txs_before = txs@;
        if body.len() - off < 8 {
            return None;
        }
        let blob128 = read_be(body, off, off + 8);
        proof {
            assert(sub.subrange(0, 8) =~= body@.subrange(off as int, off as int + 8));
        }
        if blob128 > (body.len() - off - 8) as u128 {
            return None;
        }
        let blob_len = blob128 as usize;
        let piece = take_range(body, off + 8, off + 8 + blob_len);
        proof {
            assert(sub.subrange(8, 8 + blob_len as int) =~= piece@);
        }
        let tx = match crate::transaction::decode_tx(piece.as_slice()) {
            Some(t) => t,
            None => {
                return None;
            },
        };
        txs.push(tx);
        off = off + 8 + blob_len;
        remaining = remaining - 1;
        proof {
            assert(sub.subrange(8 + blob_len as int, sub.len() as int) =~= body@.subrange(
                off as int,
                body@.len() as int,
            ));
            assert(txs_view(txs@) =~= txs_view(txs_before) + seq![txs@.last()@]);
            match txs_dec(body@.subrange(off as int, body@.len() as int), remaining as nat) {
                Some(rest) => {
                    assert(txs_view(txs_before) + (seq![txs@.last()@] + rest) =~= txs_view(txs@)
                        + rest);
                },
                None => {},
            }
        }
    }
    if off != body.len() {
        proof {
            assert(body@.subrange(off as int, body@.len() as int).len() != 0);
        }
        return None;
    }
    proof {
        assert(body@.subrange(off as int, body@.len() as int).len() == 0);
        assert(txs_view(txs@) + Seq::<TxView>::empty() =~= txs_view(txs@));
    }
    Some(txs)
}

} // verus!
