//! Messages between nodes: one frame each, `kind`, `opcode`, a `u32` body length, the
//! body, and for a query the keyspace after a one-byte length.
use vstd::prelude::*;
use vstd::utf8::*;
use vstd::string::*;
use crate::notation::{be32, decode32, lemma_be32_round_trip, push_all, text_from_utf8, ByteReader, DecodeError};

verus! {

#[derive(Debug, Clone, PartialEq)]
pub enum InternalMessage {
    /// 0: periodic gossip, 1: a new node's handshake.
    Gossip { opcode: u8, body: String },
    /// 0..5: CREATE KEYSPACE, CREATE TABLE, INSERT, SELECT, UPDATE, DELETE.
    Query { opcode: u8, body: String, keyspace_name: String },
    /// 0: OK, 1: ERROR.
    Response { opcode: u8, body: String },
}

/// Kind, opcode, body and keyspace (empty but for a query).
pub open spec fn msg_view(m: InternalMessage) -> (u8, u8, Seq<char>, Seq<char>) {
    match m {
        InternalMessage::Gossip { opcode, body } => (0u8, opcode, body@, Seq::empty()),
        InternalMessage::Query { opcode, body, keyspace_name } => (1u8, opcode, body@, keyspace_name@),
        InternalMessage::Response { opcode, body } => (2u8, opcode, body@, Seq::empty()),
    }
}

/// The frame of a message.
pub open spec fn msg_enc(v: (u8, u8, Seq<char>, Seq<char>)) -> Seq<u8> {
    seq![v.0, v.1] + be32(encode_utf8(v.2).len() as u32) + encode_utf8(v.2) + if v.0 == 1 {
        seq![encode_utf8(v.3).len() as u8] + encode_utf8(v.3)
    } else {
        Seq::empty()
    }
}

/// A body fits its `u32` length and a keyspace its one-byte length.
pub open spec fn msg_fits(v: (u8, u8, Seq<char>, Seq<char>)) -> bool {
    &&& encode_utf8(v.2).len() <= u32::MAX
    &&& encode_utf8(v.3).len() <= u8::MAX
    &&& v.0 <= 2
    &&& v.0 != 1 ==> v.3.len() == 0
}

/// The message at the front of `b`, with the bytes it takes.
pub open spec fn parse_msg(b: Seq<u8>) -> Option<((u8, u8, Seq<char>, Seq<char>), int)> {
    if b.len() < 6 || b[0] > 2 {
        None
    } else {
        let n = decode32(b.skip(2)) as int;
        if b.len() < 6 + n || !valid_utf8(b.subrange(6, 6 + n)) {
            None
        } else if b[0] != 1 {
            Some(((b[0], b[1], decode_utf8(b.subrange(6, 6 + n)), Seq::empty()), 6 + n))
        } else if b.len() < 7 + n {
            None
        } else {
            let k = b[6 + n] as int;
            if b.len() < 7 + n + k || !valid_utf8(b.subrange(7 + n, 7 + n + k)) {
                None
            } else {
                Some(((1u8, b[1], decode_utf8(b.subrange(6, 6 + n)), decode_utf8(b.subrange(7 + n, 7 + n + k))), 7 + n + k))
            }
        }
    }
}

/// A peer frame reads back as the message that was written, whatever follows it.
pub proof fn lemma_msg_round_trip(v: (u8, u8, Seq<char>, Seq<char>), t: Seq<u8>)
    requires
        msg_fits(v),
    ensures
        parse_msg(msg_enc(v) + t) == Some((v, msg_enc(v).len() as int)),
{
    let b = msg_enc(v) + t;
    let body = encode_utf8(v.2);
    let ks = encode_utf8(v.3);
    let n = body.len() as int;
    lemma_be32_round_trip(n as u32);
    assert(b.skip(2).subrange(0, 4) =~= be32(n as u32));
    assert(decode32(b.skip(2)) == decode32(b.skip(2).subrange(0, 4)));
    assert(b.subrange(6, 6 + n) =~= body);
    encode_utf8_valid_utf8(v.2);
    encode_utf8_decode_utf8(v.2);
    if v.0 == 1 {
        assert(b[6 + n] == ks.len() as u8);
        assert(b.subrange(7 + n, 7 + n + ks.len()) =~= ks);
        encode_utf8_valid_utf8(v.3);
        encode_utf8_decode_utf8(v.3);
    } else {
        assert(v.3 =~= Seq::<char>::empty());
    }
}

impl InternalMessage {
    /// The message's frame.
    pub fn to_bytes(&self) -> (r: Vec<u8>)
        requires
            msg_fits(msg_view(*self)),
        ensures
            r@ == msg_enc(msg_view(*self)),
    {
        let mut buffer: Vec<u8> = Vec::new();
        let (kind, opcode, body) = match self {
            InternalMessage::Gossip { opcode, body } => (0u8, *opcode, body),
            InternalMessage::Query { opcode, body, .. } => (1u8, *opcode, body),
            InternalMessage::Response { opcode, body } => (2u8, *opcode, body),
        };
        buffer.push(kind);
        buffer.push(opcode);
        let bytes = body.as_str().as_bytes();
        let len = bytes.len() as u32;
        let lb = [(len >> 24) as u8, (len >> 16) as u8, (len >> 8) as u8, len as u8];
        assert(lb@ =~= be32(len));
        push_all(&mut buffer, &lb);
        push_all(&mut buffer, bytes);
        if let InternalMessage::Query { keyspace_name, .. } = self {
            let ks = keyspace_name.as_str().as_bytes();
            buffer.push(ks.len() as u8);
            push_all(&mut buffer, ks);
        }
        assert(buffer@ =~= msg_enc(msg_view(*self)));
        buffer
    }

    /// Reads a message from the front of its frame.
    pub fn from_bytes(bytes: &[u8]) -> (r: Result<InternalMessage, DecodeError>)
        ensures
            match parse_msg(bytes@) {
                Some((v, _)) => r is Ok && msg_view(r->Ok_0) == v,
                None => r is Err,
            },
    {
        let b = bytes;
        if b.len() < 6 || b[0] > 2 {
            return Err(DecodeError::UnexpectedEnd);
        }
        let n: u32 = ((b[2] as u32) << 24) | ((b[3] as u32) << 16) | ((b[4] as u32) << 8) | (b[5] as u32);
        assert(b@.skip(2)[0] == b@[2] && b@.skip(2)[1] == b@[3] && b@.skip(2)[2] == b@[4] && b@.skip(2)[3] == b@[5]);
        let mut reader = ByteReader::new(b);
        let _ = reader.take(6);
        let body_bytes = match reader.take(n as usize) {
            Some(v) => v,
            None => return Err(DecodeError::UnexpectedEnd),
        };
        assert(body_bytes@ =~= b@.subrange(6, 6 + n as int));
        let body = match text_from_utf8(body_bytes) {
            Some(s) => s,
            None => return Err(DecodeError::InvalidText),
        };
        if b[0] == 0 {
            return Ok(InternalMessage::Gossip { opcode: b[1], body });
        }
        if b[0] == 2 {
            return Ok(InternalMessage::Response { opcode: b[1], body });
        }
        let k = match reader.take(1) {
            Some(v) => v[0],
            None => return Err(DecodeError::UnexpectedEnd),
        };
        let ks_bytes = match reader.take(k as usize) {
            Some(v) => v,
            None => return Err(DecodeError::UnexpectedEnd),
        };
        assert(ks_bytes@ =~= b@.subrange(7 + n as int, 7 + n as int + k as int));
        let keyspace_name = match text_from_utf8(ks_bytes) {
            Some(s) => s,
            None => return Err(DecodeError::InvalidText),
        };
        Ok(InternalMessage::Query { opcode: b[1], body, keyspace_name })
    }
}

/// Hints: for each peer id, the writes it missed, oldest first.
pub open spec fn hints_for(hints: Seq<(String, Vec<InternalMessage>)>, peer: Seq<char>) -> Seq<InternalMessage>
    decreases hints.len(),
{
    if hints.len() == 0 {
        Seq::empty()
    } else {
        (if hints[0].0@ == peer { hints[0].1@ } else { Seq::empty() }) + hints_for(hints.drop_first(), peer)
    }
}

pub proof fn lemma_hints_push(hints: Seq<(String, Vec<InternalMessage>)>, e: (String, Vec<InternalMessage>), peer: Seq<char>)
    ensures
        hints_for(hints.push(e), peer) == hints_for(hints, peer) + (if e.0@ == peer { e.1@ } else { Seq::empty() }),
    decreases hints.len(),
{
    if hints.len() == 0 {
        assert(hints.push(e).drop_first() =~= hints);
        assert(hints_for(hints.push(e), peer) =~= hints_for(hints, peer) + (if e.0@ == peer { e.1@ } else { Seq::empty() }));
    } else {
        lemma_hints_push(hints.drop_first(), e, peer);
        assert(hints.push(e).drop_first() =~= hints.drop_first().push(e));
        assert(hints_for(hints.push(e), peer) =~= hints_for(hints, peer) + (if e.0@ == peer { e.1@ } else { Seq::empty() }));
    }
}

/// The messages whose position `delivered` does not mark as sent.
pub open spec fn survivors(msgs: Seq<InternalMessage>, delivered: Seq<bool>) -> Seq<InternalMessage>
    decreases msgs.len(),
{
    if msgs.len() == 0 {
        Seq::empty()
    } else {
        survivors(msgs.drop_last(), delivered) + if msgs.len() - 1 < delivered.len() && delivered[msgs.len() - 1] {
            Seq::empty()
        } else {
            seq![msgs.last()]
        }
    }
}

/// Queues a write that `peer` missed, after the ones already waiting.
pub fn add_hint(hints: &mut Vec<(String, Vec<InternalMessage>)>, peer: &str, message: InternalMessage)
    ensures
        forall|p: Seq<char>| #[trigger] hints_for(final(hints)@, p) == if p == peer@ {
            hints_for(old(hints)@, p).push(message)
        } else {
            hints_for(old(hints)@, p)
        },
{
    let ghost before = hints@;
    let e = (peer.to_owned(), vec![message]);
    let ghost ge = e;
    hints.push(e);
    proof {
        assert forall|p: Seq<char>| #[trigger] hints_for(hints@, p) == if p == peer@ {
            hints_for(before, p).push(message)
        } else {
            hints_for(before, p)
        } by {
            lemma_hints_push(before, ge, p);
            assert(ge.1@ =~= seq![message]);
        }
    }
}

/// Whether a message is a SELECT, which is never kept as a hint.
pub open spec fn is_select(m: InternalMessage) -> bool {
    m matches InternalMessage::Query { opcode, .. } && opcode == 3
}

/// Records the outcome of sending `message` to `peer`: a write that did not get through is
/// queued as a hint for that peer; a delivered message, or a read, leaves the hints alone.
pub fn record_delivery(hints: &mut Vec<(String, Vec<InternalMessage>)>, peer: &str, message: InternalMessage, delivered: bool)
    ensures
        forall|p: Seq<char>| #[trigger] hints_for(final(hints)@, p) == if p == peer@ && !delivered && !is_select(message) {
            hints_for(old(hints)@, p).push(message)
        } else {
            hints_for(old(hints)@, p)
        },
{
    let select = match &message {
        InternalMessage::Query { opcode, .. } => *opcode == 3,
        _ => false,
    };
    if !delivered && !select {
        add_hint(hints, peer, message);
    }
}

/// After a replay to `peer`, drops the hints it received: `delivered[i]` tells whether
/// the `i`-th hint of `peer`, oldest first, got through. The others stay, in order;
/// the hints of other peers are untouched.
pub fn remove_delivered(hints: &mut Vec<(String, Vec<InternalMessage>)>, peer: &str, delivered: &Vec<bool>)
    requires
        hints_for(old(hints)@, peer@).len() < usize::MAX,
    ensures
        hints_for(final(hints)@, peer@) == survivors(hints_for(old(hints)@, peer@), delivered@),
        forall|p: Seq<char>| p != peer@ ==> #[trigger] hints_for(final(hints)@, p) == hints_for(old(hints)@, p),
{
    let ghost orig = hints@;
    let ghost all = hints_for(orig, peer@);
    let mut src: Vec<(String, Vec<InternalMessage>)> = Vec::new();
    core::mem::swap(hints, &mut src);
    let mut mine: Vec<InternalMessage> = Vec::new();
    let mut idx: usize = 0;
    while src.len() > 0
        invariant
            all.len() < usize::MAX,
            forall|p: Seq<char>| p != peer@ ==> #[trigger] hints_for(hints@, p) + hints_for(src@, p) == hints_for(orig, p),
            hints_for(hints@, peer@) == Seq::<InternalMessage>::empty(),
            idx <= all.len(),
            all == hints_for(orig, peer@),
            all.skip(idx as int) == hints_for(src@, peer@),
            mine@ == survivors(all.take(idx as int), delivered@),
        decreases src@.len(),
    {
        let ghost s0 = src@;
        let (p, mut msgs) = src.remove(0);
        assert(s0.drop_first() =~= src@);
        let ghost h0 = hints@;
        if crate::text::str_eq(p.as_str(), peer) {
            let ghost m0 = msgs@;
            assert(hints_for(s0, peer@) == m0 + hints_for(src@, peer@));
            while msgs.len() > 0
                invariant
                    idx <= all.len(),
                    all.len() < usize::MAX,
                    all.skip(idx as int) == msgs@ + hints_for(src@, peer@),
                    mine@ == survivors(all.take(idx as int), delivered@),
                    all == hints_for(orig, peer@),
                decreases msgs@.len(),
            {
                let ghost ms = msgs@;
                assert(all.skip(idx as int).len() > 0);
                assert(idx < all.len());
                let m = msgs.remove(0);
                proof {
                    assert(all.skip(idx as int)[0] == ms[0]);
                    assert(all.skip(idx as int)[0] == all[idx as int]);
                    assert(all.take(idx + 1).drop_last() =~= all.take(idx as int));
                    assert(all.take(idx + 1).last() == all[idx as int]);
                    assert(all.skip(idx + 1) =~= msgs@ + hints_for(src@, peer@)) by {
                        assert(all.skip(idx as int).drop_first() =~= all.skip(idx + 1));
                        assert(ms.drop_first() =~= msgs@);
                    }
                }
                if !(idx < delivered.len() && delivered[idx]) {
                    mine.push(m);
                    proof {
                        assert(mine@ =~= survivors(all.take(idx + 1), delivered@));
                    }
                } else {
                    proof {
                        assert(mine@ =~= survivors(all.take(idx + 1), delivered@));
                    }
                }
                idx = idx + 1;
            }
            proof {
                assert forall|q: Seq<char>| q != peer@ implies #[trigger] hints_for(hints@, q) + hints_for(src@, q) == hints_for(orig, q) by {
                    assert(hints_for(s0, q) == Seq::<InternalMessage>::empty() + hints_for(src@, q));
                    assert(Seq::<InternalMessage>::empty() + hints_for(src@, q) =~= hints_for(src@, q));
                }
            }
        } else {
            let ghost e = (p, msgs);
            hints.push((p, msgs));
            proof {
                lemma_hints_push(h0, e, peer@);
                assert(hints_for(hints@, peer@) =~= Seq::<InternalMessage>::empty());
                assert(hints_for(s0, peer@) =~= hints_for(src@, peer@));
                assert forall|q: Seq<char>| q != peer@ implies #[trigger] hints_for(hints@, q) + hints_for(src@, q) == hints_for(orig, q) by {
                    lemma_hints_push(h0, e, q);
                    if e.0@ == q {
                        assert(hints_for(s0, q) == e.1@ + hints_for(src@, q));
                        assert(hints_for(hints@, q) + hints_for(src@, q) =~= hints_for(h0, q) + hints_for(s0, q));
                    } else {
                        assert(hints_for(s0, q) =~= hints_for(src@, q));
                        assert(hints_for(hints@, q) =~= hints_for(h0, q));
                    }
                }
            }
        }
    }
    proof {
        assert(all.skip(idx as int).len() == 0);
        assert(all.take(idx as int) =~= all);
    }
    let ghost h1 = hints@;
    let e = (peer.to_owned(), mine);
    let ghost ge = e;
    hints.push(e);
    proof {
        lemma_hints_push(h1, ge, peer@);
        assert(hints_for(hints@, peer@) =~= survivors(all, delivered@));
        assert forall|q: Seq<char>| q != peer@ implies #[trigger] hints_for(hints@, q) == hints_for(orig, q) by {
            lemma_hints_push(h1, ge, q);
            assert(hints_for(src@, q) =~= Seq::<InternalMessage>::empty());
            assert(hints_for(h1, q) + Seq::<InternalMessage>::empty() =~= hints_for(h1, q));
            assert(hints_for(hints@, q) =~= hints_for(h1, q));
        }
    }
}

/// When every hint of a peer got through, none is left for it.
pub proof fn lemma_all_delivered(msgs: Seq<InternalMessage>, delivered: Seq<bool>)
    requires
        delivered.len() >= msgs.len(),
        forall|i: int| 0 <= i < msgs.len() ==> #[trigger] delivered[i],
    ensures
        survivors(msgs, delivered) == Seq::<InternalMessage>::empty(),
    decreases msgs.len(),
{
    if msgs.len() > 0 {
        lemma_all_delivered(msgs.drop_last(), delivered);
        assert(delivered[msgs.len() - 1]);
        assert(survivors(msgs, delivered) =~= Seq::<InternalMessage>::empty());
    }
}

} // verus!
