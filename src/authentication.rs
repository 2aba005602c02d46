//! The bodies of the authentication handshake: the challenge carries the server's
//! public key and the group, the response the client's public key and its shared key.
use vstd::prelude::*;
use crate::notation::{be64, decode64, lemma_be64_round_trip, push_all, short_text, string_enc, write_string};

verus! {

fn u64_bytes(v: u64) -> (r: Vec<u8>)
    ensures
        r@ == be64(v),
{
    let hi = (v >> 32) as u32;
    let lo = v as u32;
    let a = [
        (hi >> 24) as u8, (hi >> 16) as u8, (hi >> 8) as u8, hi as u8,
        (lo >> 24) as u8, (lo >> 16) as u8, (lo >> 8) as u8, lo as u8,
    ];
    let mut out: Vec<u8> = Vec::new();
    push_all(&mut out, &a);
    assert(out@ =~= be64(v));
    out
}

fn u64_at(bytes: &[u8], at: usize) -> (r: u64)
    requires
        at + 8 <= bytes@.len(),
    ensures
        r == decode64(bytes@.subrange(at as int, at + 8)),
{
    let ghost s = bytes@.subrange(at as int, at + 8);
    let hi: u32 = ((bytes[at] as u32) << 24) | ((bytes[at + 1] as u32) << 16) | ((bytes[at + 2] as u32) << 8) | (bytes[at + 3] as u32);
    let lo: u32 = ((bytes[at + 4] as u32) << 24) | ((bytes[at + 5] as u32) << 16) | ((bytes[at + 6] as u32) << 8) | (bytes[at + 7] as u32);
    assert(s.subrange(0, 4)[0] == bytes@[at as int] && s.subrange(0, 4)[1] == bytes@[at + 1] && s.subrange(0, 4)[2] == bytes@[at + 2] && s.subrange(0, 4)[3] == bytes@[at + 3]);
    assert(s.subrange(4, 8)[0] == bytes@[at + 4] && s.subrange(4, 8)[1] == bytes@[at + 5] && s.subrange(4, 8)[2] == bytes@[at + 6] && s.subrange(4, 8)[3] == bytes@[at + 7]);
    ((hi as u64) << 32) | (lo as u64)
}

/// The body of `AUTHENTICATE`: the authenticator's name.
pub fn serialize_authenticate(iauthenticator: &str) -> (r: Vec<u8>)
    requires
        short_text(iauthenticator@),
    ensures
        r@ == string_enc(iauthenticator@),
{
    let mut buffer: Vec<u8> = Vec::new();
    write_string(&mut buffer, iauthenticator);
    assert(buffer@ =~= string_enc(iauthenticator@));
    buffer
}

#[derive(Debug, Clone, Copy, PartialEq, Eq, Structural)]
pub struct AuthChallenge {
    pub public_key: u64,
    pub prime: u64,
    pub base: u64,
}

impl AuthChallenge {
    pub fn new(public_key: u64, prime: u64, base: u64) -> (r: Self)
        ensures
            r == (AuthChallenge { public_key, prime, base }),
    {
        AuthChallenge { public_key, prime, base }
    }

    /// Reads the three keys from the front of the body, each eight bytes, most
    /// significant first.
    pub fn deserialize(bytes: &[u8]) -> (r: Self)
        requires
            bytes@.len() >= 24,
        ensures
            r.public_key == decode64(bytes@.subrange(0, 8)),
            r.prime == decode64(bytes@.subrange(8, 16)),
            r.base == decode64(bytes@.subrange(16, 24)),
    {
        Self::new(u64_at(bytes, 0), u64_at(bytes, 8), u64_at(bytes, 16))
    }

    pub fn serialize(&self) -> (r: Vec<u8>)
        ensures
            r@ == be64(self.public_key) + be64(self.prime) + be64(self.base),
    {
        let mut bytes = u64_bytes(self.public_key);
        let p = u64_bytes(self.prime);
        let b = u64_bytes(self.base);
        push_all(&mut bytes, p.as_slice());
        push_all(&mut bytes, b.as_slice());
        bytes
    }
}

#[derive(Debug, Clone, Copy, PartialEq, Eq, Structural)]
pub struct AuthResponse {
    pub public_key: u64,
    pub shared_secret: u64,
}

impl AuthResponse {
    pub fn new(public_key: u64, shared_secret: u64) -> (r: Self)
        ensures
            r == (AuthResponse { public_key, shared_secret }),
    {
        AuthResponse { public_key, shared_secret }
    }

    /// Reads the client's public key and claimed shared key from the front of the body.
    pub fn deserialize(bytes: &[u8]) -> (r: Self)
        requires
            bytes@.len() >= 16,
        ensures
            r.public_key == decode64(bytes@.subrange(0, 8)),
            r.shared_secret == decode64(bytes@.subrange(8, 16)),
    {
        Self::new(u64_at(bytes, 0), u64_at(bytes, 8))
    }

    pub fn serialize(&self) -> (r: Vec<u8>)
        ensures
            r@ == be64(self.public_key) + be64(self.shared_secret),
    {
        let mut bytes = u64_bytes(self.public_key);
        let s = u64_bytes(self.shared_secret);
        push_all(&mut bytes, s.as_slice());
        bytes
    }
}

/// A challenge reads back as the one that was written.
pub proof fn lemma_challenge_round_trip(c: AuthChallenge)
    ensures
        ({
            let b = be64(c.public_key) + be64(c.prime) + be64(c.base);
            decode64(b.subrange(0, 8)) == c.public_key && decode64(b.subrange(8, 16)) == c.prime
                && decode64(b.subrange(16, 24)) == c.base
        }),
{
    let b = be64(c.public_key) + be64(c.prime) + be64(c.base);
    assert(b.subrange(0, 8) =~= be64(c.public_key));
    assert(b.subrange(8, 16) =~= be64(c.prime));
    assert(b.subrange(16, 24) =~= be64(c.base));
    lemma_be64_round_trip(c.public_key);
    lemma_be64_round_trip(c.prime);
    lemma_be64_round_trip(c.base);
}

/// A response reads back as the one that was written.
pub proof fn lemma_response_round_trip(r: AuthResponse)
    ensures
        ({
            let b = be64(r.public_key) + be64(r.shared_secret);
            decode64(b.subrange(0, 8)) == r.public_key && decode64(b.subrange(8, 16)) == r.shared_secret
        }),
{
    let b = be64(r.public_key) + be64(r.shared_secret);
    assert(b.subrange(0, 8) =~= be64(r.public_key));
    assert(b.subrange(8, 16) =~= be64(r.shared_secret));
    lemma_be64_round_trip(r.public_key);
    lemma_be64_round_trip(r.shared_secret);
}

} // verus!
