//! The byte transformation that protects frames and stored tables, and the
//! Diffie-Hellman exchange that agrees on its key.
use vstd::prelude::*;

verus! {

pub open spec fn rotl8(x: u8, s: u8) -> u8 {
    if s == 0 {
        x
    } else {
        (((x as u32) << (s as u32)) | ((x as u32) >> ((8 - s) as u32))) as u8
    }
}

pub open spec fn rotr8(x: u8, s: u8) -> u8 {
    if s == 0 {
        x
    } else {
        (((x as u32) >> (s as u32)) | ((x as u32) << ((8 - s) as u32))) as u8
    }
}

/// One byte under the key: xor with the key's low byte, complement, rotate left by
/// `key % 8`, rotate right by half that.
pub open spec fn encrypt_byte(b: u8, key: u64) -> u8 {
    rotr8(rotl8(!(b ^ (key as u8)), (key % 8) as u8), ((key % 8) / 2) as u8)
}

/// The inverse steps, in the opposite order.
pub open spec fn decrypt_byte(b: u8, key: u64) -> u8 {
    !(rotr8(rotl8(b, ((key % 8) / 2) as u8), (key % 8) as u8)) ^ (key as u8)
}

fn rotate_left(x: u8, s: u8) -> (r: u8)
    requires
        s < 8,
    ensures
        r == rotl8(x, s),
{
    if s == 0 {
        x
    } else {
        (((x as u32) << (s as u32)) | ((x as u32) >> ((8 - s) as u32))) as u8
    }
}

fn rotate_right(x: u8, s: u8) -> (r: u8)
    requires
        s < 8,
    ensures
        r == rotr8(x, s),
{
    if s == 0 {
        x
    } else {
        (((x as u32) >> (s as u32)) | ((x as u32) << ((8 - s) as u32))) as u8
    }
}

proof fn lemma_rotate_bits(x: u8, su: u32, t: u32)
    requires
        0 < su < 8,
        t == 8 - su,
    ensures
        (((((((x as u32) << su) | ((x as u32) >> t)) as u8) as u32) >> su) | (((((x as u32) << su) | ((x as u32) >> t)) as u8) as u32) << t) as u8 == x,
        (((((((x as u32) >> su) | ((x as u32) << t)) as u8) as u32) << su) | (((((x as u32) >> su) | ((x as u32) << t)) as u8) as u32) >> t) as u8 == x,
{
    assert((((((((x as u32) << su) | ((x as u32) >> t)) as u8) as u32) >> su) | (((((x as u32) << su) | ((x as u32) >> t)) as u8) as u32) << t) as u8 == x) by (bit_vector)
        requires
            0 < su < 8,
            t == 8 - su,
    ;
    assert((((((((x as u32) >> su) | ((x as u32) << t)) as u8) as u32) << su) | (((((x as u32) >> su) | ((x as u32) << t)) as u8) as u32) >> t) as u8 == x) by (bit_vector)
        requires
            0 < su < 8,
            t == 8 - su,
    ;
}

/// Rotating right undoes rotating left by the same amount.
pub proof fn lemma_rotate_inverse(x: u8, s: u8)
    requires
        s < 8,
    ensures
        rotr8(rotl8(x, s), s) == x,
        rotl8(rotr8(x, s), s) == x,
{
    if s != 0 {
        lemma_rotate_bits(x, s as u32, (8 - s) as u32);
    }
}

/// Decrypting a byte encrypted under the same key gives it back.
pub proof fn lemma_byte_round_trip(b: u8, key: u64)
    ensures
        decrypt_byte(encrypt_byte(b, key), key) == b,
{
    let s = (key % 8) as u8;
    let h = ((key % 8) / 2) as u8;
    let k = key as u8;
    let a = !(b ^ k);
    lemma_rotate_inverse(a, s);
    lemma_rotate_inverse(rotl8(a, s), h);
    assert(!(!(b ^ k)) ^ k == b) by (bit_vector);
}

pub open spec fn encrypted(data: Seq<u8>, key: u64) -> Seq<u8> {
    data.map_values(|b: u8| encrypt_byte(b, key))
}

pub open spec fn decrypted(data: Seq<u8>, key: u64) -> Seq<u8> {
    data.map_values(|b: u8| decrypt_byte(b, key))
}

/// Transforms every byte under the key.
pub fn encrypt(data: &[u8], key: u64) -> (r: Vec<u8>)
    ensures
        r@ == encrypted(data@, key),
{
    let s = (key % 8) as u8;
    let mut out: Vec<u8> = Vec::new();
    let mut i: usize = 0;
    while i < data.len()
        invariant
            i <= data@.len(),
            s == (key % 8) as u8,
            out@ == encrypted(data@.take(i as int), key),
        decreases data@.len() - i,
    {
        let x = !(data[i] ^ (key as u8));
        let y = rotate_right(rotate_left(x, s), s / 2);
        out.push(y);
        assert(out@ =~= encrypted(data@.take(i + 1), key));
        i = i + 1;
    }
    assert(data@.take(i as int) =~= data@);
    out
}

/// Undoes `encrypt` under the same key.
pub fn decrypt(data: &[u8], key: u64) -> (r: Vec<u8>)
    ensures
        r@ == decrypted(data@, key),
{
    let s = (key % 8) as u8;
    let mut out: Vec<u8> = Vec::new();
    let mut i: usize = 0;
    while i < data.len()
        invariant
            i <= data@.len(),
            s == (key % 8) as u8,
            out@ == decrypted(data@.take(i as int), key),
        decreases data@.len() - i,
    {
        let y = !rotate_right(rotate_left(data[i], s / 2), s) ^ (key as u8);
        out.push(y);
        assert(out@ =~= decrypted(data@.take(i + 1), key));
        i = i + 1;
    }
    assert(data@.take(i as int) =~= data@);
    out
}

/// Decrypting what was encrypted under the same key gives the data back.
pub proof fn lemma_encrypt_round_trip(data: Seq<u8>, key: u64)
    ensures
        decrypted(encrypted(data, key), key) == data,
{
    assert forall|i: int| 0 <= i < data.len() implies #[trigger] decrypted(encrypted(data, key), key)[i] == data[i] by {
        lemma_byte_round_trip(data[i], key);
    }
    assert(decrypted(encrypted(data, key), key) =~= data);
}

/// `base` to the power `exp`, modulo `m`.
pub open spec fn mod_pow(base: u64, exp: nat, m: u64) -> nat
    decreases exp,
{
    if exp == 0 {
        1nat % (m as nat)
    } else {
        (mod_pow(base, (exp - 1) as nat, m) * ((base % m) as nat)) % (m as nat)
    }
}

/// `base` to the power `exp`, modulo `modulus`, one multiplication per unit of `exp`.
pub fn mod_exp(base: u64, exp: u64, modulus: u64) -> (r: u64)
    requires
        modulus > 0,
    ensures
        r == mod_pow(base, exp as nat, modulus),
{
    let b = (base % modulus) as u128;
    let m = modulus as u128;
    let mut result: u128 = 1 % m;
    let mut i: u64 = 0;
    while i < exp
        invariant
            i <= exp,
            m == modulus as u128,
            m > 0,
            b == (base % modulus) as u128,
            b < m,
            result < m,
            result == mod_pow(base, i as nat, modulus),
        decreases exp - i,
    {
        assert(result * b < m * m) by (nonlinear_arith)
            requires
                result < m,
                b < m,
        ;
        assert(m * m <= 0xffff_ffff_ffff_fffe_0000_0000_0000_0001u128) by (nonlinear_arith)
            requires
                m <= 0xffff_ffff_ffff_ffffu128,
        ;
        result = (result * b) % m;
        i = i + 1;
    }
    result as u64
}

/// Relies on rand's `Rng::random_range` over `1..100_000`: some number in that range.
#[verifier::external_body]
fn generate_private_key() -> (r: u64)
    ensures
        1 <= r < 100_000,
{
    rand::Rng::random_range(&mut rand::rng(), 1..100_000)
}

/// One side of a Diffie-Hellman exchange and, once agreed, the shared key.
#[derive(Debug)]
pub struct EncryptionHandler {
    pub prime: u64,
    pub base: u64,
    pub public_key: u64,
    pub private_key: u64,
    pub shared_secret: Option<u64>,
}

impl EncryptionHandler {
    pub open spec fn wf(&self) -> bool {
        &&& self.prime > 0
        &&& self.public_key as nat == mod_pow(self.base, self.private_key as nat, self.prime)
    }

    /// A handler with a fresh private key and no shared key yet.
    pub fn new(prime: u64, base: u64) -> (r: Self)
        requires
            prime > 0,
        ensures
            r.wf(),
            r.prime == prime,
            r.base == base,
            r.shared_secret is None,
            1 <= r.private_key < 100_000,
    {
        let private_key = generate_private_key();
        let public_key = mod_exp(base, private_key, prime);
        EncryptionHandler { prime, base, public_key, private_key, shared_secret: None }
    }

    /// A handler that has agreed on a key with the holder of `other_public_key`; also
    /// returns its own public key and the shared key.
    pub fn new_initialized(prime: u64, base: u64, other_public_key: u64) -> (r: (Self, u64, u64))
        requires
            prime > 0,
        ensures
            r.0.wf(),
            r.0.prime == prime,
            r.0.base == base,
            r.1 == r.0.public_key,
            r.2 as nat == mod_pow(other_public_key, r.0.private_key as nat, prime),
            r.0.shared_secret == Some(r.2),
    {
        let private_key = generate_private_key();
        let public_key = mod_exp(base, private_key, prime);
        let shared_secret = mod_exp(other_public_key, private_key, prime);
        (EncryptionHandler { prime, base, public_key, private_key, shared_secret: Some(shared_secret) }, public_key, shared_secret)
    }

    /// Accepts the peer's claimed shared key when it matches the one computed here.
    pub fn attempt_initialize(&mut self, other_public_key: u64, challenged_shared_secret: u64) -> (r: bool)
        requires
            old(self).wf(),
        ensures
            final(self).wf(),
            r == (mod_pow(other_public_key, old(self).private_key as nat, old(self).prime) == challenged_shared_secret as nat),
            r ==> final(self).shared_secret == Some(challenged_shared_secret),
            !r ==> *final(self) == *old(self),
            final(self).private_key == old(self).private_key,
            final(self).public_key == old(self).public_key,
            final(self).prime == old(self).prime,
            final(self).base == old(self).base,
    {
        let shared_secret = mod_exp(other_public_key, self.private_key, self.prime);
        if shared_secret == challenged_shared_secret {
            self.shared_secret = Some(shared_secret);
            return true;
        }
        false
    }

    /// The public key, the prime and the base, in that order.
    pub fn get_dh_params(&self) -> (r: (u64, u64, u64))
        ensures
            r == (self.public_key, self.prime, self.base),
    {
        (self.public_key, self.prime, self.base)
    }
}

} // verus!
