//! Big-endian primitives of the client frame body: `[short]`, `[int]`, `[long]`,
//! `[string]`, `[long string]`, lists, maps and byte blobs.
use vstd::prelude::*;
use vstd::utf8::*;
use vstd::string::*;

verus! {

/// Two bytes, most significant first.
pub open spec fn be16(v: u16) -> Seq<u8> {
    seq![(v >> 8u16) as u8, v as u8]
}

/// Four bytes, most significant first.
pub open spec fn be32(v: u32) -> Seq<u8> {
    seq![(v >> 24u32) as u8, (v >> 16u32) as u8, (v >> 8u32) as u8, v as u8]
}

/// Eight bytes, most significant first.
pub open spec fn be64(v: u64) -> Seq<u8> {
    be32((v >> 32u64) as u32) + be32(v as u32)
}

pub open spec fn decode16(b: Seq<u8>) -> u16 {
    (((b[0] as u16) << 8u16) | (b[1] as u16)) as u16
}

pub open spec fn decode32(b: Seq<u8>) -> u32 {
    (((b[0] as u32) << 24u32) | ((b[1] as u32) << 16u32) | ((b[2] as u32) << 8u32) | (b[3] as u32)) as u32
}

pub open spec fn decode64(b: Seq<u8>) -> u64 {
    ((((decode32(b.subrange(0, 4)) as u64) << 32u64) | (decode32(b.subrange(4, 8)) as u64))) as u64
}

pub proof fn lemma_be16_round_trip(v: u16)
    ensures
        decode16(be16(v)) == v,
{
    let b0 = (v >> 8u16) as u8;
    let b1 = v as u8;
    assert((((b0 as u16) << 8u16) | (b1 as u16)) == v) by (bit_vector)
        requires
            b0 == (v >> 8u16) as u8,
            b1 == v as u8,
    ;
}

pub proof fn lemma_be32_round_trip(v: u32)
    ensures
        decode32(be32(v)) == v,
{
    let b0 = (v >> 24u32) as u8;
    let b1 = (v >> 16u32) as u8;
    let b2 = (v >> 8u32) as u8;
    let b3 = v as u8;
    assert((((b0 as u32) << 24u32) | ((b1 as u32) << 16u32) | ((b2 as u32) << 8u32) | (b3 as u32))
        == v) by (bit_vector)
        requires
            b0 == (v >> 24u32) as u8,
            b1 == (v >> 16u32) as u8,
            b2 == (v >> 8u32) as u8,
            b3 == v as u8,
    ;
}

pub proof fn lemma_be64_round_trip(v: u64)
    ensures
        decode64(be64(v)) == v,
{
    let hi = (v >> 32u64) as u32;
    let lo = v as u32;
    lemma_be32_round_trip(hi);
    lemma_be32_round_trip(lo);
    assert(be64(v).subrange(0, 4) =~= be32(hi));
    assert(be64(v).subrange(4, 8) =~= be32(lo));
    assert((((hi as u64) << 32u64) | (lo as u64)) == v) by (bit_vector)
        requires
            hi == (v >> 32u64) as u32,
            lo == v as u32,
    ;
}

/// Appends `bytes` to `buffer`.
pub fn push_all(buffer: &mut Vec<u8>, bytes: &[u8])
    ensures
        final(buffer)@ == old(buffer)@ + bytes@,
{
    let ghost start = buffer@;
    let mut i: usize = 0;
    while i < bytes.len()
        invariant
            i <= bytes@.len(),
            buffer@ == start + bytes@.subrange(0, i as int),
        decreases bytes@.len() - i,
    {
        buffer.push(bytes[i]);
        i = i + 1;
        assert(buffer@ =~= start + bytes@.subrange(0, i as int));
    }
    assert(bytes@.subrange(0, i as int) =~= bytes@);
}

fn u16_bytes(value: u16) -> (r: [u8; 2])
    ensures
        r@ == be16(value),
{
    let r = [#[verifier::truncate] ((value >> 8) as u8), #[verifier::truncate] (value as u8)];
    assert(r@ =~= be16(value));
    r
}

fn u32_bytes(value: u32) -> (r: [u8; 4])
    ensures
        r@ == be32(value),
{
    let r = [
        #[verifier::truncate] ((value >> 24) as u8),
        #[verifier::truncate] ((value >> 16) as u8),
        #[verifier::truncate] ((value >> 8) as u8),
        #[verifier::truncate] (value as u8),
    ];
    assert(r@ =~= be32(value));
    r
}

/// Writes an `[int]`.
pub fn write_int(buffer: &mut Vec<u8>, value: i32)
    ensures
        final(buffer)@ == old(buffer)@ + be32(value as u32),
{
    let b = u32_bytes(#[verifier::truncate] (value as u32));
    push_all(buffer, &b);
}

/// Writes a `[long]`.
pub fn write_long(buffer: &mut Vec<u8>, value: i64)
    ensures
        final(buffer)@ == old(buffer)@ + be64(value as u64),
{
    let ghost start = buffer@;
    let v = #[verifier::truncate] (value as u64);
    let hi = u32_bytes(#[verifier::truncate] ((v >> 32) as u32));
    let lo = u32_bytes(#[verifier::truncate] (v as u32));
    push_all(buffer, &hi);
    push_all(buffer, &lo);
    assert(buffer@ =~= start + be64(value as u64));
}

/// Writes a `[short]`.
pub fn write_short(buffer: &mut Vec<u8>, value: u16)
    ensures
        final(buffer)@ == old(buffer)@ + be16(value),
{
    let b = u16_bytes(value);
    push_all(buffer, &b);
}

/// Writes a single `[byte]`.
pub fn write_byte(buffer: &mut Vec<u8>, byte: u8)
    ensures
        final(buffer)@ == old(buffer)@.push(byte),
{
    buffer.push(byte);
}


/// The bytes of a `[string]`: a `[short]` length, then the UTF-8 text.
pub open spec fn string_enc(s: Seq<char>) -> Seq<u8> {
    be16(encode_utf8(s).len() as u16) + encode_utf8(s)
}

/// The bytes of a `[long string]`: an `[int]` length, then the UTF-8 text.
pub open spec fn long_string_enc(s: Seq<char>) -> Seq<u8> {
    be32(encode_utf8(s).len() as u32) + encode_utf8(s)
}

/// A `[string]` fits its `[short]` length.
pub open spec fn short_text(s: Seq<char>) -> bool {
    encode_utf8(s).len() <= u16::MAX
}

/// The `[string]`s of a list, one after another.
pub open spec fn strings_enc(l: Seq<Seq<char>>) -> Seq<u8>
    decreases l.len(),
{
    if l.len() == 0 {
        Seq::empty()
    } else {
        strings_enc(l.drop_last()) + string_enc(l.last())
    }
}

/// The bytes of a `[string list]`.
pub open spec fn string_list_enc(l: Seq<Seq<char>>) -> Seq<u8> {
    be16(l.len() as u16) + strings_enc(l)
}

/// The key/value `[string]` pairs of a map, one after another.
pub open spec fn pairs_enc(l: Seq<(Seq<char>, Seq<char>)>) -> Seq<u8>
    decreases l.len(),
{
    if l.len() == 0 {
        Seq::empty()
    } else {
        pairs_enc(l.drop_last()) + string_enc(l.last().0) + string_enc(l.last().1)
    }
}

/// The bytes of a `[string map]`.
pub open spec fn string_map_enc(l: Seq<(Seq<char>, Seq<char>)>) -> Seq<u8> {
    be16(l.len() as u16) + pairs_enc(l)
}

/// The key/list pairs of a multimap, one after another.
pub open spec fn multi_pairs_enc(l: Seq<(Seq<char>, Seq<Seq<char>>)>) -> Seq<u8>
    decreases l.len(),
{
    if l.len() == 0 {
        Seq::empty()
    } else {
        multi_pairs_enc(l.drop_last()) + string_enc(l.last().0) + string_list_enc(l.last().1)
    }
}

/// The bytes of a `[string multimap]`.
pub open spec fn string_multimap_enc(l: Seq<(Seq<char>, Seq<Seq<char>>)>) -> Seq<u8> {
    be16(l.len() as u16) + multi_pairs_enc(l)
}

pub open spec fn all_short(l: Seq<Seq<char>>) -> bool {
    forall|i: int| 0 <= i < l.len() ==> short_text(#[trigger] l[i])
}

pub open spec fn strs_view(l: Seq<&str>) -> Seq<Seq<char>> {
    l.map_values(|s: &str| s@)
}

pub open spec fn str_pairs_view(l: Seq<(&str, &str)>) -> Seq<(Seq<char>, Seq<char>)> {
    l.map_values(|p: (&str, &str)| (p.0@, p.1@))
}

pub open spec fn str_multi_view(l: Seq<(&str, Vec<&str>)>) -> Seq<(Seq<char>, Seq<Seq<char>>)> {
    l.map_values(|p: (&str, Vec<&str>)| (p.0@, strs_view(p.1@)))
}

/// Writes a `[string]`.
pub fn write_string(buffer: &mut Vec<u8>, value: &str)
    requires
        short_text(value@),
    ensures
        final(buffer)@ == old(buffer)@ + string_enc(value@),
{
    let ghost start = buffer@;
    let bytes = value.as_bytes();
    write_short(buffer, bytes.len() as u16);
    push_all(buffer, bytes);
    assert(buffer@ =~= start + string_enc(value@));
}

/// Writes a `[long string]`.
pub fn write_long_string(buffer: &mut Vec<u8>, value: &str)
    requires
        encode_utf8(value@).len() <= i32::MAX,
    ensures
        final(buffer)@ == old(buffer)@ + long_string_enc(value@),
{
    let ghost start = buffer@;
    let bytes = value.as_bytes();
    write_int(buffer, bytes.len() as i32);
    push_all(buffer, bytes);
    assert(buffer@ =~= start + long_string_enc(value@));
}

/// Writes a `[string list]`.
pub fn write_string_list(buffer: &mut Vec<u8>, strings: Vec<&str>)
    requires
        strings@.len() <= u16::MAX,
        all_short(strs_view(strings@)),
    ensures
        final(buffer)@ == old(buffer)@ + string_list_enc(strs_view(strings@)),
{
    write_str_list(buffer, &strings);
}

fn write_str_list(buffer: &mut Vec<u8>, strings: &Vec<&str>)
    requires
        strings@.len() <= u16::MAX,
        all_short(strs_view(strings@)),
    ensures
        final(buffer)@ == old(buffer)@ + string_list_enc(strs_view(strings@)),
{
    let ghost start = buffer@;
    let ghost l = strs_view(strings@);
    write_short(buffer, strings.len() as u16);
    let mut i: usize = 0;
    while i < strings.len()
        invariant
            i <= strings@.len(),
            l == strs_view(strings@),
            all_short(l),
            buffer@ == start + be16(strings@.len() as u16) + strings_enc(l.subrange(0, i as int)),
        decreases strings@.len() - i,
    {
        assert(short_text(l[i as int]));
        write_string(buffer, strings[i]);
        assert(l.subrange(0, i + 1).drop_last() =~= l.subrange(0, i as int));
        i = i + 1;
        assert(buffer@ =~= start + be16(strings@.len() as u16) + strings_enc(l.subrange(0, i as int)));
    }
    assert(l.subrange(0, i as int) =~= l);
    assert(buffer@ =~= start + string_list_enc(l));
}

/// Writes `[bytes]`.
pub fn write_bytes(buffer: &mut Vec<u8>, bytes: &[u8])
    requires
        bytes@.len() <= i32::MAX,
    ensures
        final(buffer)@ == old(buffer)@ + be32(bytes@.len() as u32) + bytes@,
{
    write_int(buffer, bytes.len() as i32);
    push_all(buffer, bytes);
}

/// Writes `[short bytes]`.
pub fn write_short_bytes(buffer: &mut Vec<u8>, bytes: &[u8])
    requires
        bytes@.len() <= u16::MAX,
    ensures
        final(buffer)@ == old(buffer)@ + be16(bytes@.len() as u16) + bytes@,
{
    write_short(buffer, bytes.len() as u16);
    push_all(buffer, bytes);
}

/// Writes a `[string map]`.
pub fn write_string_map(buffer: &mut Vec<u8>, kv_pairs: Vec<(&str, &str)>)
    requires
        kv_pairs@.len() <= u16::MAX,
        forall|i: int|
            0 <= i < kv_pairs@.len() ==> short_text((#[trigger] kv_pairs@[i]).0@) && short_text(
                kv_pairs@[i].1@,
            ),
    ensures
        final(buffer)@ == old(buffer)@ + string_map_enc(str_pairs_view(kv_pairs@)),
{
    let ghost start = buffer@;
    let ghost l = str_pairs_view(kv_pairs@);
    write_short(buffer, kv_pairs.len() as u16);
    let mut i: usize = 0;
    while i < kv_pairs.len()
        invariant
            i <= kv_pairs@.len(),
            l == str_pairs_view(kv_pairs@),
            forall|j: int|
                0 <= j < kv_pairs@.len() ==> short_text((#[trigger] kv_pairs@[j]).0@) && short_text(
                    kv_pairs@[j].1@,
                ),
            buffer@ == start + be16(kv_pairs@.len() as u16) + pairs_enc(l.subrange(0, i as int)),
        decreases kv_pairs@.len() - i,
    {
        let (key, value) = kv_pairs[i];
        assert(short_text(kv_pairs@[i as int].0@));
        write_string(buffer, key);
        write_string(buffer, value);
        assert(l.subrange(0, i + 1).drop_last() =~= l.subrange(0, i as int));
        i = i + 1;
        assert(buffer@ =~= start + be16(kv_pairs@.len() as u16) + pairs_enc(l.subrange(0, i as int)));
    }
    assert(l.subrange(0, i as int) =~= l);
    assert(buffer@ =~= start + string_map_enc(l));
}

/// Writes a `[string multimap]`.
pub fn write_string_multimap(buffer: &mut Vec<u8>, kv_pairs: Vec<(&str, Vec<&str>)>)
    requires
        kv_pairs@.len() <= u16::MAX,
        forall|i: int|
            0 <= i < kv_pairs@.len() ==> short_text((#[trigger] kv_pairs@[i]).0@)
                && kv_pairs@[i].1@.len() <= u16::MAX && all_short(strs_view(kv_pairs@[i].1@)),
    ensures
        final(buffer)@ == old(buffer)@ + string_multimap_enc(str_multi_view(kv_pairs@)),
{
    let ghost start = buffer@;
    let ghost l = str_multi_view(kv_pairs@);
    write_short(buffer, kv_pairs.len() as u16);
    let mut i: usize = 0;
    while i < kv_pairs.len()
        invariant
            i <= kv_pairs@.len(),
            l == str_multi_view(kv_pairs@),
            forall|j: int|
                0 <= j < kv_pairs@.len() ==> short_text((#[trigger] kv_pairs@[j]).0@)
                    && kv_pairs@[j].1@.len() <= u16::MAX && all_short(strs_view(kv_pairs@[j].1@)),
            buffer@ == start + be16(kv_pairs@.len() as u16) + multi_pairs_enc(l.subrange(0, i as int)),
        decreases kv_pairs@.len() - i,
    {
        let pair = &kv_pairs[i];
        assert(short_text(kv_pairs@[i as int].0@));
        write_string(buffer, pair.0);
        write_str_list(buffer, &pair.1);
        assert(l.subrange(0, i + 1).drop_last() =~= l.subrange(0, i as int));
        i = i + 1;
        assert(buffer@ =~= start + be16(kv_pairs@.len() as u16) + multi_pairs_enc(
            l.subrange(0, i as int),
        ));
    }
    assert(l.subrange(0, i as int) =~= l);
    assert(buffer@ =~= start + string_multimap_enc(l));
}


/// Why a read stopped.
#[derive(Debug, Clone, Copy, PartialEq, Eq, Structural)]
pub enum DecodeError {
    /// Fewer bytes were left than the value needs.
    UnexpectedEnd,
    /// The bytes of a text were not UTF-8.
    InvalidText,
    /// A length was negative.
    NegativeLength,
}

/// A read position over a byte buffer.
pub struct ByteReader {
    pub data: Vec<u8>,
    pub pos: usize,
}

/// Relies on `String::from_utf8`: `Ok` exactly on UTF-8 input, holding its characters.
#[verifier::external_body]
pub(crate) fn text_from_utf8(bytes: Vec<u8>) -> (r: Option<String>)
    ensures
        r is Some <==> valid_utf8(bytes@),
        r is Some ==> r->Some_0@ == decode_utf8(bytes@),
{
    String::from_utf8(bytes).ok()
}

/// What a `[string]` at the front of `b` holds, with the number of bytes it takes.
pub open spec fn parse_text(b: Seq<u8>, width: int) -> Option<(Seq<char>, int)> {
    if b.len() < width {
        None
    } else {
        let n = if width == 2 { decode16(b.subrange(0, 2)) as int } else { decode32(b.subrange(0, 4)) as int };
        if b.len() < width + n || !valid_utf8(b.subrange(width, width + n)) {
            None
        } else {
            Some((decode_utf8(b.subrange(width, width + n)), width + n))
        }
    }
}

impl ByteReader {
    /// The bytes not read yet.
    pub open spec fn rest(&self) -> Seq<u8> {
        if self.pos <= self.data@.len() {
            self.data@.subrange(self.pos as int, self.data@.len() as int)
        } else {
            Seq::empty()
        }
    }

    pub fn new(data: &[u8]) -> (r: ByteReader)
        ensures
            r.rest() == data@,
    {
        let mut v: Vec<u8> = Vec::new();
        push_all(&mut v, data);
        let r = ByteReader { data: v, pos: 0 };
        assert(r.rest() =~= data@);
        r
    }

    /// Number of bytes not read yet.
    pub fn remaining(&self) -> (n: usize)
        ensures
            n == self.rest().len(),
    {
        if self.pos <= self.data.len() {
            self.data.len() - self.pos
        } else {
            0
        }
    }

    /// Takes the next `n` bytes, or none if fewer are left.
    pub fn take(&mut self, n: usize) -> (r: Option<Vec<u8>>)
        ensures
            r is Some <==> n <= old(self).rest().len(),
            r is Some ==> r->Some_0@ == old(self).rest().take(n as int) && final(self).rest()
                == old(self).rest().skip(n as int),
            r is None ==> final(self).rest() == old(self).rest(),
    {
        if self.pos > self.data.len() {
            self.pos = self.data.len();
        }
        if n > self.remaining() {
            return None;
        }
        let ghost rest0 = self.rest();
        let p = self.pos;
        let data = &self.data;
        let mut out: Vec<u8> = Vec::new();
        let mut i: usize = 0;
        while i < n
            invariant
                i <= n,
                p + n <= data.len(),
                rest0 == data@.subrange(p as int, data@.len() as int),
                out@ == rest0.take(i as int),
            decreases n - i,
        {
            out.push(data[p + i]);
            i = i + 1;
            assert(out@ =~= rest0.take(i as int));
        }
        self.pos = self.pos + n;
        assert(self.rest() =~= rest0.skip(n as int));
        Some(out)
    }
}

/// Reads a `[short]`.
pub fn read_short(cursor: &mut ByteReader) -> (r: Result<u16, DecodeError>)
    ensures
        r is Ok <==> old(cursor).rest().len() >= 2,
        r is Ok ==> r->Ok_0 == decode16(old(cursor).rest()) && final(cursor).rest() == old(cursor).rest().skip(2),
        r is Err ==> final(cursor).rest() == old(cursor).rest(),
{
    match cursor.take(2) {
        Some(b) => {
            let v: u16 = ((b[0] as u16) << 8) | (b[1] as u16);
            Ok(v)
        },
        None => Err(DecodeError::UnexpectedEnd),
    }
}

fn read_u32(cursor: &mut ByteReader) -> (r: Result<u32, DecodeError>)
    ensures
        r is Ok <==> old(cursor).rest().len() >= 4,
        r is Ok ==> r->Ok_0 == decode32(old(cursor).rest()) && final(cursor).rest() == old(cursor).rest().skip(4),
        r is Err ==> final(cursor).rest() == old(cursor).rest(),
{
    match cursor.take(4) {
        Some(b) => {
            let v: u32 = ((b[0] as u32) << 24) | ((b[1] as u32) << 16) | ((b[2] as u32) << 8) | (
            b[3] as u32);
            Ok(v)
        },
        None => Err(DecodeError::UnexpectedEnd),
    }
}

/// Reads an `[int]`.
pub fn read_int(cursor: &mut ByteReader) -> (r: Result<i32, DecodeError>)
    ensures
        r is Ok <==> old(cursor).rest().len() >= 4,
        r is Ok ==> r->Ok_0 as u32 == decode32(old(cursor).rest()) && final(cursor).rest() == old(cursor).rest().skip(4),
        r is Err ==> final(cursor).rest() == old(cursor).rest(),
{
    match read_u32(cursor) {
        Ok(v) => {
            let x = #[verifier::truncate] (v as i32);
            assert(x as u32 == v) by (bit_vector)
                requires
                    x == v as i32,
            ;
            Ok(x)
        },
        Err(e) => Err(e),
    }
}

/// Reads a `[long]`.
pub fn read_long(cursor: &mut ByteReader) -> (r: Result<i64, DecodeError>)
    ensures
        r is Ok <==> old(cursor).rest().len() >= 8,
        r is Ok ==> r->Ok_0 as u64 == decode64(old(cursor).rest().take(8)) && final(cursor).rest()
            == old(cursor).rest().skip(8),
        r is Err ==> final(cursor).rest() == old(cursor).rest(),
{
    if cursor.remaining() < 8 {
        return Err(DecodeError::UnexpectedEnd);
    }
    let ghost rest0 = cursor.rest();
    let hi = match read_u32(cursor) {
        Ok(v) => v,
        Err(e) => return Err(e),
    };
    let lo = match read_u32(cursor) {
        Ok(v) => v,
        Err(e) => return Err(e),
    };
    assert(rest0.take(8).subrange(0, 4) =~= rest0.subrange(0, 4));
    assert(rest0.take(8).subrange(4, 8) =~= rest0.skip(4).subrange(0, 4));
    assert(rest0.skip(4).skip(4) =~= rest0.skip(8));
    assert(decode32(rest0) == decode32(rest0.subrange(0, 4)));
    assert(decode32(rest0.skip(4)) == decode32(rest0.skip(4).subrange(0, 4)));
    let u: u64 = ((hi as u64) << 32) | (lo as u64);
    let x = #[verifier::truncate] (u as i64);
    assert(x as u64 == u) by (bit_vector)
        requires
            x == u as i64,
    ;
    Ok(x)
}

/// Reads a `[byte]`.
pub fn read_byte(cursor: &mut ByteReader) -> (r: Result<u8, DecodeError>)
    ensures
        r is Ok <==> old(cursor).rest().len() >= 1,
        r is Ok ==> r->Ok_0 == old(cursor).rest()[0] && final(cursor).rest() == old(cursor).rest().skip(1),
        r is Err ==> final(cursor).rest() == old(cursor).rest(),
{
    match cursor.take(1) {
        Some(b) => Ok(b[0]),
        None => Err(DecodeError::UnexpectedEnd),
    }
}

fn read_text_body(cursor: &mut ByteReader, len: usize) -> (r: Result<String, DecodeError>)
    ensures
        r is Ok <==> len <= old(cursor).rest().len() && valid_utf8(old(cursor).rest().take(len as int)),
        r is Ok ==> r->Ok_0@ == decode_utf8(old(cursor).rest().take(len as int)) && final(cursor).rest() == old(cursor).rest().skip(len as int),
        final(cursor).rest().len() <= old(cursor).rest().len(),
{
    match cursor.take(len) {
        Some(b) => match text_from_utf8(b) {
            Some(s) => Ok(s),
            None => Err(DecodeError::InvalidText),
        },
        None => Err(DecodeError::UnexpectedEnd),
    }
}

/// Reads a `[string]`.
pub fn read_string(cursor: &mut ByteReader) -> (r: Result<String, DecodeError>)
    ensures
        final(cursor).rest().len() <= old(cursor).rest().len(),
        match r {
            Ok(s) => parse_text(old(cursor).rest(), 2) == Some((s@, old(cursor).rest().len() - final(cursor).rest().len())) && final(cursor).rest() == old(cursor).rest().skip(
                old(cursor).rest().len() - final(cursor).rest().len(),
            ),
            Err(_) => parse_text(old(cursor).rest(), 2) is None,
        },
{
    let ghost b = cursor.rest();
    let len = read_short(cursor)?;
    let ghost b2 = cursor.rest();
    assert(b.subrange(0, 2)[0] == b[0] && b.subrange(0, 2)[1] == b[1]);
    assert(decode16(b) == decode16(b.subrange(0, 2)));
    let r = read_text_body(cursor, len as usize);
    proof {
        if 2 + len <= b.len() {
            assert(b2.take(len as int) =~= b.subrange(2, 2 + len));
        }
        if r is Ok {
            assert(b2.skip(len as int) =~= b.skip(2 + len));
        }
    }
    r
}

/// Reads a `[long string]`.
pub fn read_long_string(cursor: &mut ByteReader) -> (r: Result<String, DecodeError>)
    ensures
        final(cursor).rest().len() <= old(cursor).rest().len(),
        match r {
            Ok(s) => parse_text(old(cursor).rest(), 4) == Some((s@, old(cursor).rest().len() - final(cursor).rest().len())) && final(cursor).rest() == old(cursor).rest().skip(
                old(cursor).rest().len() - final(cursor).rest().len(),
            ),
            Err(_) => parse_text(old(cursor).rest(), 4) is None,
        },
{
    let ghost b = cursor.rest();
    let len = read_u32(cursor)?;
    let ghost b2 = cursor.rest();
    assert(b.subrange(0, 4)[0] == b[0] && b.subrange(0, 4)[1] == b[1]);
    assert(b.subrange(0, 4)[2] == b[2] && b.subrange(0, 4)[3] == b[3]);
    assert(decode32(b) == decode32(b.subrange(0, 4)));
    if len as usize as u32 != len {
        return Err(DecodeError::UnexpectedEnd);
    }
    let r = read_text_body(cursor, len as usize);
    proof {
        if 4 + len <= b.len() {
            assert(b2.take(len as int) =~= b.subrange(4, 4 + len));
        }
        if r is Ok {
            assert(b2.skip(len as int) =~= b.skip(4 + len));
        }
    }
    r
}


proof fn lemma_be16_of_decode(b: Seq<u8>)
    requires
        b.len() >= 2,
    ensures
        be16(decode16(b)) == b.take(2),
{
    let b0 = b[0];
    let b1 = b[1];
    let v = decode16(b);
    assert(((v >> 8u16) as u8) == b0 && (v as u8) == b1) by (bit_vector)
        requires
            v == (((b0 as u16) << 8u16) | (b1 as u16)) as u16,
    ;
    assert(be16(v) =~= b.take(2));
}

proof fn lemma_be32_of_decode(b: Seq<u8>)
    requires
        b.len() >= 4,
    ensures
        be32(decode32(b)) == b.take(4),
{
    let b0 = b[0];
    let b1 = b[1];
    let b2 = b[2];
    let b3 = b[3];
    let v = decode32(b);
    assert(((v >> 24u32) as u8) == b0 && ((v >> 16u32) as u8) == b1 && ((v >> 8u32) as u8) == b2
        && (v as u8) == b3) by (bit_vector)
        requires
            v == (((b0 as u32) << 24u32) | ((b1 as u32) << 16u32) | ((b2 as u32) << 8u32) | (
            b3 as u32)) as u32,
    ;
    assert(be32(v) =~= b.take(4));
}

/// What a `[string]` read consumes is the encoding of the text it returns.
pub proof fn lemma_parsed_text(b: Seq<u8>)
    requires
        parse_text(b, 2) is Some,
    ensures
        b.take(parse_text(b, 2)->Some_0.1) == string_enc(parse_text(b, 2)->Some_0.0),
        short_text(parse_text(b, 2)->Some_0.0),
{
    let n = decode16(b.subrange(0, 2)) as int;
    let body = b.subrange(2, 2 + n);
    vstd::utf8::decode_utf8_encode_utf8(body);
    lemma_be16_of_decode(b);
    assert(b.subrange(0, 2)[0] == b[0] && b.subrange(0, 2)[1] == b[1]);
    assert(b.take(2 + n) =~= b.take(2) + body);
}

/// A `[string]` reads back as the text that was written, whatever follows it.
pub proof fn lemma_text_round_trip(s: Seq<char>, t: Seq<u8>)
    requires
        short_text(s),
    ensures
        parse_text(string_enc(s) + t, 2) == Some((s, string_enc(s).len() as int)),
{
    let e = encode_utf8(s);
    let b = string_enc(s) + t;
    let n = e.len() as u16;
    lemma_be16_round_trip(n);
    assert(b.subrange(0, 2) =~= be16(n));
    assert(b.subrange(2, 2 + e.len() as int) =~= e);
    vstd::utf8::encode_utf8_valid_utf8(s);
    vstd::utf8::encode_utf8_decode_utf8(s);
}

pub open spec fn strings_view(l: Seq<String>) -> Seq<Seq<char>> {
    l.map_values(|s: String| s@)
}

/// Reads a `[string list]`.
pub fn read_string_list(cursor: &mut ByteReader) -> (r: Result<Vec<String>, DecodeError>)
    ensures
        match crate::serde_table::parse_list(old(cursor).rest()) {
            Some((l, k)) => r is Ok && strings_view(r->Ok_0@) == l && final(cursor).rest() == old(cursor).rest().skip(k),
            None => r is Err,
        },
{
    let r = crate::serde_table::read_text_list(cursor);
    proof {
        if r is Ok {
            assert(strings_view(r->Ok_0@) =~= crate::text::texts_of(r->Ok_0@));
        }
    }
    r
}

/// The bytes of a `[bytes]` at the front of `b`, with the bytes it takes; a negative length
/// is refused.
#[verifier::opaque]
pub open spec fn parse_bytes(b: Seq<u8>) -> Option<(Seq<u8>, int)> {
    if b.len() < 4 || decode32(b) > i32::MAX as u32 || b.len() < 4 + decode32(b) {
        None
    } else {
        Some((b.subrange(4, 4 + decode32(b)), 4 + decode32(b)))
    }
}

/// Reads `[bytes]`; a negative length is refused.
pub fn read_bytes(cursor: &mut ByteReader) -> (r: Result<Vec<u8>, DecodeError>)
    ensures
        match parse_bytes(old(cursor).rest()) {
            Some((v, k)) => r is Ok && r->Ok_0@ == v && final(cursor).rest() == old(cursor).rest().skip(k),
            None => r is Err,
        },
        r is Ok ==> old(cursor).rest() == be32(r->Ok_0@.len() as u32) + r->Ok_0@ + final(cursor).rest()
            && r->Ok_0@.len() <= i32::MAX,
        old(cursor).rest().len() >= 4 && decode32(old(cursor).rest()) <= i32::MAX && 4 + decode32(
            old(cursor).rest(),
        ) <= old(cursor).rest().len() ==> r is Ok,
{
    reveal(parse_bytes);
    let ghost rest0 = cursor.rest();
    let len = read_int(cursor)?;
    proof { lemma_be32_of_decode(rest0); }
    if len < 0 {
        assert((len as u32) > 0x7fff_ffffu32) by (bit_vector)
            requires
                len < 0,
        ;
        return Err(DecodeError::NegativeLength);
    }
    assert((len as u32) as int == len as int) by (bit_vector)
        requires
            len >= 0,
    ;
    match cursor.take(len as usize) {
        Some(b) => {
            proof {
                assert(b@ =~= rest0.subrange(4, 4 + decode32(rest0)));
                assert(cursor.rest() =~= rest0.skip(4 + decode32(rest0)));
                assert(b@.len() as u32 == len as u32);
                assert(rest0.take(4) == be32(b@.len() as u32));
                assert(rest0 =~= rest0.take(4) + rest0.skip(4));
                assert(rest0.skip(4) =~= b@ + rest0.skip(4).skip(len as int));
                assert(rest0 =~= be32(b@.len() as u32) + b@ + cursor.rest());
            }
            Ok(b)
        },
        None => Err(DecodeError::UnexpectedEnd),
    }
}

/// Reads `[short bytes]`.
pub fn read_short_bytes(cursor: &mut ByteReader) -> (r: Result<Vec<u8>, DecodeError>)
    ensures
        r is Ok ==> old(cursor).rest() == be16(r->Ok_0@.len() as u16) + r->Ok_0@ + final(cursor).rest()
            && r->Ok_0@.len() <= u16::MAX,
        old(cursor).rest().len() >= 2 && 2 + decode16(old(cursor).rest()) <= old(cursor).rest().len()
            ==> r is Ok,
{
    let ghost rest0 = cursor.rest();
    let len = read_short(cursor)?;
    proof { lemma_be16_of_decode(rest0); }
    match cursor.take(len as usize) {
        Some(b) => {
            proof {
                assert(rest0 =~= rest0.take(2) + rest0.skip(2));
                assert(rest0.skip(2) =~= b@ + rest0.skip(2).skip(len as int));
                assert(rest0 =~= be16(b@.len() as u16) + b@ + cursor.rest());
            }
            Ok(b)
        },
        None => Err(DecodeError::UnexpectedEnd),
    }
}

pub open spec fn string_pairs_view(l: Seq<(String, String)>) -> Seq<(Seq<char>, Seq<char>)> {
    l.map_values(|p: (String, String)| (p.0@, p.1@))
}

pub open spec fn string_multi_view(l: Seq<(String, Vec<String>)>) -> Seq<(Seq<char>, Seq<Seq<char>>)> {
    l.map_values(|p: (String, Vec<String>)| (p.0@, strings_view(p.1@)))
}

/// Reads a `[string map]`, keeping the order of its pairs.
pub fn read_string_map(cursor: &mut ByteReader) -> (r: Result<Vec<(String, String)>, DecodeError>)
    ensures
        match crate::serde_table::parse_map(old(cursor).rest()) {
            Some((l, k)) => r is Ok && string_pairs_view(r->Ok_0@) == l && final(cursor).rest() == old(cursor).rest().skip(k),
            None => r is Err,
        },
{
    let r = crate::serde_table::read_string_map(cursor);
    proof {
        if r is Ok {
            assert(string_pairs_view(r->Ok_0@) =~= crate::expression::row_view(r->Ok_0@));
        }
    }
    r
}

/// Reads a `[string multimap]`, keeping the order of its pairs.
pub fn read_string_multimap(cursor: &mut ByteReader) -> (r: Result<Vec<(String, Vec<String>)>, DecodeError>)
    ensures
        match crate::serde_table::parse_multimap(old(cursor).rest()) {
            Some((l, k)) => r is Ok && string_multi_view(r->Ok_0@) == l && final(cursor).rest() == old(cursor).rest().skip(k),
            None => r is Err,
        },
{
    crate::serde_table::read_multimap(cursor)
}

} // verus!
