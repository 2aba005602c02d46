//! A row of a `RESULT` frame: one `[bytes]` value per column.
use vstd::prelude::*;
use crate::notation::{be32, decode32, lemma_be32_round_trip, parse_bytes, read_bytes, write_bytes, ByteReader, DecodeError};
use crate::serde_table::{concat_map, lemma_concat_map_push, lemma_parse_seq_bound, lemma_parse_seq_extend, lemma_parse_seq_prefix, lemma_parse_seq_round_trip, parse_seq};

verus! {

#[derive(Debug, PartialEq, Clone)]
pub struct Row {
    pub values: Vec<Vec<u8>>,
}

/// The `[bytes]` of one value.
pub open spec fn bytes_item() -> spec_fn(Seq<u8>) -> Seq<u8> {
    |v: Seq<u8>| be32(v.len() as u32) + v
}

pub open spec fn bytes_parser() -> spec_fn(Seq<u8>) -> Option<(Seq<u8>, int)> {
    |b: Seq<u8>| parse_bytes(b)
}

/// The `[bytes]` of each value, one after another.
pub open spec fn values_enc(values: Seq<Seq<u8>>) -> Seq<u8> {
    concat_map(values, bytes_item())
}

pub open spec fn bytes_views(v: Seq<Vec<u8>>) -> Seq<Seq<u8>> {
    v.map_values(|b: Vec<u8>| b@)
}

/// A value written as `[bytes]` reads back, whatever follows it.
pub proof fn lemma_bytes_round_trip(v: Seq<u8>, u: Seq<u8>)
    requires
        v.len() <= i32::MAX,
    ensures
        parse_bytes(bytes_item()(v) + u) == Some((v, 4 + v.len() as int)),
{
    reveal(parse_bytes);
    let b = bytes_item()(v) + u;
    lemma_be32_round_trip(v.len() as u32);
    assert(b.subrange(0, 4) =~= be32(v.len() as u32));
    assert(decode32(b) == decode32(b.subrange(0, 4)));
    assert(b.subrange(4, 4 + v.len() as int) =~= v);
}

/// Values written by `serialize` read back as the same values, whatever follows them.
#[verifier::spinoff_prover]
#[verifier::rlimit(60)]
pub proof fn lemma_values_round_trip(vs: Seq<Seq<u8>>, t: Seq<u8>)
    requires
        forall|i: int| 0 <= i < vs.len() ==> (#[trigger] vs[i]).len() <= i32::MAX,
    ensures
        parse_seq(values_enc(vs) + t, vs.len(), bytes_parser()) == Some((vs, values_enc(vs).len() as int)),
{
    assert forall|i: int, u: Seq<u8>| 0 <= i < vs.len() implies #[trigger] bytes_parser()(bytes_item()(vs[i]) + u) == Some((vs[i], bytes_item()(vs[i]).len() as int)) by {
        lemma_bytes_round_trip(vs[i], u);
        let x = bytes_item()(vs[i]) + u;
        assert(bytes_parser()(x) == parse_bytes(x));
        assert(bytes_item()(vs[i]).len() == 4 + vs[i].len());
    }
    lemma_parse_seq_round_trip(vs, t, bytes_item(), bytes_parser());
}

pub proof fn lemma_bytes_bound(b: Seq<u8>)
    requires
        parse_bytes(b) is Some,
    ensures
        0 <= parse_bytes(b)->Some_0.1 <= b.len(),
{
    reveal(parse_bytes);
}

impl Row {
    /// Reads `columns_count` values.
    pub fn deserialize(columns_count: usize, cursor: &mut ByteReader) -> (r: Result<Self, DecodeError>)
        ensures
            match parse_seq(old(cursor).rest(), columns_count as nat, bytes_parser()) {
                Some((vs, k)) => r is Ok && bytes_views(r->Ok_0.values@) == vs && final(cursor).rest() == old(cursor).rest().skip(k),
                None => r is Err,
            },
    {
        let ghost b0 = cursor.rest();
        let mut values: Vec<Vec<u8>> = Vec::new();
        let mut i: usize = 0;
        assert(parse_seq(b0, 0, bytes_parser()) == Some((Seq::<Seq<u8>>::empty(), 0int)));
        assert(b0.skip(0) =~= b0);
        assert(bytes_views(values@) =~= Seq::<Seq<u8>>::empty());
        while i < columns_count
            invariant
                i <= columns_count,
                b0 == old(cursor).rest(),
                cursor.rest().len() <= b0.len(),
                parse_seq(b0, i as nat, bytes_parser()) == Some((bytes_views(values@), b0.len() - cursor.rest().len())),
                cursor.rest() == b0.skip(b0.len() - cursor.rest().len()),
            decreases columns_count - i,
        {
            let ghost before = cursor.rest();
            let ghost done = b0.len() - before.len();
            proof { lemma_parse_seq_extend(b0, i as nat, bytes_parser()); }
            match read_bytes(cursor) {
                Ok(value) => {
                    let ghost prev = values@;
                    let ghost vv = value@;
                    values.push(value);
                    proof {
                        lemma_bytes_bound(before);
                        assert(bytes_views(values@) =~= bytes_views(prev).push(vv));
                        assert(cursor.rest() =~= b0.skip(b0.len() - cursor.rest().len()));
                    }
                },
                Err(e) => {
                    proof {
                        assert(before == b0.skip(done));
                        assert(bytes_parser()(before) == parse_bytes(before));
                        assert(parse_seq(b0, (i + 1) as nat, bytes_parser()) is None);
                        if parse_seq(b0, columns_count as nat, bytes_parser()) is Some {
                            lemma_parse_seq_prefix(b0, columns_count as nat, (i + 1) as nat, bytes_parser());
                        }
                    }
                    return Err(e);
                },
            }
            i = i + 1;
        }
        proof { lemma_parse_seq_bound(b0, columns_count as nat, bytes_parser()); }
        assert(cursor.rest() =~= b0.skip(b0.len() - cursor.rest().len()));
        Ok(Row { values })
    }

    /// Writes each value as `[bytes]`.
    pub fn serialize(&self, buffer: &mut Vec<u8>)
        requires
            forall|i: int| 0 <= i < self.values@.len() ==> (#[trigger] self.values@[i])@.len() <= i32::MAX,
        ensures
            final(buffer)@ == old(buffer)@ + values_enc(bytes_views(self.values@)),
    {
        let ghost start = buffer@;
        let ghost vs = bytes_views(self.values@);
        let mut i: usize = 0;
        assert(vs.take(0) =~= Seq::<Seq<u8>>::empty());
        while i < self.values.len()
            invariant
                i <= self.values@.len(),
                vs == bytes_views(self.values@),
                forall|j: int| 0 <= j < self.values@.len() ==> (#[trigger] self.values@[j])@.len() <= i32::MAX,
                buffer@ == start + values_enc(vs.take(i as int)),
            decreases self.values@.len() - i,
        {
            assert(self.values@[i as int]@.len() <= i32::MAX);
            write_bytes(buffer, self.values[i].as_slice());
            proof {
                lemma_concat_map_push(vs.take(i as int), vs[i as int], bytes_item());
                assert(vs.take(i + 1) =~= vs.take(i as int).push(vs[i as int]));
            }
            i = i + 1;
            assert(buffer@ =~= start + values_enc(vs.take(i as int)));
        }
        assert(vs.take(i as int) =~= vs);
    }
}

} // verus!
