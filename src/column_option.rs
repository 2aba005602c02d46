//! The `[option]` that names a column type in a result's metadata.
use vstd::prelude::*;
use crate::notation::{be16, be32, decode16, decode32, read_int, read_short, read_string, short_text, string_enc, write_int, write_short, write_string, ByteReader, DecodeError, lemma_parsed_text, parse_text};

verus! {

broadcast use vstd::std_specs::vec::group_vec_axioms;

/// A column type.
#[derive(Debug)]
pub enum ColumnOption {
    Custom(String),
    Ascii,
    Bigint,
    Blob,
    Boolean,
    Counter,
    Decimal,
    Double,
    Float,
    Int,
    Timestamp,
    Uuid,
    Varchar,
    Varint,
    Timeuuid,
    Inet,
    List(Box<ColumnOption>),
    MapOf(Box<ColumnOption>, Box<ColumnOption>),
    SetOf(Box<ColumnOption>),
    Tuple(Vec<ColumnOption>),
}

/// The id of each type.
pub open spec fn option_id(o: ColumnOption) -> u32 {
    match o {
        ColumnOption::Custom(_) => 0x00,
        ColumnOption::Ascii => 0x01,
        ColumnOption::Bigint => 0x02,
        ColumnOption::Blob => 0x03,
        ColumnOption::Boolean => 0x04,
        ColumnOption::Counter => 0x05,
        ColumnOption::Decimal => 0x06,
        ColumnOption::Double => 0x07,
        ColumnOption::Float => 0x08,
        ColumnOption::Int => 0x09,
        ColumnOption::Timestamp => 0x0B,
        ColumnOption::Uuid => 0x0C,
        ColumnOption::Varchar => 0x0D,
        ColumnOption::Varint => 0x0E,
        ColumnOption::Timeuuid => 0x0F,
        ColumnOption::Inet => 0x10,
        ColumnOption::List(_) => 0x20,
        ColumnOption::MapOf(_, _) => 0x21,
        ColumnOption::SetOf(_) => 0x22,
        ColumnOption::Tuple(_) => 0x31,
    }
}

/// The bytes of an `[option]`: its id as an `[int]`, then what the type carries.
pub open spec fn option_enc(o: ColumnOption) -> Seq<u8>
    decreases o,
{
    be32(option_id(o)) + match o {
        ColumnOption::Custom(name) => string_enc(name@),
        ColumnOption::List(inner) => option_enc(*inner),
        ColumnOption::MapOf(k, v) => option_enc(*k) + option_enc(*v),
        ColumnOption::SetOf(inner) => option_enc(*inner),
        ColumnOption::Tuple(types) => be16(types@.len() as u16) + items_enc(types@),
        _ => Seq::empty(),
    }
}

/// The `[option]`s of a tuple, one after another.
pub open spec fn items_enc(s: Seq<ColumnOption>) -> Seq<u8>
    decreases s,
{
    if s.len() == 0 {
        Seq::empty()
    } else {
        items_enc(s.drop_last()) + option_enc(s.last())
    }
}

/// Whether every name fits its `[string]` and every tuple its `[short]` count.
pub open spec fn option_fits(o: ColumnOption) -> bool
    decreases o,
{
    match o {
        ColumnOption::Custom(name) => short_text(name@),
        ColumnOption::List(inner) => option_fits(*inner),
        ColumnOption::MapOf(k, v) => option_fits(*k) && option_fits(*v),
        ColumnOption::SetOf(inner) => option_fits(*inner),
        ColumnOption::Tuple(types) => types@.len() <= u16::MAX && items_fit(types@),
        _ => true,
    }
}

pub open spec fn items_fit(s: Seq<ColumnOption>) -> bool
    decreases s,
{
    if s.len() == 0 {
        true
    } else {
        items_fit(s.drop_last()) && option_fits(s.last())
    }
}

impl ColumnOption {
    fn id(&self) -> (r: i32)
        ensures
            r as u32 == option_id(*self),
            r >= 0,
    {
        match self {
            ColumnOption::Custom(_) => 0x00,
            ColumnOption::Ascii => 0x01,
            ColumnOption::Bigint => 0x02,
            ColumnOption::Blob => 0x03,
            ColumnOption::Boolean => 0x04,
            ColumnOption::Counter => 0x05,
            ColumnOption::Decimal => 0x06,
            ColumnOption::Double => 0x07,
            ColumnOption::Float => 0x08,
            ColumnOption::Int => 0x09,
            ColumnOption::Timestamp => 0x0B,
            ColumnOption::Uuid => 0x0C,
            ColumnOption::Varchar => 0x0D,
            ColumnOption::Varint => 0x0E,
            ColumnOption::Timeuuid => 0x0F,
            ColumnOption::Inet => 0x10,
            ColumnOption::List(_) => 0x20,
            ColumnOption::MapOf(_, _) => 0x21,
            ColumnOption::SetOf(_) => 0x22,
            ColumnOption::Tuple(_) => 0x31,
        }
    }

    /// Writes the `[option]`.
    pub fn write(&self, buffer: &mut Vec<u8>)
        requires
            option_fits(*self),
        ensures
            final(buffer)@ == old(buffer)@ + option_enc(*self),
        decreases self,
    {
        let ghost start = buffer@;
        write_int(buffer, self.id());
        match self {
            ColumnOption::Custom(name) => {
                write_string(buffer, name.as_str());
            },
            ColumnOption::List(inner) => {
                inner.write(buffer);
            },
            ColumnOption::MapOf(k, v) => {
                k.write(buffer);
                v.write(buffer);
            },
            ColumnOption::SetOf(inner) => {
                inner.write(buffer);
            },
            ColumnOption::Tuple(types) => {
                write_short(buffer, types.len() as u16);
                let ghost mid = buffer@;
                let mut i: usize = 0;
                while i < types.len()
                    invariant
                        i <= types@.len(),
                        *self == ColumnOption::Tuple(*types),
                        items_fit(types@),
                        buffer@ == mid + items_enc(types@.take(i as int)),
                    decreases types@.len() - i,
                {
                    proof {
                        lemma_items_fit_index(types@, i as int);
                        vstd::std_specs::vec::axiom_vec_index_decreases(*types, i as int);
                        let me = *self;
                        match me {
                            ColumnOption::Tuple(v) => {
                                assert(v == *types);
                                assert(decreases_to!(me => v));
                            },
                            _ => {},
                        }
                        assert(decreases_to!(*self => types[i as int]));
                    }
                    types[i].write(buffer);
                    proof {
                        assert(types@.take(i + 1).drop_last() =~= types@.take(i as int));
                    }
                    i = i + 1;
                    assert(buffer@ =~= mid + items_enc(types@.take(i as int)));
                }
                assert(types@.take(i as int) =~= types@);
            },
            _ => {},
        }
        assert(buffer@ =~= start + option_enc(*self));
    }

    /// Reads an `[option]`; an unknown id is refused.
    #[verifier::spinoff_prover]
    #[verifier::rlimit(100)]
    pub fn read_option(cursor: &mut ByteReader) -> (r: Result<ColumnOption, DecodeError>)
        ensures
            r is Ok ==> old(cursor).rest() == option_enc(r->Ok_0) + final(cursor).rest(),
            final(cursor).rest().len() <= old(cursor).rest().len(),
            forall|o: ColumnOption, t: Seq<u8>| option_fits(o) && old(cursor).rest() == #[trigger] (option_enc(o) + t) ==> r is Ok
                && final(cursor).rest() == t,
        decreases old(cursor).rest().len(),
    {
        let ghost b = cursor.rest();
        let id = match read_int(cursor) {
            Ok(v) => v,
            Err(e) => {
                proof {
                    assert forall|o: ColumnOption, t: Seq<u8>| option_fits(o) && b == #[trigger] (option_enc(o) + t) implies false by {
                        lemma_enc_head(o, t);
                    }
                }
                return Err(e);
            },
        };
        proof { lemma_be32_of(b); }
        let ghost head = cursor.rest();
        proof {
            assert forall|o: ColumnOption, t: Seq<u8>| option_fits(o) && b == #[trigger] (option_enc(o) + t) implies
                option_id(o) == id as u32 && head == payload(o) + t by {
                lemma_enc_head(o, t);
            }
        }
        let r = match id {
            0x00 => {
                let ghost before = cursor.rest();
                match read_string(cursor) {
                    Ok(s) => {
                        proof {
                            assert forall|o: ColumnOption, t: Seq<u8>| option_fits(o) && b == #[trigger] (option_enc(o) + t) implies cursor.rest() == t by {
                                if let ColumnOption::Custom(name) = o {
                                    crate::notation::lemma_text_round_trip(name@, t);
                                    assert(before.skip(string_enc(name@).len() as int) =~= t);
                                }
                            }
                            lemma_parsed_text(before);
                            let k = before.len() - cursor.rest().len();
                            assert(before =~= before.take(k) + before.skip(k));
                        }
                        ColumnOption::Custom(s)
                    },
                    Err(e) => {
                        proof {
                            assert forall|o: ColumnOption, t: Seq<u8>| option_fits(o) && b == #[trigger] (option_enc(o) + t) implies false by {
                                if let ColumnOption::Custom(name) = o {
                                    crate::notation::lemma_text_round_trip(name@, t);
                                }
                            }
                        }
                        return Err(e);
                    },
                }
            },
            0x01 => ColumnOption::Ascii,
            0x02 => ColumnOption::Bigint,
            0x03 => ColumnOption::Blob,
            0x04 => ColumnOption::Boolean,
            0x05 => ColumnOption::Counter,
            0x06 => ColumnOption::Decimal,
            0x07 => ColumnOption::Double,
            0x08 => ColumnOption::Float,
            0x09 => ColumnOption::Int,
            0x0B => ColumnOption::Timestamp,
            0x0C => ColumnOption::Uuid,
            0x0D => ColumnOption::Varchar,
            0x0E => ColumnOption::Varint,
            0x0F => ColumnOption::Timeuuid,
            0x10 => ColumnOption::Inet,
            0x20 => {
                let inner = match Self::read_option(cursor) {
                    Ok(x) => x,
                    Err(e) => {
                        proof {
                            assert forall|o: ColumnOption, t: Seq<u8>| option_fits(o) && b == #[trigger] (option_enc(o) + t) implies false by {
                                if let ColumnOption::List(x) = o {
                                    assert(head == option_enc(*x) + t);
                                }
                            }
                        }
                        return Err(e);
                    },
                };
                proof {
                    assert forall|o: ColumnOption, t: Seq<u8>| option_fits(o) && b == #[trigger] (option_enc(o) + t) implies cursor.rest() == t by {
                        if let ColumnOption::List(x) = o {
                            assert(head == option_enc(*x) + t);
                        }
                    }
                }
                ColumnOption::List(Box::new(inner))
            },
            0x21 => {
                let k = match Self::read_option(cursor) {
                    Ok(x) => x,
                    Err(e) => {
                        proof {
                            assert forall|o: ColumnOption, t: Seq<u8>| option_fits(o) && b == #[trigger] (option_enc(o) + t) implies false by {
                                if let ColumnOption::MapOf(x, y) = o {
                                    assert(head == option_enc(*x) + (option_enc(*y) + t));
                                }
                            }
                        }
                        return Err(e);
                    },
                };
                let ghost mid = cursor.rest();
                proof {
                    assert forall|o: ColumnOption, t: Seq<u8>| option_fits(o) && b == #[trigger] (option_enc(o) + t) implies (o matches ColumnOption::MapOf(_, y) ==> mid == option_enc(*y) + t) by {
                        if let ColumnOption::MapOf(x, y) = o {
                            assert(head == option_enc(*x) + (option_enc(*y) + t));
                        }
                    }
                }
                let v = match Self::read_option(cursor) {
                    Ok(x) => x,
                    Err(e) => {
                        proof {
                            assert forall|o: ColumnOption, t: Seq<u8>| option_fits(o) && b == #[trigger] (option_enc(o) + t) implies false by {
                                if let ColumnOption::MapOf(x, y) = o {
                                    assert(mid == option_enc(*y) + t);
                                }
                            }
                        }
                        return Err(e);
                    },
                };
                proof {
                    assert forall|o: ColumnOption, t: Seq<u8>| option_fits(o) && b == #[trigger] (option_enc(o) + t) implies cursor.rest() == t by {
                        if let ColumnOption::MapOf(x, y) = o {
                            assert(mid == option_enc(*y) + t);
                        }
                    }
                }
                ColumnOption::MapOf(Box::new(k), Box::new(v))
            },
            0x22 => {
                let inner = match Self::read_option(cursor) {
                    Ok(x) => x,
                    Err(e) => {
                        proof {
                            assert forall|o: ColumnOption, t: Seq<u8>| option_fits(o) && b == #[trigger] (option_enc(o) + t) implies false by {
                                if let ColumnOption::SetOf(x) = o {
                                    assert(head == option_enc(*x) + t);
                                }
                            }
                        }
                        return Err(e);
                    },
                };
                proof {
                    assert forall|o: ColumnOption, t: Seq<u8>| option_fits(o) && b == #[trigger] (option_enc(o) + t) implies cursor.rest() == t by {
                        if let ColumnOption::SetOf(x) = o {
                            assert(head == option_enc(*x) + t);
                        }
                    }
                }
                ColumnOption::SetOf(Box::new(inner))
            },
            0x31 => {
                let ghost before = cursor.rest();
                let n = read_short(cursor)?;
                proof { lemma_be16_of(before); }
                let ghost mid = cursor.rest();
                proof {
                    assert forall|o: ColumnOption, t: Seq<u8>| option_fits(o) && b == #[trigger] (option_enc(o) + t) implies
                        (o is Tuple && o->Tuple_0@.len() == n && mid == items_enc(o->Tuple_0@.skip(0)) + t) by {
                        lemma_enc_head(o, t);
                        if let ColumnOption::Tuple(types) = o {
                            let len = types@.len() as u16;
                            crate::notation::lemma_be16_round_trip(len);
                            assert(head == be16(len) + (items_enc(types@) + t));
                            assert(head.subrange(0, 2) =~= be16(len));
                            assert(decode16(head) == decode16(head.subrange(0, 2)));
                            assert(types@.skip(0) =~= types@);
                            assert(mid =~= items_enc(types@) + t);
                        }
                    }
                }
                let mut types: Vec<ColumnOption> = Vec::new();
                let mut i: u16 = 0;
                while i < n
                    invariant
                        i <= n,
                        types@.len() == i,
                        b == old(cursor).rest(),
                        mid.len() < b.len(),
                        cursor.rest().len() <= mid.len(),
                        mid == items_enc(types@) + cursor.rest(),
                        forall|o: ColumnOption, t: Seq<u8>| option_fits(o) && b == #[trigger] (option_enc(o) + t) ==>
                            (o is Tuple && o->Tuple_0@.len() == n && cursor.rest() == items_enc(o->Tuple_0@.skip(i as int)) + t),
                    decreases n - i,
                {
                    let ghost cur = cursor.rest();
                    let t = match Self::read_option(cursor) {
                        Ok(x) => x,
                        Err(e) => {
                            proof {
                                assert forall|o: ColumnOption, tt: Seq<u8>| option_fits(o) && b == #[trigger] (option_enc(o) + tt) implies false by {
                                    let ts = o->Tuple_0@;
                                    lemma_items_front(ts, i as int);
                                    lemma_items_fit_index(ts, i as int);
                                    assert(cur == option_enc(ts[i as int]) + (items_enc(ts.skip(i + 1)) + tt));
                                }
                            }
                            return Err(e);
                        },
                    };
                    proof {
                        assert forall|o: ColumnOption, tt: Seq<u8>| option_fits(o) && b == #[trigger] (option_enc(o) + tt) implies
                            cursor.rest() == items_enc(o->Tuple_0@.skip(i + 1)) + tt by {
                            let ts = o->Tuple_0@;
                            lemma_items_front(ts, i as int);
                            lemma_items_fit_index(ts, i as int);
                            assert(cur == option_enc(ts[i as int]) + (items_enc(ts.skip(i + 1)) + tt));
                        }
                    }
                    let ghost prev = types@;
                    types.push(t);
                    proof {
                        assert(types@.drop_last() =~= prev);
                        assert(mid =~= items_enc(types@) + cursor.rest());
                    }
                    i = i + 1;
                }
                proof {
                    assert(before =~= be16(n) + mid);
                    assert forall|o: ColumnOption, tt: Seq<u8>| option_fits(o) && b == #[trigger] (option_enc(o) + tt) implies cursor.rest() == tt by {
                        assert(o->Tuple_0@.skip(n as int) =~= Seq::<ColumnOption>::empty());
                    }
                }
                ColumnOption::Tuple(types)
            },
            _ => {
                proof {
                    assert(id >= 0 ==> (id as u32) as int == id as int) by (bit_vector);
                    assert(id < 0 ==> (id as u32) > 0x7fff_ffffu32) by (bit_vector);
                    assert forall|o: ColumnOption, t: Seq<u8>| option_fits(o) && b == #[trigger] (option_enc(o) + t) implies false by {
                        lemma_enc_head(o, t);
                        assert(id as u32 == option_id(o));
                    }
                }
                return Err(DecodeError::UnexpectedEnd);
            },
        };
        proof {
            assert(b =~= option_enc(r) + cursor.rest());
        }
        Ok(r)
    }
}

/// The bytes of an `[option]` after its id.
pub open spec fn payload(o: ColumnOption) -> Seq<u8> {
    match o {
        ColumnOption::Custom(name) => string_enc(name@),
        ColumnOption::List(inner) => option_enc(*inner),
        ColumnOption::MapOf(k, v) => option_enc(*k) + option_enc(*v),
        ColumnOption::SetOf(inner) => option_enc(*inner),
        ColumnOption::Tuple(types) => be16(types@.len() as u16) + items_enc(types@),
        _ => Seq::empty(),
    }
}

proof fn lemma_enc_head(o: ColumnOption, t: Seq<u8>)
    ensures
        (option_enc(o) + t).len() >= 4,
        decode32(option_enc(o) + t) == option_id(o),
        (option_enc(o) + t).skip(4) == payload(o) + t,
{
    let b = option_enc(o) + t;
    assert(option_enc(o) == be32(option_id(o)) + payload(o));
    crate::notation::lemma_be32_round_trip(option_id(o));
    assert(b.subrange(0, 4) =~= be32(option_id(o)));
    assert(decode32(b) == decode32(b.subrange(0, 4)));
    assert(b.skip(4) =~= payload(o) + t);
}

proof fn lemma_items_append(a: Seq<ColumnOption>, c: Seq<ColumnOption>)
    ensures
        items_enc(a + c) == items_enc(a) + items_enc(c),
    decreases c.len(),
{
    if c.len() == 0 {
        assert(a + c =~= a);
        assert(items_enc(a) + items_enc(c) =~= items_enc(a));
    } else {
        lemma_items_append(a, c.drop_last());
        assert((a + c).drop_last() =~= a + c.drop_last());
        assert((a + c).last() == c.last());
        assert(items_enc(a + c) =~= items_enc(a) + items_enc(c));
    }
}

proof fn lemma_items_front(s: Seq<ColumnOption>, i: int)
    requires
        0 <= i < s.len(),
    ensures
        items_enc(s.skip(i)) == option_enc(s[i]) + items_enc(s.skip(i + 1)),
{
    assert(s.skip(i) =~= seq![s[i]] + s.skip(i + 1));
    lemma_items_append(seq![s[i]], s.skip(i + 1));
    assert(seq![s[i]].drop_last() =~= Seq::<ColumnOption>::empty());
    assert(items_enc(Seq::<ColumnOption>::empty()) == Seq::<u8>::empty());
    assert(seq![s[i]].last() == s[i]);
    assert(items_enc(seq![s[i]]) =~= option_enc(s[i]));
}

proof fn lemma_items_fit_index(s: Seq<ColumnOption>, i: int)
    requires
        items_fit(s),
        0 <= i < s.len(),
    ensures
        option_fits(s[i]),
    decreases s.len(),
{
    if i < s.len() - 1 {
        lemma_items_fit_index(s.drop_last(), i);
    }
}

proof fn lemma_be32_of(b: Seq<u8>)
    requires
        b.len() >= 4,
    ensures
        b == be32(decode32(b)) + b.skip(4),
{
    let b0 = b[0];
    let b1 = b[1];
    let b2 = b[2];
    let b3 = b[3];
    let v = decode32(b);
    assert(((v >> 24u32) as u8) == b0 && ((v >> 16u32) as u8) == b1 && ((v >> 8u32) as u8) == b2
        && (v as u8) == b3) by (bit_vector)
        requires
            v == (((b0 as u32) << 24u32) | ((b1 as u32) << 16u32) | ((b2 as u32) << 8u32) | (
            b3 as u32)) as u32,
    ;
    assert(b =~= be32(v) + b.skip(4));
}

proof fn lemma_be16_of(b: Seq<u8>)
    requires
        b.len() >= 2,
    ensures
        b == be16(decode16(b)) + b.skip(2),
{
    let b0 = b[0];
    let b1 = b[1];
    let v = decode16(b);
    assert(((v >> 8u16) as u8) == b0 && (v as u8) == b1) by (bit_vector)
        requires
            v == (((b0 as u16) << 8u16) | (b1 as u16)) as u16,
    ;
    assert(b =~= be16(v) + b.skip(2));
}

} // verus!
