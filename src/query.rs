//! The body of a `QUERY` frame.
use vstd::prelude::*;
use crate::consistency_level::{level_code, level_of_code, read_consistency, write_consistency, ConsistencyLevel};
use crate::notation::{
    be16, be32, be64, decode16, long_string_enc, parse_text, read_byte, read_bytes, read_int, read_long,
    read_long_string, read_short, read_string, short_text, string_enc, write_byte, write_bytes, write_int,
    write_long, write_long_string, write_short, write_string, ByteReader, DecodeError,
};
use vstd::utf8::encode_utf8;
use crate::notation::{decode32, decode64, parse_bytes};
use crate::serde_table::{concat_map, parse_seq};

verus! {

/// The flag bits of a query.
pub const VALUES: u8 = 0x01;
pub const SKIP_METADATA: u8 = 0x02;
pub const PAGE_SIZE: u8 = 0x04;
pub const WITH_PAGING_STATE: u8 = 0x08;
pub const WITH_SERIAL_CONSISTENCY: u8 = 0x10;
pub const WITH_DEFAULT_TIMESTAMP: u8 = 0x20;
pub const WITH_NAMES_FOR_VALUES: u8 = 0x40;

#[derive(Debug, Clone)]
pub struct Query {
    pub query_string: String,
    pub consistency_level: ConsistencyLevel,
    pub values: Option<Vec<(Option<String>, Vec<u8>)>>,
    pub skip_metadata: bool,
    pub result_page_size: Option<i32>,
    pub paging_state: Option<Vec<u8>>,
    pub serial_consistency: Option<ConsistencyLevel>,
    pub time_stamp: Option<i64>,
}

pub open spec fn any_named(values: Seq<(Option<String>, Vec<u8>)>) -> bool {
    exists|i: int| 0 <= i < values.len() && (#[trigger] values[i]).0 is Some
}

/// The flags byte that announces what the query carries.
pub open spec fn flags_of(q: Query) -> u8 {
    ((if q.values is Some { VALUES } else { 0u8 }) | (if q.values is Some && any_named(q.values->Some_0@) {
        WITH_NAMES_FOR_VALUES
    } else {
        0u8
    }) | (if q.skip_metadata { SKIP_METADATA } else { 0u8 }) | (if q.result_page_size is Some { PAGE_SIZE } else { 0u8 })
        | (if q.paging_state is Some { WITH_PAGING_STATE } else { 0u8 }) | (if q.serial_consistency is Some {
        WITH_SERIAL_CONSISTENCY
    } else {
        0u8
    }) | (if q.time_stamp is Some { WITH_DEFAULT_TIMESTAMP } else { 0u8 })) as u8
}

pub open spec fn value_enc(v: (Option<String>, Vec<u8>)) -> Seq<u8> {
    (match v.0 {
        Some(name) => string_enc(name@),
        None => Seq::empty(),
    }) + be32(v.1@.len() as u32) + v.1@
}

pub open spec fn value_view(v: (Option<String>, Vec<u8>)) -> (Option<Seq<char>>, Seq<u8>) {
    (match v.0 {
        Some(name) => Some(name@),
        None => None,
    }, v.1@)
}

pub open spec fn values_view(values: Seq<(Option<String>, Vec<u8>)>) -> Seq<(Option<Seq<char>>, Seq<u8>)> {
    values.map_values(|v: (Option<String>, Vec<u8>)| value_view(v))
}

/// One value: its name, if any, as a `[string]`, then its `[bytes]`.
pub open spec fn value_item() -> spec_fn((Option<Seq<char>>, Seq<u8>)) -> Seq<u8> {
    |v: (Option<Seq<char>>, Seq<u8>)| (match v.0 {
        Some(name) => string_enc(name),
        None => Seq::empty(),
    }) + be32(v.1.len() as u32) + v.1
}

pub open spec fn values_enc(values: Seq<(Option<String>, Vec<u8>)>) -> Seq<u8> {
    concat_map(values_view(values), value_item())
}

/// Reads one value, with a name first when `named`.
pub open spec fn value_parser(named: bool) -> spec_fn(Seq<u8>) -> Option<((Option<Seq<char>>, Seq<u8>), int)> {
    |b: Seq<u8>| if named {
        match parse_text(b, 2) {
            Some((name, n1)) => if 0 <= n1 <= b.len() {
                match parse_bytes(b.skip(n1)) {
                    Some((v, n2)) => Some(((Some(name), v), n1 + n2)),
                    None => None,
                }
            } else {
                None
            },
            None => None,
        }
    } else {
        match parse_bytes(b) {
            Some((v, n)) => Some(((None, v), n)),
            None => None,
        }
    }
}

/// What a query body holds.
pub struct QueryView {
    pub text: Seq<char>,
    pub level: ConsistencyLevel,
    pub skip: bool,
    pub values: Option<Seq<(Option<Seq<char>>, Seq<u8>)>>,
    pub page: Option<u32>,
    pub paging: Option<Seq<u8>>,
    pub serial: Option<ConsistencyLevel>,
    pub stamp: Option<u64>,
}

pub open spec fn query_view(q: Query) -> QueryView {
    QueryView {
        text: q.query_string@,
        level: q.consistency_level,
        skip: q.skip_metadata,
        values: match q.values {
            Some(v) => Some(values_view(v@)),
            None => None,
        },
        page: match q.result_page_size {
            Some(n) => Some(n as u32),
            None => None,
        },
        paging: match q.paging_state {
            Some(p) => Some(p@),
            None => None,
        },
        serial: q.serial_consistency,
        stamp: match q.time_stamp {
            Some(t) => Some(t as u64),
            None => None,
        },
    }
}

pub open spec fn parse_values_opt(b: Seq<u8>, on: bool, named: bool) -> Option<(Option<Seq<(Option<Seq<char>>, Seq<u8>)>>, int)> {
    if !on {
        Some((None, 0))
    } else if b.len() < 2 {
        None
    } else {
        match parse_seq(b.skip(2), decode16(b) as nat, value_parser(named)) {
            Some((l, k)) => Some((Some(l), 2 + k)),
            None => None,
        }
    }
}

pub open spec fn parse_opt_int(b: Seq<u8>, on: bool) -> Option<(Option<u32>, int)> {
    if !on { Some((None, 0)) } else if b.len() >= 4 { Some((Some(decode32(b)), 4)) } else { None }
}

pub open spec fn parse_opt_bytes(b: Seq<u8>, on: bool) -> Option<(Option<Seq<u8>>, int)> {
    if !on {
        Some((None, 0))
    } else {
        match parse_bytes(b) {
            Some((v, k)) => Some((Some(v), k)),
            None => None,
        }
    }
}

pub open spec fn parse_opt_level(b: Seq<u8>, on: bool) -> Option<(Option<ConsistencyLevel>, int)> {
    if !on { Some((None, 0)) } else if b.len() >= 2 { Some((Some(level_of_code(decode16(b))), 2)) } else { None }
}

pub open spec fn parse_opt_long(b: Seq<u8>, on: bool) -> Option<(Option<u64>, int)> {
    if !on { Some((None, 0)) } else if b.len() >= 8 { Some((Some(decode64(b.take(8))), 8)) } else { None }
}

/// What a query body at the front of `b` holds.
pub open spec fn parse_query(b: Seq<u8>) -> Option<QueryView> {
    match parse_text(b, 4) {
        Some((text, n1)) => if b.len() < n1 + 3 {
            None
        } else {
            let f = b[n1 + 2];
            let b2 = b.skip(n1 + 3);
            match parse_values_opt(b2, f & VALUES != 0, f & WITH_NAMES_FOR_VALUES != 0) {
                Some((values, n3)) => if !(0 <= n3 <= b2.len()) { None } else {
                    let b3 = b2.skip(n3);
                    match parse_opt_int(b3, f & PAGE_SIZE != 0) {
                        Some((page, n4)) => {
                            let b4 = b3.skip(n4);
                            match parse_opt_bytes(b4, f & WITH_PAGING_STATE != 0) {
                                Some((paging, n5)) => if !(0 <= n5 <= b4.len()) { None } else {
                                    let b5 = b4.skip(n5);
                                    match parse_opt_level(b5, f & WITH_SERIAL_CONSISTENCY != 0) {
                                        Some((serial, n6)) => match parse_opt_long(b5.skip(n6), f & WITH_DEFAULT_TIMESTAMP != 0) {
                                            Some((stamp, _)) => Some(QueryView {
                                                text,
                                                level: level_of_code(decode16(b.skip(n1))),
                                                skip: f & SKIP_METADATA != 0,
                                                values,
                                                page,
                                                paging,
                                                serial,
                                                stamp,
                                            }),
                                            None => None,
                                        },
                                        None => None,
                                    }
                                },
                                None => None,
                            }
                        },
                        None => None,
                    }
                },
                None => None,
            }
        },
        None => None,
    }
}

/// The bytes of a query body.
pub open spec fn query_enc(q: Query) -> Seq<u8> {
    long_string_enc(q.query_string@) + be16(level_code(q.consistency_level)) + seq![flags_of(q)]
        + values_part(q) + tail_enc(q)
}

pub open spec fn values_part(q: Query) -> Seq<u8> {
    match q.values {
        Some(v) => be16(v@.len() as u16) + values_enc(v@),
        None => Seq::empty(),
    }
}

/// The optional fields after the values.
pub open spec fn tail_enc(q: Query) -> Seq<u8> {
    (match q.result_page_size {
        Some(n) => be32(n as u32),
        None => Seq::empty(),
    }) + (match q.paging_state {
        Some(p) => be32(p@.len() as u32) + p@,
        None => Seq::empty(),
    }) + (match q.serial_consistency {
        Some(c) => be16(level_code(c)),
        None => Seq::empty(),
    }) + (match q.time_stamp {
        Some(t) => be64(t as u64),
        None => Seq::empty(),
    })
}

/// Every text and blob of the query fits the length that precedes it.
pub open spec fn query_fits(q: Query) -> bool {
    &&& encode_utf8(q.query_string@).len() <= i32::MAX
    &&& q.values is Some ==> q.values->Some_0@.len() <= u16::MAX && forall|i: int| 0 <= i < q.values->Some_0@.len() ==> {
        &&& ((#[trigger] q.values->Some_0@[i]).0 is Some ==> short_text(q.values->Some_0@[i].0->Some_0@))
        &&& q.values->Some_0@[i].1@.len() <= i32::MAX
    }
    &&& q.paging_state is Some ==> q.paging_state->Some_0@.len() <= i32::MAX
}

impl Query {
    /// A query with nothing but its text and level, which skips the result metadata.
    pub fn default(query_string: String, consistency_level: ConsistencyLevel) -> (r: Self)
        ensures
            r.query_string == query_string,
            r.consistency_level == consistency_level,
            r.values is None,
            r.skip_metadata,
            r.result_page_size is None,
            r.paging_state is None,
            r.serial_consistency is None,
            r.time_stamp is None,
    {
        Query {
            query_string,
            consistency_level,
            values: None,
            skip_metadata: true,
            result_page_size: None,
            paging_state: None,
            serial_consistency: None,
            time_stamp: None,
        }
    }

    /// The flags byte of the query.
    pub fn serialize_flags(&self) -> (r: u8)
        ensures
            r == flags_of(*self),
    {
        let mut named = false;
        if let Some(values) = &self.values {
            let mut i: usize = 0;
            while i < values.len()
                invariant
                    i <= values@.len(),
                    named <==> exists|j: int| 0 <= j < i && (#[trigger] values@[j]).0 is Some,
                decreases values@.len() - i,
            {
                if values[i].0.is_some() {
                    named = true;
                }
                i = i + 1;
            }
        }
        ((if self.values.is_some() { VALUES } else { 0u8 }) | (if self.values.is_some() && named {
            WITH_NAMES_FOR_VALUES
        } else {
            0u8
        }) | (if self.skip_metadata { SKIP_METADATA } else { 0u8 }) | (if self.result_page_size.is_some() {
            PAGE_SIZE
        } else {
            0u8
        }) | (if self.paging_state.is_some() { WITH_PAGING_STATE } else { 0u8 }) | (
        if self.serial_consistency.is_some() {
            WITH_SERIAL_CONSISTENCY
        } else {
            0u8
        }) | (if self.time_stamp.is_some() { WITH_DEFAULT_TIMESTAMP } else { 0u8 })) as u8
    }

    fn write_values(&self, body: &mut Vec<u8>)
        requires
            query_fits(*self),
        ensures
            final(body)@ == old(body)@ + values_part(*self),
    {
        if let Some(values) = &self.values {
            write_short(body, values.len() as u16);
            let ghost mid = body@;
            let mut i: usize = 0;
            assert(values_view(values@.take(0)) =~= Seq::<(Option<Seq<char>>, Seq<u8>)>::empty());
            while i < values.len()
                invariant
                    i <= values@.len(),
                    self.values == Some(*values),
                    query_fits(*self),
                    body@ == mid + values_enc(values@.take(i as int)),
                decreases values@.len() - i,
            {
                let ghost before = body@;
                assert(values@.take(i + 1).drop_last() =~= values@.take(i as int));
                let v = &values[i];
                if let Some(name) = &v.0 {
                    write_string(body, name.as_str());
                }
                write_bytes(body, v.1.as_slice());
                assert(body@ =~= before + value_enc(values@[i as int]));
                proof {
                    let vv = values_view(values@.take(i as int));
                    assert(values_view(values@.take(i + 1)) =~= vv.push(value_view(values@[i as int])));
                    crate::serde_table::lemma_concat_map_push(vv, value_view(values@[i as int]), value_item());
                    assert(value_item()(value_view(values@[i as int])) == value_enc(values@[i as int]));
                }
                i = i + 1;
                assert(body@ =~= mid + values_enc(values@.take(i as int)));
            }
            assert(values@.take(i as int) =~= values@);
        }
    }

    fn write_tail(&self, body: &mut Vec<u8>)
        requires
            query_fits(*self),
        ensures
            final(body)@ == old(body)@ + tail_enc(*self),
    {
        let ghost start = body@;
        if let Some(page_size) = self.result_page_size {
            write_int(body, page_size);
        }
        let ghost a = body@;
        if let Some(paging_state) = &self.paging_state {
            write_bytes(body, paging_state.as_slice());
        }
        let ghost b = body@;
        if let Some(serial_consistency) = self.serial_consistency {
            write_consistency(body, serial_consistency);
        }
        let ghost c = body@;
        if let Some(time_stamp) = self.time_stamp {
            write_long(body, time_stamp);
        }
        assert(body@ =~= start + tail_enc(*self));
    }

    /// The query's body.
    pub fn serialize(&self) -> (r: Vec<u8>)
        requires
            query_fits(*self),
        ensures
            r@ == query_enc(*self),
    {
        let mut body: Vec<u8> = Vec::new();
        write_long_string(&mut body, self.query_string.as_str());
        write_consistency(&mut body, self.consistency_level);
        write_byte(&mut body, self.serialize_flags());
        self.write_values(&mut body);
        self.write_tail(&mut body);
        assert(body@ =~= query_enc(*self));
        body
    }

    /// Reads a query body: the text, the level, the flags, then what the flags announce.
    #[verifier::spinoff_prover]
    #[verifier::rlimit(100)]
    pub fn deserialize(body: &[u8]) -> (r: Result<Self, DecodeError>)
        ensures
            match parse_query(body@) {
                Some(v) => r is Ok && query_view(r->Ok_0) == v,
                None => r is Err,
            },
    {
        let mut cursor = ByteReader::new(body);
        let ghost b = body@;
        let query_string = read_long_string(&mut cursor)?;
        let ghost n1 = b.len() - cursor.rest().len();
        let ghost b1 = cursor.rest();
        if cursor.remaining() < 3 {
            return Err(DecodeError::UnexpectedEnd);
        }
        let consistency = read_consistency(&mut cursor)?;
        assert(b1 =~= b.skip(n1));
        let ghost bf = cursor.rest();
        let flags = read_byte(&mut cursor)?;
        assert(bf[0] == b[n1 + 2]);
        let ghost b2 = cursor.rest();
        assert(b2 =~= b.skip(n1 + 3));
        let named = flags & WITH_NAMES_FOR_VALUES != 0;
        let values = if flags & VALUES != 0 {
            let n = read_short(&mut cursor)?;
            let ghost b0 = cursor.rest();
            let mut values: Vec<(Option<String>, Vec<u8>)> = Vec::new();
            let mut i: u16 = 0;
            assert(parse_seq(b0, 0, value_parser(named)) == Some((Seq::<(Option<Seq<char>>, Seq<u8>)>::empty(), 0int)));
            assert(b0.skip(0) =~= b0);
            assert(values_view(values@) =~= Seq::<(Option<Seq<char>>, Seq<u8>)>::empty());
            while i < n
                invariant
                    i <= n,
                    b == body@,
                    parse_text(b, 4) is Some,
                    parse_text(b, 4)->Some_0.1 == n1,
                    b.len() >= n1 + 3,
                    flags == b[n1 + 2],
                    b2 == b.skip(n1 + 3),
                    flags & VALUES != 0,
                    named == (flags & WITH_NAMES_FOR_VALUES != 0),
                    b2.len() >= 2,
                    b0 == b2.skip(2),
                    n == decode16(b2),
                    cursor.rest().len() <= b0.len(),
                    parse_seq(b0, i as nat, value_parser(named)) == Some((values_view(values@), b0.len() - cursor.rest().len())),
                    cursor.rest() == b0.skip(b0.len() - cursor.rest().len()),
                decreases n - i,
            {
                let ghost before = cursor.rest();
                let ghost done = b0.len() - before.len();
                proof { crate::serde_table::lemma_parse_seq_extend(b0, i as nat, value_parser(named)); }
                match read_value(&mut cursor, named) {
                    Ok(x) => {
                        let ghost prev = values@;
                        let ghost xv = value_view(x);
                        values.push(x);
                        proof {
                            lemma_value_bound(before, named);
                            assert(values_view(values@) =~= values_view(prev).push(xv));
                            assert(cursor.rest() =~= b0.skip(b0.len() - cursor.rest().len()));
                        }
                    },
                    Err(e) => {
                        proof {
                            assert(before == b0.skip(done));
                            assert(parse_seq(b0, (i + 1) as nat, value_parser(named)) is None);
                            if parse_seq(b0, n as nat, value_parser(named)) is Some {
                                crate::serde_table::lemma_parse_seq_prefix(b0, n as nat, (i + 1) as nat, value_parser(named));
                            }
                        }
                        return Err(e);
                    },
                }
                i = i + 1;
            }
            proof {
                crate::serde_table::lemma_parse_seq_bound(b0, n as nat, value_parser(named));
                assert(cursor.rest() =~= b2.skip(b2.len() - cursor.rest().len()));
            }
            Some(values)
        } else {
            assert(b2.skip(0) =~= b2);
            None
        };
        let ghost b3 = cursor.rest();
        assert(b3 =~= b2.skip(b2.len() - b3.len()));
        let result_page_size = if flags & PAGE_SIZE != 0 {
            Some(read_int(&mut cursor)?)
        } else {
            None
        };
        let ghost b4 = cursor.rest();
        assert(b4 =~= b3.skip(b3.len() - b4.len()));
        let paging_state = if flags & WITH_PAGING_STATE != 0 {
            Some(read_bytes(&mut cursor)?)
        } else {
            None
        };
        let ghost b5 = cursor.rest();
        proof {
            if flags & WITH_PAGING_STATE != 0 {
                crate::row::lemma_bytes_bound(b4);
            }
        }
        assert(b5 =~= b4.skip(b4.len() - b5.len()));
        let serial_consistency = if flags & WITH_SERIAL_CONSISTENCY != 0 {
            Some(read_consistency(&mut cursor)?)
        } else {
            None
        };
        let ghost b6 = cursor.rest();
        assert(b6 =~= b5.skip(b5.len() - b6.len()));
        let time_stamp = if flags & WITH_DEFAULT_TIMESTAMP != 0 {
            Some(read_long(&mut cursor)?)
        } else {
            None
        };
        let q = Query {
            query_string,
            consistency_level: consistency,
            values,
            skip_metadata: flags & SKIP_METADATA != 0,
            result_page_size,
            paging_state,
            serial_consistency,
            time_stamp,
        };
        proof {
            if let Some(p) = q.result_page_size {
                assert(b3.take(4) =~= b3.subrange(0, 4));
            }
        }
        Ok(q)
    }
}

fn read_value(cursor: &mut ByteReader, named: bool) -> (r: Result<(Option<String>, Vec<u8>), DecodeError>)
    ensures
        match r {
            Ok(v) => value_parser(named)(old(cursor).rest()) == Some((value_view(v), old(cursor).rest().len() - final(cursor).rest().len()))
                && final(cursor).rest() == old(cursor).rest().skip(old(cursor).rest().len() - final(cursor).rest().len()),
            Err(_) => value_parser(named)(old(cursor).rest()) is None,
        },
{
    let ghost b = cursor.rest();
    let name = if named {
        Some(read_string(&mut *cursor)?)
    } else {
        None
    };
    let ghost mid = cursor.rest();
    let value = read_bytes(cursor)?;
    proof {
        crate::row::lemma_bytes_bound(mid);
        assert(cursor.rest() =~= b.skip(b.len() - cursor.rest().len()));
        if !named {
            assert(mid == b);
        }
    }
    Ok((name, value))
}

proof fn lemma_value_bound(b: Seq<u8>, named: bool)
    requires
        value_parser(named)(b) is Some,
    ensures
        0 <= value_parser(named)(b)->Some_0.1 <= b.len(),
{
    if named {
        let n1 = parse_text(b, 2)->Some_0.1;
        crate::row::lemma_bytes_bound(b.skip(n1));
    } else {
        crate::row::lemma_bytes_bound(b);
    }
}

/// Every value carries a name, or none does.
pub open spec fn names_uniform(q: Query) -> bool {
    q.values is Some ==> (forall|i: int| 0 <= i < q.values->Some_0@.len() ==> (#[trigger] q.values->Some_0@[i]).0 is Some)
        || (forall|i: int| 0 <= i < q.values->Some_0@.len() ==> (#[trigger] q.values->Some_0@[i]).0 is None)
}

proof fn lemma_long_text_round_trip(s: Seq<char>, t: Seq<u8>)
    requires
        encode_utf8(s).len() <= i32::MAX,
    ensures
        parse_text(long_string_enc(s) + t, 4) == Some((s, long_string_enc(s).len() as int)),
{
    let e = encode_utf8(s);
    let b = long_string_enc(s) + t;
    crate::notation::lemma_be32_round_trip(e.len() as u32);
    assert(b.subrange(0, 4) =~= be32(e.len() as u32));
    assert(decode32(b) == decode32(b.subrange(0, 4)));
    assert(b.subrange(4, 4 + e.len() as int) =~= e);
    vstd::utf8::encode_utf8_valid_utf8(s);
    vstd::utf8::encode_utf8_decode_utf8(s);
}

proof fn lemma_flag_bits(a: u8, n: u8, k: u8, p: u8, g: u8, c: u8, d: u8)
    requires
        a == 0 || a == 1,
        n == 0 || n == 0x40,
        k == 0 || k == 2,
        p == 0 || p == 4,
        g == 0 || g == 8,
        c == 0 || c == 0x10,
        d == 0 || d == 0x20,
    ensures
        ({
            let f = (a | n | k | p | g | c | d) as u8;
            &&& (f & 1 != 0) == (a == 1)
            &&& (f & 0x40 != 0) == (n == 0x40)
            &&& (f & 2 != 0) == (k == 2)
            &&& (f & 4 != 0) == (p == 4)
            &&& (f & 8 != 0) == (g == 8)
            &&& (f & 0x10 != 0) == (c == 0x10)
            &&& (f & 0x20 != 0) == (d == 0x20)
        }),
{
    assert(({
        let f = (a | n | k | p | g | c | d) as u8;
        &&& (f & 1 != 0) == (a == 1)
        &&& (f & 0x40 != 0) == (n == 0x40)
        &&& (f & 2 != 0) == (k == 2)
        &&& (f & 4 != 0) == (p == 4)
        &&& (f & 8 != 0) == (g == 8)
        &&& (f & 0x10 != 0) == (c == 0x10)
        &&& (f & 0x20 != 0) == (d == 0x20)
    })) by (bit_vector)
        requires
            a == 0 || a == 1,
            n == 0 || n == 0x40,
            k == 0 || k == 2,
            p == 0 || p == 4,
            g == 0 || g == 8,
            c == 0 || c == 0x10,
            d == 0 || d == 0x20,
    ;
}

proof fn lemma_value_round_trip(v: (Option<Seq<char>>, Seq<u8>), named: bool, u: Seq<u8>)
    requires
        named == (v.0 is Some),
        v.0 is Some ==> crate::notation::short_text(v.0->Some_0),
        v.1.len() <= i32::MAX,
    ensures
        value_parser(named)(value_item()(v) + u) == Some((v, value_item()(v).len() as int)),
{
    let rest = be32(v.1.len() as u32) + v.1 + u;
    crate::row::lemma_bytes_round_trip(v.1, u);
    assert(crate::row::bytes_item()(v.1) + u =~= rest);
    if named {
        let name = v.0->Some_0;
        crate::notation::lemma_text_round_trip(name, rest);
        let b = value_item()(v) + u;
        assert(b =~= string_enc(name) + rest);
        assert(b.skip(string_enc(name).len() as int) =~= rest);
    } else {
        assert(value_item()(v) + u =~= rest);
    }
}

proof fn lemma_values_part_round_trip(q: Query, named: bool, t2: Seq<u8>)
    requires
        query_fits(q),
        names_uniform(q),
        named == (q.values is Some && any_named(q.values->Some_0@)),
    ensures
        parse_values_opt(values_part(q) + t2, q.values is Some, named) == Some((query_view(q).values, values_part(q).len() as int)),
{
    let b2 = values_part(q) + t2;
    if let Some(v) = q.values {
        let vv = values_view(v@);
        crate::notation::lemma_be16_round_trip(v@.len() as u16);
        assert(b2.subrange(0, 2) =~= be16(v@.len() as u16));
        assert(decode16(b2) == decode16(b2.subrange(0, 2)));
        assert(b2.skip(2) =~= concat_map(vv, value_item()) + t2);
        assert forall|i: int, u: Seq<u8>| 0 <= i < vv.len() implies #[trigger] value_parser(named)(value_item()(vv[i]) + u) == Some((vv[i], value_item()(vv[i]).len() as int)) by {
            assert(vv[i] == value_view(v@[i]));
            assert(q.values->Some_0@[i] == v@[i]);
            if named {
                let w = choose|w: int| 0 <= w < v@.len() && (#[trigger] v@[w]).0 is Some;
                assert(q.values->Some_0@[w] == v@[w]);
            } else {
                assert(!(exists|w: int| 0 <= w < v@.len() && (#[trigger] v@[w]).0 is Some));
            }
            lemma_value_round_trip(vv[i], named, u);
        }
        crate::serde_table::lemma_parse_seq_round_trip(vv, t2, value_item(), value_parser(named));
    }
}

#[verifier::spinoff_prover]
#[verifier::rlimit(100)]
proof fn lemma_tail_round_trip(q: Query)
    requires
        query_fits(q),
    ensures
        ({
            let b3 = tail_enc(q);
            let n4 = if q.result_page_size is Some { 4int } else { 0int };
            let b4 = b3.skip(n4);
            let n5 = match q.paging_state { Some(p) => 4 + p@.len() as int, None => 0int };
            let b5 = b4.skip(n5);
            let n6 = if q.serial_consistency is Some { 2int } else { 0int };
            &&& parse_opt_int(b3, q.result_page_size is Some) == Some((query_view(q).page, n4))
            &&& parse_opt_bytes(b4, q.paging_state is Some) == Some((query_view(q).paging, n5))
            &&& 0 <= n5 <= b4.len()
            &&& parse_opt_level(b5, q.serial_consistency is Some) == Some((query_view(q).serial, n6))
            &&& parse_opt_long(b5.skip(n6), q.time_stamp is Some) is Some
            &&& parse_opt_long(b5.skip(n6), q.time_stamp is Some)->Some_0.0 == query_view(q).stamp
        }),
{
    let b3 = tail_enc(q);
    let page_e = match q.result_page_size { Some(n) => be32(n as u32), None => Seq::<u8>::empty() };
    let paging_e = match q.paging_state { Some(p) => be32(p@.len() as u32) + p@, None => Seq::<u8>::empty() };
    let serial_e = match q.serial_consistency { Some(c) => be16(level_code(c)), None => Seq::<u8>::empty() };
    let stamp_e = match q.time_stamp { Some(t) => be64(t as u64), None => Seq::<u8>::empty() };
    assert(b3 =~= page_e + (paging_e + (serial_e + stamp_e)));
    let b4 = b3.skip(page_e.len() as int);
    assert(b4 =~= paging_e + (serial_e + stamp_e));
    if let Some(n) = q.result_page_size {
        crate::notation::lemma_be32_round_trip(n as u32);
        assert(b3.subrange(0, 4) =~= be32(n as u32));
        assert(decode32(b3) == decode32(b3.subrange(0, 4)));
    } else {
        assert(b3.skip(0) =~= b3);
    }
    let b5 = b4.skip(paging_e.len() as int);
    assert(b5 =~= serial_e + stamp_e);
    if let Some(p) = q.paging_state {
        crate::row::lemma_bytes_round_trip(p@, serial_e + stamp_e);
        assert(crate::row::bytes_item()(p@) + (serial_e + stamp_e) =~= b4);
    } else {
        assert(b4.skip(0) =~= b4);
    }
    let b6 = b5.skip(serial_e.len() as int);
    assert(b6 =~= stamp_e);
    if let Some(c) = q.serial_consistency {
        crate::notation::lemma_be16_round_trip(level_code(c));
        assert(b5.subrange(0, 2) =~= be16(level_code(c)));
        assert(decode16(b5) == decode16(b5.subrange(0, 2)));
        crate::consistency_level::lemma_level_code_round_trip(c);
    } else {
        assert(b5.skip(0) =~= b5);
    }
    if let Some(t) = q.time_stamp {
        crate::notation::lemma_be64_round_trip(t as u64);
        assert(b6.take(8) =~= be64(t as u64));
    }
}

/// A query body reads back as the query that was written, when every text and blob fits
/// its length and the values carry names all or none.
#[verifier::spinoff_prover]
#[verifier::rlimit(100)]
pub proof fn lemma_query_round_trip(q: Query)
    requires
        query_fits(q),
        names_uniform(q),
    ensures
        parse_query(query_enc(q)) == Some(query_view(q)),
{
    let b = query_enc(q);
    let f = flags_of(q);
    let named = q.values is Some && any_named(q.values->Some_0@);
    lemma_flag_bits(
        if q.values is Some { VALUES } else { 0u8 },
        if named { WITH_NAMES_FOR_VALUES } else { 0u8 },
        if q.skip_metadata { SKIP_METADATA } else { 0u8 },
        if q.result_page_size is Some { PAGE_SIZE } else { 0u8 },
        if q.paging_state is Some { WITH_PAGING_STATE } else { 0u8 },
        if q.serial_consistency is Some { WITH_SERIAL_CONSISTENCY } else { 0u8 },
        if q.time_stamp is Some { WITH_DEFAULT_TIMESTAMP } else { 0u8 },
    );
    let head = long_string_enc(q.query_string@);
    let n1 = head.len() as int;
    let after = be16(level_code(q.consistency_level)) + seq![f] + (values_part(q) + tail_enc(q));
    assert(b =~= head + after);
    lemma_long_text_round_trip(q.query_string@, after);
    assert(b.skip(n1) =~= after);
    crate::notation::lemma_be16_round_trip(level_code(q.consistency_level));
    assert(after.subrange(0, 2) =~= be16(level_code(q.consistency_level)));
    assert(decode16(b.skip(n1)) == decode16(after.subrange(0, 2)));
    crate::consistency_level::lemma_level_code_round_trip(q.consistency_level);
    assert(b[n1 + 2] == f);
    let b2 = b.skip(n1 + 3);
    assert(b2 =~= values_part(q) + tail_enc(q));
    lemma_values_part_round_trip(q, named, tail_enc(q));
    let n3 = values_part(q).len() as int;
    assert(b2.skip(n3) =~= tail_enc(q));
    lemma_tail_round_trip(q);
}

} // verus!
