//! The consistency levels of the client protocol and their `[consistency]` codes.
use vstd::prelude::*;
use crate::notation::{be16, decode16, read_short, write_short, ByteReader, DecodeError};
use crate::text::str_eq;

verus! {

#[derive(Debug, Clone, Copy, PartialEq, Eq, Structural)]
pub enum ConsistencyLevel {
    Any,
    One,
    Two,
    Three,
    Quorum,
    All,
    LocalQuorum,
    EachQuorum,
    Serial,
    LocalSerial,
    LocalOne,
}

/// The wire code of each level.
pub open spec fn level_code(l: ConsistencyLevel) -> u16 {
    match l {
        ConsistencyLevel::Any => 0,
        ConsistencyLevel::One => 1,
        ConsistencyLevel::Two => 2,
        ConsistencyLevel::Three => 3,
        ConsistencyLevel::Quorum => 4,
        ConsistencyLevel::All => 5,
        ConsistencyLevel::LocalQuorum => 6,
        ConsistencyLevel::EachQuorum => 7,
        ConsistencyLevel::Serial => 8,
        ConsistencyLevel::LocalSerial => 9,
        ConsistencyLevel::LocalOne => 10,
    }
}

/// The level of a wire code; an unknown code stands for `Any`.
pub open spec fn level_of_code(v: u16) -> ConsistencyLevel {
    if v == 1 {
        ConsistencyLevel::One
    } else if v == 2 {
        ConsistencyLevel::Two
    } else if v == 3 {
        ConsistencyLevel::Three
    } else if v == 4 {
        ConsistencyLevel::Quorum
    } else if v == 5 {
        ConsistencyLevel::All
    } else if v == 6 {
        ConsistencyLevel::LocalQuorum
    } else if v == 7 {
        ConsistencyLevel::EachQuorum
    } else if v == 8 {
        ConsistencyLevel::Serial
    } else if v == 9 {
        ConsistencyLevel::LocalSerial
    } else if v == 10 {
        ConsistencyLevel::LocalOne
    } else {
        ConsistencyLevel::Any
    }
}

/// The level of a lower-case name; an unknown name stands for `Any`.
pub open spec fn level_of_name(s: Seq<char>) -> ConsistencyLevel {
    if s == "one"@ {
        ConsistencyLevel::One
    } else if s == "two"@ {
        ConsistencyLevel::Two
    } else if s == "three"@ {
        ConsistencyLevel::Three
    } else if s == "quorum"@ {
        ConsistencyLevel::Quorum
    } else if s == "all"@ {
        ConsistencyLevel::All
    } else if s == "localquorum"@ {
        ConsistencyLevel::LocalQuorum
    } else if s == "eachquorum"@ {
        ConsistencyLevel::EachQuorum
    } else if s == "serial"@ {
        ConsistencyLevel::Serial
    } else if s == "localserial"@ {
        ConsistencyLevel::LocalSerial
    } else if s == "localone"@ {
        ConsistencyLevel::LocalOne
    } else {
        ConsistencyLevel::Any
    }
}

/// What `str::to_lowercase` makes of a text.
pub uninterp spec fn lower_of(s: Seq<char>) -> Seq<char>;

/// Relies on `str::to_lowercase`: the result depends on the characters alone.
#[verifier::external_body]
pub(crate) fn to_lower(s: &str) -> (r: String)
    ensures
        r@ == lower_of(s@),
{
    s.to_lowercase()
}

pub proof fn lemma_level_code_round_trip(l: ConsistencyLevel)
    ensures
        level_of_code(level_code(l)) == l,
{
}

impl Default for ConsistencyLevel {
    fn default() -> (r: Self)
        ensures
            r == ConsistencyLevel::Any,
    {
        ConsistencyLevel::Any
    }
}

impl ConsistencyLevel {
    pub fn value(self) -> (r: u16)
        ensures
            r == level_code(self),
    {
        match self {
            ConsistencyLevel::Any => 0,
            ConsistencyLevel::One => 1,
            ConsistencyLevel::Two => 2,
            ConsistencyLevel::Three => 3,
            ConsistencyLevel::Quorum => 4,
            ConsistencyLevel::All => 5,
            ConsistencyLevel::LocalQuorum => 6,
            ConsistencyLevel::EachQuorum => 7,
            ConsistencyLevel::Serial => 8,
            ConsistencyLevel::LocalSerial => 9,
            ConsistencyLevel::LocalOne => 10,
        }
    }

    pub fn from_value(val: u16) -> (r: Self)
        ensures
            r == level_of_code(val),
    {
        match val {
            1 => ConsistencyLevel::One,
            2 => ConsistencyLevel::Two,
            3 => ConsistencyLevel::Three,
            4 => ConsistencyLevel::Quorum,
            5 => ConsistencyLevel::All,
            6 => ConsistencyLevel::LocalQuorum,
            7 => ConsistencyLevel::EachQuorum,
            8 => ConsistencyLevel::Serial,
            9 => ConsistencyLevel::LocalSerial,
            10 => ConsistencyLevel::LocalOne,
            _ => ConsistencyLevel::Any,
        }
    }

    /// The level of a lower-case name.
    pub fn from_lower_name(s: &str) -> (r: Self)
        ensures
            r == level_of_name(s@),
    {
        if str_eq(s, "one") {
            ConsistencyLevel::One
        } else if str_eq(s, "two") {
            ConsistencyLevel::Two
        } else if str_eq(s, "three") {
            ConsistencyLevel::Three
        } else if str_eq(s, "quorum") {
            ConsistencyLevel::Quorum
        } else if str_eq(s, "all") {
            ConsistencyLevel::All
        } else if str_eq(s, "localquorum") {
            ConsistencyLevel::LocalQuorum
        } else if str_eq(s, "eachquorum") {
            ConsistencyLevel::EachQuorum
        } else if str_eq(s, "serial") {
            ConsistencyLevel::Serial
        } else if str_eq(s, "localserial") {
            ConsistencyLevel::LocalSerial
        } else if str_eq(s, "localone") {
            ConsistencyLevel::LocalOne
        } else {
            ConsistencyLevel::Any
        }
    }

    /// The level named by `s`, in any case.
    pub fn from_str_to_enum(s: &str) -> (r: Self)
        ensures
            r == level_of_name(lower_of(s@)),
    {
        let lower = to_lower(s);
        Self::from_lower_name(lower.as_str())
    }
}

/// Writes a `[consistency]`.
pub fn write_consistency(buffer: &mut Vec<u8>, consistency_level: ConsistencyLevel)
    ensures
        final(buffer)@ == old(buffer)@ + be16(level_code(consistency_level)),
{
    write_short(buffer, consistency_level.value());
}

/// Reads a `[consistency]`.
pub fn read_consistency(cursor: &mut ByteReader) -> (r: Result<ConsistencyLevel, DecodeError>)
    ensures
        r is Ok <==> old(cursor).rest().len() >= 2,
        r is Ok ==> r->Ok_0 == level_of_code(decode16(old(cursor).rest())) && final(cursor).rest()
            == old(cursor).rest().skip(2),
{
    let v = read_short(cursor)?;
    Ok(ConsistencyLevel::from_value(v))
}

} // verus!
