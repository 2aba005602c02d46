//! The options of `STARTUP` and `SUPPORTED`, and the check of a client's choice.
use vstd::prelude::*;
use crate::notation::{
    read_string_map, read_string_multimap, string_map_enc, string_multimap_enc, write_string_map,
    write_string_multimap, short_text, strs_view, all_short, ByteReader, DecodeError, string_pairs_view,
};
use crate::text::str_eq;

verus! {

pub const CQL_VERSION_KEY: &'static str = "CQL_VERSION";

pub const CQL_VERSION_VALUE: &'static str = "3.0.0";

pub const COMPRESSION_KEY: &'static str = "COMPRESSION";

pub const COMPRESSION_VALUE: &'static str = "";

/// Reads the options of a `STARTUP` body.
pub fn deserialize_startup(body: &[u8]) -> (r: Result<Vec<(String, String)>, DecodeError>)
    ensures
        match crate::serde_table::parse_map(body@) {
            Some((l, _)) => r is Ok && string_pairs_view(r->Ok_0@) == l,
            None => r is Err,
        },
{
    let mut cursor = ByteReader::new(body);
    read_string_map(&mut cursor)
}

/// Reads the options of a `SUPPORTED` body.
pub fn deserialize_options(body: &[u8]) -> (r: Result<Vec<(String, Vec<String>)>, DecodeError>)
    ensures
        match crate::serde_table::parse_multimap(body@) {
            Some((l, _)) => r is Ok && crate::notation::string_multi_view(r->Ok_0@) == l,
            None => r is Err,
        },
{
    let mut cursor = ByteReader::new(body);
    read_string_multimap(&mut cursor)
}

/// The `STARTUP` body that selects the given options.
pub fn serialize_startup(options_selected: &[(String, String)]) -> (r: Vec<u8>)
    requires
        options_selected@.len() <= u16::MAX,
        forall|i: int| 0 <= i < options_selected@.len() ==> short_text((#[trigger] options_selected@[i]).0@)
            && short_text(options_selected@[i].1@),
    ensures
        r@ == string_map_enc(string_pairs_view(options_selected@)),
{
    let mut pairs: Vec<(&str, &str)> = Vec::new();
    let mut i: usize = 0;
    while i < options_selected.len()
        invariant
            i <= options_selected@.len(),
            pairs@.len() == i,
            forall|j: int| 0 <= j < i ==> (#[trigger] pairs@[j]).0@ == options_selected@[j].0@ && pairs@[j].1@ == options_selected@[j].1@,
        decreases options_selected@.len() - i,
    {
        pairs.push((options_selected[i].0.as_str(), options_selected[i].1.as_str()));
        i = i + 1;
    }
    let mut body: Vec<u8> = Vec::new();
    assert(crate::notation::str_pairs_view(pairs@) =~= string_pairs_view(options_selected@));
    write_string_map(&mut body, pairs);
    body
}

/// The options a client sends by default: the CQL version.
pub fn default_startup() -> (r: Vec<(String, String)>)
    ensures
        r@.len() == 1,
        r@[0].0@ == CQL_VERSION_KEY@,
        r@[0].1@ == CQL_VERSION_VALUE@,
{
    vec![(CQL_VERSION_KEY.to_owned(), CQL_VERSION_VALUE.to_owned())]
}

/// The options a node supports: the CQL version, and no compression.
pub fn default_supported() -> (r: Vec<(String, Vec<String>)>)
    ensures
        r@.len() == 2,
        r@[0].0@ == CQL_VERSION_KEY@,
        r@[0].1@.len() == 1,
        r@[0].1@[0]@ == CQL_VERSION_VALUE@,
        r@[1].0@ == COMPRESSION_KEY@,
        r@[1].1@.len() == 1,
        r@[1].1@[0]@ == COMPRESSION_VALUE@,
{
    vec![
        (CQL_VERSION_KEY.to_owned(), vec![CQL_VERSION_VALUE.to_owned()]),
        (COMPRESSION_KEY.to_owned(), vec![COMPRESSION_VALUE.to_owned()]),
    ]
}

/// Whether the options are acceptable: only known keys, the supported CQL version named
/// explicitly, and any compression named.
pub open spec fn options_valid(options: Seq<(String, String)>) -> bool {
    &&& forall|i: int| 0 <= i < options.len() ==> {
        ||| ((#[trigger] options[i]).0@ == CQL_VERSION_KEY@ && options[i].1@ == CQL_VERSION_VALUE@)
        ||| (options[i].0@ == COMPRESSION_KEY@ && options[i].1@.len() > 0)
    }
    &&& exists|i: int| 0 <= i < options.len() && (#[trigger] options[i]).0@ == CQL_VERSION_KEY@
}

pub fn validate_options(options: &Vec<(String, String)>) -> (r: bool)
    ensures
        r == options_valid(options@),
{
    let mut explicit_version = false;
    let mut i: usize = 0;
    while i < options.len()
        invariant
            i <= options@.len(),
            forall|j: int| 0 <= j < i ==> {
                ||| ((#[trigger] options@[j]).0@ == CQL_VERSION_KEY@ && options@[j].1@ == CQL_VERSION_VALUE@)
                ||| (options@[j].0@ == COMPRESSION_KEY@ && options@[j].1@.len() > 0)
            },
            explicit_version <==> exists|j: int| 0 <= j < i && (#[trigger] options@[j]).0@ == CQL_VERSION_KEY@,
        decreases options@.len() - i,
    {
        let key = options[i].0.as_str();
        let value = options[i].1.as_str();
        proof {
            reveal_strlit("CQL_VERSION");
            reveal_strlit("COMPRESSION");
            assert(CQL_VERSION_KEY@[1] != COMPRESSION_KEY@[1]);
            assert(CQL_VERSION_KEY@ != COMPRESSION_KEY@);
        }
        if str_eq(key, CQL_VERSION_KEY) {
            if !str_eq(value, CQL_VERSION_VALUE) {
                return false;
            }
            explicit_version = true;
        } else if str_eq(key, COMPRESSION_KEY) {
            if value.is_empty() {
                return false;
            }
        } else {
            return false;
        }
        i = i + 1;
    }
    explicit_version
}

} // verus!
