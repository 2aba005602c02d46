//! Lines of stored schema: comma-separated column names, and `name:type` pairs.
use vstd::prelude::*;
use crate::text::{chars_vec, string_of_chars, texts_of};

verus! {

/// The pieces of a text between the separators; a text without one is a single piece.
pub open spec fn split_on(s: Seq<char>, sep: char) -> Seq<Seq<char>>
    decreases s.len(),
{
    if s.len() == 0 {
        seq![Seq::empty()]
    } else {
        let prev = split_on(s.drop_last(), sep);
        if s.last() == sep {
            prev.push(Seq::empty())
        } else {
            prev.update(prev.len() - 1, prev.last().push(s.last()))
        }
    }
}

pub proof fn lemma_split_nonempty(s: Seq<char>, sep: char)
    ensures
        split_on(s, sep).len() >= 1,
    decreases s.len(),
{
    if s.len() > 0 {
        lemma_split_nonempty(s.drop_last(), sep);
    }
}

/// What `str::trim` leaves of a text.
pub uninterp spec fn trimmed(s: Seq<char>) -> Seq<char>;

/// Relies on `str::trim`: the text without its leading and trailing white space, which
/// depends on the text alone.
#[verifier::external_body]
fn trim_text(s: &str) -> (r: &str)
    ensures
        r@ == trimmed(s@),
{
    s.trim()
}

/// The pieces of `line` between the separators, in order.
pub fn split_text(line: &str, sep: char) -> (r: Vec<String>)
    ensures
        texts_of(r@) == split_on(line@, sep),
{
    let cs = chars_vec(line);
    let mut pieces: Vec<String> = Vec::new();
    let mut current: Vec<char> = Vec::new();
    let mut i: usize = 0;
    assert(cs@.take(0) =~= Seq::<char>::empty());
    while i < cs.len()
        invariant
            i <= cs@.len(),
            cs@ == line@,
            texts_of(pieces@).push(current@) == split_on(cs@.take(i as int), sep),
        decreases cs@.len() - i,
    {
        proof {
            lemma_split_nonempty(cs@.take(i as int), sep);
            assert(cs@.take(i + 1).drop_last() =~= cs@.take(i as int));
        }
        let ghost before = texts_of(pieces@).push(current@);
        if cs[i] == sep {
            let ghost cur = current@;
            pieces.push(string_of_chars(&current));
            current = Vec::new();
            proof {
                assert(texts_of(pieces@) =~= texts_of(pieces@).drop_last().push(cur));
                assert(texts_of(pieces@).push(current@) =~= before.push(Seq::empty()));
            }
        } else {
            let ghost cur = current@;
            current.push(cs[i]);
            proof {
                assert(texts_of(pieces@).push(current@) =~= before.update(before.len() - 1, cur.push(cs@[i as int])));
            }
        }
        i = i + 1;
    }
    assert(cs@.take(i as int) =~= cs@);
    let ghost last = current@;
    pieces.push(string_of_chars(&current));
    assert(texts_of(pieces@) =~= split_on(line@, sep)) by {
        assert(texts_of(pieces@) =~= texts_of(pieces@).drop_last().push(last));
    }
    pieces
}

pub open spec fn all_trimmed(l: Seq<Seq<char>>) -> Seq<Seq<char>> {
    l.map_values(|p: Seq<char>| trimmed(p))
}

/// The comma-separated names of a line, without surrounding white space.
pub fn parse_columns(line: &str) -> (r: Result<Vec<String>, String>)
    ensures
        r is Ok,
        texts_of(r->Ok_0@) == all_trimmed(split_on(line@, ',')),
{
    let pieces = split_text(line, ',');
    let mut out: Vec<String> = Vec::new();
    let mut i: usize = 0;
    while i < pieces.len()
        invariant
            i <= pieces@.len(),
            texts_of(pieces@) == split_on(line@, ','),
            texts_of(out@) == all_trimmed(texts_of(pieces@).take(i as int)),
        decreases pieces@.len() - i,
    {
        let t = trim_text(pieces[i].as_str()).to_owned();
        let ghost prev = out@;
        out.push(t);
        assert(texts_of(out@) =~= all_trimmed(texts_of(pieces@).take(i + 1))) by {
            assert(texts_of(out@) =~= texts_of(prev).push(trimmed(pieces@[i as int]@)));
        }
        i = i + 1;
    }
    assert(texts_of(pieces@).take(i as int) =~= texts_of(pieces@));
    Ok(out)
}

/// The `name:type` pairs of a comma-separated line; a piece that is not exactly two
/// parts around one `:` is refused.
pub fn parse_columns_with_types(line: &str) -> (r: Result<Vec<(String, String)>, String>)
    ensures
        r is Ok <==> forall|i: int| 0 <= i < split_on(line@, ',').len() ==> (#[trigger] split_on(trimmed(split_on(line@, ',')[i]), ':')).len() == 2,
        r is Ok ==> r->Ok_0@.len() == split_on(line@, ',').len() && forall|i: int| 0 <= i < r->Ok_0@.len() ==> {
            &&& (#[trigger] r->Ok_0@[i]).0@ == split_on(trimmed(split_on(line@, ',')[i]), ':')[0]
            &&& r->Ok_0@[i].1@ == split_on(trimmed(split_on(line@, ',')[i]), ':')[1]
        },
{
    let columns = match parse_columns(line) {
        Ok(c) => c,
        Err(e) => return Err(e),
    };
    let ghost parts = split_on(line@, ',');
    assert(columns@.len() == texts_of(columns@).len());
    assert(columns@.len() == parts.len());
    let mut out: Vec<(String, String)> = Vec::new();
    let mut i: usize = 0;
    while i < columns.len()
        invariant
            i <= columns@.len(),
            texts_of(columns@) == all_trimmed(parts),
            columns@.len() == parts.len(),
            parts == split_on(line@, ','),
            out@.len() == i,
            forall|j: int| 0 <= j < i ==> (#[trigger] split_on(trimmed(parts[j]), ':')).len() == 2,
            forall|j: int| 0 <= j < i ==> {
                &&& (#[trigger] out@[j]).0@ == split_on(trimmed(parts[j]), ':')[0]
                &&& out@[j].1@ == split_on(trimmed(parts[j]), ':')[1]
            },
        decreases columns@.len() - i,
    {
        assert(texts_of(columns@)[i as int] == columns@[i as int]@);
        assert(all_trimmed(parts)[i as int] == trimmed(parts[i as int]));
        assert(columns@[i as int]@ == trimmed(parts[i as int]));
        let halves = split_text(columns[i].as_str(), ':');
        if halves.len() != 2 {
            assert(split_on(trimmed(parts[i as int]), ':').len() != 2);
            return Err("a column has no type".to_owned());
        }
        assert(texts_of(halves@)[0] == halves@[0]@ && texts_of(halves@)[1] == halves@[1]@);
        out.push((halves[0].clone(), halves[1].clone()));
        i = i + 1;
    }
    Ok(out)
}

} // verus!
