//! The binary form of a table: schema, then partitions, then rows, every count a
//! `[short]` and every text a `[string]`.
use vstd::prelude::*;
use crate::notation::{
    be16, decode16, lemma_be16_round_trip, lemma_parsed_text, lemma_text_round_trip, parse_text, short_text,
    string_enc, ByteReader, DecodeError,
};
use crate::table::{KeyView, Partition, RowView, Table, rows_view, parts_view};
use crate::expression::row_view;
use crate::text::texts_of;

pub use crate::notation::{read_short, read_string, write_short, write_string};

verus! {

/// The encodings of the items of `l`, one after another.
pub open spec fn concat_map<T>(l: Seq<T>, f: spec_fn(T) -> Seq<u8>) -> Seq<u8>
    decreases l.len(),
{
    if l.len() == 0 {
        Seq::empty()
    } else {
        f(l[0]) + concat_map(l.drop_first(), f)
    }
}

/// Reads `n` items one after another with `p`; the items and the bytes they take.
pub open spec fn parse_seq<T>(b: Seq<u8>, n: nat, p: spec_fn(Seq<u8>) -> Option<(T, int)>) -> Option<(Seq<T>, int)>
    decreases n,
{
    if n == 0 {
        Some((Seq::empty(), 0))
    } else {
        match p(b) {
            Some((x, k)) => if 0 <= k <= b.len() {
                match parse_seq(b.skip(k), (n - 1) as nat, p) {
                    Some((l, k2)) => Some((seq![x] + l, k + k2)),
                    None => None,
                }
            } else {
                None
            },
            None => None,
        }
    }
}

pub proof fn lemma_concat_map_push<T>(l: Seq<T>, x: T, f: spec_fn(T) -> Seq<u8>)
    ensures
        concat_map(l.push(x), f) == concat_map(l, f) + f(x),
    decreases l.len(),
{
    if l.len() == 0 {
        assert(l.push(x).drop_first() =~= Seq::<T>::empty());
        assert(concat_map(l.push(x).drop_first(), f) == Seq::<u8>::empty());
        assert(l.push(x)[0] == x);
        assert(concat_map(l, f) == Seq::<u8>::empty());
        assert(concat_map(l.push(x), f) =~= f(x) + Seq::<u8>::empty());
        assert(concat_map(l.push(x), f) =~= concat_map(l, f) + f(x));
    } else {
        lemma_concat_map_push(l.drop_first(), x, f);
        assert(l.push(x).drop_first() =~= l.drop_first().push(x));
        assert(l.push(x)[0] == l[0]);
        assert(concat_map(l.push(x), f) =~= concat_map(l, f) + f(x));
    }
}

/// What is read lies within the input.
pub proof fn lemma_parse_seq_bound<T>(b: Seq<u8>, n: nat, p: spec_fn(Seq<u8>) -> Option<(T, int)>)
    requires
        parse_seq(b, n, p) is Some,
    ensures
        0 <= parse_seq(b, n, p)->Some_0.1 <= b.len(),
        parse_seq(b, n, p)->Some_0.0.len() == n,
    decreases n,
{
    if n > 0 {
        let (x, k) = p(b)->Some_0;
        lemma_parse_seq_bound(b.skip(k), (n - 1) as nat, p);
    }
}

/// Items read one by one extend what was read before them.
pub proof fn lemma_parse_seq_extend<T>(b: Seq<u8>, n: nat, p: spec_fn(Seq<u8>) -> Option<(T, int)>)
    requires
        parse_seq(b, n, p) is Some,
        0 <= parse_seq(b, n, p)->Some_0.1 <= b.len(),
    ensures
        parse_seq(b, n + 1, p) == match p(b.skip(parse_seq(b, n, p)->Some_0.1)) {
            Some((x, k)) => if 0 <= k <= b.skip(parse_seq(b, n, p)->Some_0.1).len() {
                Some((parse_seq(b, n, p)->Some_0.0.push(x), parse_seq(b, n, p)->Some_0.1 + k))
            } else {
                None
            },
            None => None,
        },
    decreases n,
{
    if n == 0 {
        assert(b.skip(0) =~= b);
        assert(parse_seq(b, 0, p) == Some((Seq::<T>::empty(), 0int)));
        match p(b) {
            Some((x, k)) => {
                if 0 <= k <= b.len() {
                    assert(parse_seq(b.skip(k), 0, p) == Some((Seq::<T>::empty(), 0int)));
                    assert(seq![x] + Seq::<T>::empty() =~= Seq::<T>::empty().push(x));
                    assert(parse_seq(b, 1, p) == Some((seq![x] + Seq::<T>::empty(), k + 0)));
                }
            },
            None => {},
        }
    } else {
        let (x, k) = p(b)->Some_0;
        let rest = b.skip(k);
        lemma_parse_seq_bound(rest, (n - 1) as nat, p);
        lemma_parse_seq_extend(rest, (n - 1) as nat, p);
        let (l1, k1) = parse_seq(rest, (n - 1) as nat, p)->Some_0;
        assert(((n + 1) - 1) as nat == n);
        assert(parse_seq(b, n + 1, p) == match parse_seq(rest, n, p) {
            Some((l, k2)) => Some((seq![x] + l, k + k2)),
            None => None,
        });
        assert(parse_seq(b, n, p) == Some((seq![x] + l1, k + k1)));
        assert(rest.skip(k1) =~= b.skip(k + k1));
        match p(rest.skip(k1)) {
            Some((y, k3)) => {
                if 0 <= k3 <= rest.skip(k1).len() {
                    assert(seq![x] + l1.push(y) =~= (seq![x] + l1).push(y));
                }
            },
            None => {},
        }
    }
}

/// Reading what `f` wrote gives back the items, whatever follows.
pub proof fn lemma_parse_seq_round_trip<T>(
    l: Seq<T>,
    t: Seq<u8>,
    f: spec_fn(T) -> Seq<u8>,
    p: spec_fn(Seq<u8>) -> Option<(T, int)>,
)
    requires
        forall|i: int, u: Seq<u8>| 0 <= i < l.len() ==> #[trigger] p(f(l[i]) + u) == Some((l[i], f(l[i]).len() as int)),
    ensures
        parse_seq(concat_map(l, f) + t, l.len(), p) == Some((l, concat_map(l, f).len() as int)),
    decreases l.len(),
{
    if l.len() == 0 {
        assert(l =~= Seq::<T>::empty());
    } else {
        let rest = l.drop_first();
        assert forall|i: int, u: Seq<u8>| 0 <= i < rest.len() implies #[trigger] p(f(rest[i]) + u) == Some((rest[i], f(rest[i]).len() as int)) by {
            assert(rest[i] == l[i + 1]);
            assert(p(f(l[i + 1]) + u) == Some((l[i + 1], f(l[i + 1]).len() as int)));
        }
        lemma_parse_seq_round_trip(rest, t, f, p);
        let b = concat_map(l, f) + t;
        assert(b =~= f(l[0]) + (concat_map(rest, f) + t));
        assert(p(f(l[0]) + (concat_map(rest, f) + t)) == Some((l[0], f(l[0]).len() as int)));
        assert(b.skip(f(l[0]).len() as int) =~= concat_map(rest, f) + t);
        assert(seq![l[0]] + rest =~= l);
    }
}

pub open spec fn text_item() -> spec_fn(Seq<char>) -> Seq<u8> {
    |s: Seq<char>| string_enc(s)
}

pub open spec fn text_parser() -> spec_fn(Seq<u8>) -> Option<(Seq<char>, int)> {
    |b: Seq<u8>| parse_text(b, 2)
}

/// A `[string list]`.
pub open spec fn list_enc(l: KeyView) -> Seq<u8> {
    be16(l.len() as u16) + concat_map(l, text_item())
}

pub open spec fn parse_list(b: Seq<u8>) -> Option<(KeyView, int)> {
    if b.len() < 2 {
        None
    } else {
        match parse_seq(b.skip(2), decode16(b) as nat, text_parser()) {
            Some((l, k)) => Some((l, 2 + k)),
            None => None,
        }
    }
}

pub open spec fn pair_item() -> spec_fn((Seq<char>, Seq<char>)) -> Seq<u8> {
    |p: (Seq<char>, Seq<char>)| string_enc(p.0) + string_enc(p.1)
}

pub open spec fn parse_pair(b: Seq<u8>) -> Option<((Seq<char>, Seq<char>), int)> {
    match parse_text(b, 2) {
        Some((k, n1)) => match parse_text(b.skip(n1), 2) {
            Some((v, n2)) => Some(((k, v), n1 + n2)),
            None => None,
        },
        None => None,
    }
}

pub open spec fn pair_parser() -> spec_fn(Seq<u8>) -> Option<((Seq<char>, Seq<char>), int)> {
    |b: Seq<u8>| parse_pair(b)
}

/// A `[string map]`.
pub open spec fn map_enc(l: RowView) -> Seq<u8> {
    be16(l.len() as u16) + concat_map(l, pair_item())
}

pub open spec fn parse_map(b: Seq<u8>) -> Option<(RowView, int)> {
    if b.len() < 2 {
        None
    } else {
        match parse_seq(b.skip(2), decode16(b) as nat, pair_parser()) {
            Some((l, k)) => Some((l, 2 + k)),
            None => None,
        }
    }
}

pub open spec fn parse_multi_pair(b: Seq<u8>) -> Option<((Seq<char>, Seq<Seq<char>>), int)> {
    match parse_text(b, 2) {
        Some((key, n1)) => if 0 <= n1 <= b.len() {
            match parse_list(b.skip(n1)) {
                Some((l, n2)) => Some(((key, l), n1 + n2)),
                None => None,
            }
        } else {
            None
        },
        None => None,
    }
}

pub open spec fn multi_pair_parser() -> spec_fn(Seq<u8>) -> Option<((Seq<char>, Seq<Seq<char>>), int)> {
    |b: Seq<u8>| parse_multi_pair(b)
}

/// What a `[string multimap]` at the front of `b` holds, with the bytes it takes.
pub open spec fn parse_multimap(b: Seq<u8>) -> Option<(Seq<(Seq<char>, Seq<Seq<char>>)>, int)> {
    if b.len() < 2 {
        None
    } else {
        match parse_seq(b.skip(2), decode16(b) as nat, multi_pair_parser()) {
            Some((l, k)) => Some((l, 2 + k)),
            None => None,
        }
    }
}

pub open spec fn row_item() -> spec_fn((KeyView, RowView)) -> Seq<u8> {
    |r: (KeyView, RowView)| list_enc(r.0) + map_enc(r.1)
}

pub open spec fn parse_row(b: Seq<u8>) -> Option<((KeyView, RowView), int)> {
    match parse_list(b) {
        Some((k, n1)) => if 0 <= n1 <= b.len() {
            match parse_map(b.skip(n1)) {
                Some((r, n2)) => Some(((k, r), n1 + n2)),
                None => None,
            }
        } else {
            None
        },
        None => None,
    }
}

pub open spec fn row_parser() -> spec_fn(Seq<u8>) -> Option<((KeyView, RowView), int)> {
    |b: Seq<u8>| parse_row(b)
}

/// A partition: its clustering-key columns, then its rows with their keys.
pub open spec fn partition_enc(ck: KeyView, rows: Seq<(KeyView, RowView)>) -> Seq<u8> {
    list_enc(ck) + be16(rows.len() as u16) + concat_map(rows, row_item())
}

pub open spec fn parse_partition(b: Seq<u8>) -> Option<((KeyView, Seq<(KeyView, RowView)>), int)> {
    match parse_list(b) {
        Some((ck, n1)) => if 0 <= n1 <= b.len() && b.skip(n1).len() >= 2 {
            match parse_seq(b.skip(n1 + 2), decode16(b.skip(n1)) as nat, row_parser()) {
                Some((rows, n2)) => Some(((ck, rows), n1 + 2 + n2)),
                None => None,
            }
        } else {
            None
        },
        None => None,
    }
}

pub type PartView = (KeyView, (KeyView, Seq<(KeyView, RowView)>));

pub open spec fn part_item() -> spec_fn(PartView) -> Seq<u8> {
    |p: PartView| list_enc(p.0) + partition_enc(p.1.0, p.1.1)
}

pub open spec fn parse_part(b: Seq<u8>) -> Option<(PartView, int)> {
    match parse_list(b) {
        Some((k, n1)) => if 0 <= n1 <= b.len() {
            match parse_partition(b.skip(n1)) {
                Some((p, n2)) => Some(((k, p), n1 + n2)),
                None => None,
            }
        } else {
            None
        },
        None => None,
    }
}

pub open spec fn part_parser() -> spec_fn(Seq<u8>) -> Option<(PartView, int)> {
    |b: Seq<u8>| parse_part(b)
}

/// Everything a table's binary form holds.
pub struct TableView {
    pub name: Seq<char>,
    pub pk: KeyView,
    pub ck: KeyView,
    pub columns: RowView,
    pub parts: Seq<PartView>,
}

pub open spec fn table_enc(t: TableView) -> Seq<u8> {
    string_enc(t.name) + list_enc(t.pk) + list_enc(t.ck) + map_enc(t.columns) + be16(t.parts.len() as u16)
        + concat_map(t.parts, part_item())
}

pub open spec fn partition_view(p: Partition) -> (KeyView, Seq<(KeyView, RowView)>) {
    (texts_of(p.clustering_key_columns@), p.view_rows())
}

pub open spec fn table_view(t: Table) -> TableView {
    TableView {
        name: t.table_name@,
        pk: texts_of(t.partition_key_columns@),
        ck: texts_of(t.clustering_key_columns@),
        columns: row_view(t.columns@),
        parts: t.partitions@.map_values(|p: (Vec<String>, Partition)| (texts_of(p.0@), partition_view(p.1))),
    }
}

pub open spec fn all_short_texts(l: KeyView) -> bool {
    l.len() <= u16::MAX && forall|i: int| 0 <= i < l.len() ==> short_text(#[trigger] l[i])
}

pub open spec fn short_map(l: RowView) -> bool {
    l.len() <= u16::MAX && forall|i: int| 0 <= i < l.len() ==> short_text((#[trigger] l[i]).0) && short_text(l[i].1)
}

pub open spec fn short_rows(rows: Seq<(KeyView, RowView)>) -> bool {
    rows.len() <= u16::MAX && forall|i: int| 0 <= i < rows.len() ==> all_short_texts((#[trigger] rows[i]).0) && short_map(rows[i].1)
}

/// Every text, list and count of the table fits the `[short]` that holds its length.
#[verifier::opaque]
pub open spec fn table_fits(t: TableView) -> bool {
    &&& short_text(t.name)
    &&& all_short_texts(t.pk)
    &&& all_short_texts(t.ck)
    &&& short_map(t.columns)
    &&& t.parts.len() <= u16::MAX
    &&& forall|i: int| 0 <= i < t.parts.len() ==> all_short_texts((#[trigger] t.parts[i]).0) && all_short_texts(t.parts[i].1.0)
        && short_rows(t.parts[i].1.1)
}

pub open spec fn parse_parts_block(b: Seq<u8>) -> Option<(Seq<PartView>, int)> {
    if b.len() < 2 {
        None
    } else {
        match parse_seq(b.skip(2), decode16(b) as nat, part_parser()) {
            Some((ps, k)) => Some((ps, 2 + k)),
            None => None,
        }
    }
}

/// Reads `a` then, on what follows, `c`.
pub open spec fn then_parse<A, C>(b: Seq<u8>, a: Option<(A, int)>, c: spec_fn(Seq<u8>) -> Option<(C, int)>) -> Option<((A, C), int)> {
    match a {
        Some((x, n1)) => if 0 <= n1 <= b.len() {
            match c(b.skip(n1)) {
                Some((y, n2)) => Some(((x, y), n1 + n2)),
                None => None,
            }
        } else {
            None
        },
        None => None,
    }
}

pub open spec fn parts_block_parser() -> spec_fn(Seq<u8>) -> Option<(Seq<PartView>, int)> {
    |x: Seq<u8>| parse_parts_block(x)
}

pub open spec fn parse_cols_on(b: Seq<u8>) -> Option<((RowView, Seq<PartView>), int)> {
    then_parse(b, parse_map(b), parts_block_parser())
}

pub open spec fn cols_on_parser() -> spec_fn(Seq<u8>) -> Option<((RowView, Seq<PartView>), int)> {
    |x: Seq<u8>| parse_cols_on(x)
}

pub open spec fn parse_ck_on(b: Seq<u8>) -> Option<((KeyView, (RowView, Seq<PartView>)), int)> {
    then_parse(b, parse_list(b), cols_on_parser())
}

pub open spec fn ck_on_parser() -> spec_fn(Seq<u8>) -> Option<((KeyView, (RowView, Seq<PartView>)), int)> {
    |x: Seq<u8>| parse_ck_on(x)
}

pub open spec fn parse_pk_on(b: Seq<u8>) -> Option<((KeyView, (KeyView, (RowView, Seq<PartView>))), int)> {
    then_parse(b, parse_list(b), ck_on_parser())
}

pub open spec fn pk_on_parser() -> spec_fn(Seq<u8>) -> Option<((KeyView, (KeyView, (RowView, Seq<PartView>))), int)> {
    |x: Seq<u8>| parse_pk_on(x)
}

pub open spec fn parse_table(b: Seq<u8>) -> Option<(TableView, int)> {
    match then_parse(b, parse_text(b, 2), pk_on_parser()) {
        Some(((name, (pk, (ck, (columns, parts)))), n)) => Some((TableView { name, pk, ck, columns, parts }, n)),
        None => None,
    }
}

/// A longer read that succeeds makes every shorter one succeed.
pub proof fn lemma_parse_seq_prefix<T>(b: Seq<u8>, n: nat, m: nat, p: spec_fn(Seq<u8>) -> Option<(T, int)>)
    requires
        m <= n,
        parse_seq(b, n, p) is Some,
    ensures
        parse_seq(b, m, p) is Some,
    decreases m,
{
    if m > 0 {
        let (x, k) = p(b)->Some_0;
        lemma_parse_seq_prefix(b.skip(k), (n - 1) as nat, (m - 1) as nat, p);
    }
}

proof fn lemma_list_round_trip(l: KeyView, t: Seq<u8>)
    requires
        all_short_texts(l),
    ensures
        parse_list(list_enc(l) + t) == Some((l, list_enc(l).len() as int)),
{
    assert forall|i: int, u: Seq<u8>| 0 <= i < l.len() implies #[trigger] text_parser()(text_item()(l[i]) + u) == Some((l[i], text_item()(l[i]).len() as int)) by {
        lemma_text_round_trip(l[i], u);
    }
    lemma_parse_seq_round_trip(l, t, text_item(), text_parser());
    lemma_be16_round_trip(l.len() as u16);
    let b = list_enc(l) + t;
    assert(b.skip(2) =~= concat_map(l, text_item()) + t);
    assert(b.subrange(0, 2) =~= be16(l.len() as u16));
    assert(decode16(b) == decode16(be16(l.len() as u16)));
}

proof fn lemma_map_round_trip(l: RowView, t: Seq<u8>)
    requires
        short_map(l),
    ensures
        parse_map(map_enc(l) + t) == Some((l, map_enc(l).len() as int)),
{
    assert forall|i: int, u: Seq<u8>| 0 <= i < l.len() implies #[trigger] pair_parser()(pair_item()(l[i]) + u) == Some((l[i], pair_item()(l[i]).len() as int)) by {
        let (k, v) = l[i];
        lemma_text_round_trip(k, string_enc(v) + u);
        assert(pair_item()(l[i]) + u =~= string_enc(k) + (string_enc(v) + u));
        let b = pair_item()(l[i]) + u;
        assert(b.skip(string_enc(k).len() as int) =~= string_enc(v) + u);
        lemma_text_round_trip(v, u);
    }
    lemma_parse_seq_round_trip(l, t, pair_item(), pair_parser());
    lemma_be16_round_trip(l.len() as u16);
    let b = map_enc(l) + t;
    assert(b.skip(2) =~= concat_map(l, pair_item()) + t);
    assert(decode16(b) == decode16(be16(l.len() as u16)));
}

proof fn lemma_row_round_trip(r: (KeyView, RowView), u: Seq<u8>)
    requires
        all_short_texts(r.0),
        short_map(r.1),
    ensures
        parse_row(row_item()(r) + u) == Some((r, row_item()(r).len() as int)),
{
    lemma_list_round_trip(r.0, map_enc(r.1) + u);
    assert(row_item()(r) + u =~= list_enc(r.0) + (map_enc(r.1) + u));
    let b = row_item()(r) + u;
    assert(b.skip(list_enc(r.0).len() as int) =~= map_enc(r.1) + u);
    lemma_map_round_trip(r.1, u);
}

pub proof fn lemma_partition_round_trip(ck: KeyView, rows: Seq<(KeyView, RowView)>, u: Seq<u8>)
    requires
        all_short_texts(ck),
        short_rows(rows),
    ensures
        parse_partition(partition_enc(ck, rows) + u) == Some(((ck, rows), partition_enc(ck, rows).len() as int)),
{
    let tail = be16(rows.len() as u16) + concat_map(rows, row_item()) + u;
    lemma_list_round_trip(ck, tail);
    let b = partition_enc(ck, rows) + u;
    assert(b =~= list_enc(ck) + tail);
    let n1 = list_enc(ck).len() as int;
    assert(b.skip(n1) =~= tail);
    assert(b.skip(n1 + 2) =~= concat_map(rows, row_item()) + u);
    lemma_be16_round_trip(rows.len() as u16);
    assert(decode16(b.skip(n1)) == decode16(be16(rows.len() as u16)));
    assert forall|i: int, w: Seq<u8>| 0 <= i < rows.len() implies #[trigger] row_parser()(row_item()(rows[i]) + w) == Some((rows[i], row_item()(rows[i]).len() as int)) by {
        lemma_row_round_trip(rows[i], w);
    }
    lemma_parse_seq_round_trip(rows, u, row_item(), row_parser());
}

proof fn lemma_part_round_trip(pv: PartView, u: Seq<u8>)
    requires
        all_short_texts(pv.0),
        all_short_texts(pv.1.0),
        short_rows(pv.1.1),
    ensures
        parse_part(part_item()(pv) + u) == Some((pv, part_item()(pv).len() as int)),
{
    let rest = partition_enc(pv.1.0, pv.1.1) + u;
    lemma_list_round_trip(pv.0, rest);
    let b = part_item()(pv) + u;
    assert(b =~= list_enc(pv.0) + rest);
    assert(b.skip(list_enc(pv.0).len() as int) =~= rest);
    lemma_partition_round_trip(pv.1.0, pv.1.1, u);
}

/// Reading `x` then `y` from their encodings one after the other.
proof fn lemma_then_parse<A, C>(ea: Seq<u8>, rest: Seq<u8>, a: A, c: spec_fn(Seq<u8>) -> Option<(C, int)>, y: C, n2: int)
    requires
        c(rest) == Some((y, n2)),
    ensures
        then_parse(ea + rest, Some((a, ea.len() as int)), c) == Some(((a, y), ea.len() + n2)),
{
    assert((ea + rest).skip(ea.len() as int) =~= rest);
}

proof fn lemma_parts_block_round_trip(parts: Seq<PartView>, u: Seq<u8>)
    requires
        parts.len() <= u16::MAX,
        forall|i: int| 0 <= i < parts.len() ==> all_short_texts((#[trigger] parts[i]).0) && all_short_texts(parts[i].1.0)
            && short_rows(parts[i].1.1),
    ensures
        parse_parts_block(be16(parts.len() as u16) + concat_map(parts, part_item()) + u) == Some((parts, 2 + concat_map(parts, part_item()).len() as int)),
{
    let b = be16(parts.len() as u16) + concat_map(parts, part_item()) + u;
    lemma_be16_round_trip(parts.len() as u16);
    assert(b.subrange(0, 2) =~= be16(parts.len() as u16));
    assert(decode16(b) == decode16(be16(parts.len() as u16)));
    assert(b.skip(2) =~= concat_map(parts, part_item()) + u);
    assert forall|i: int, w: Seq<u8>| 0 <= i < parts.len() implies #[trigger] part_parser()(part_item()(parts[i]) + w) == Some((parts[i], part_item()(parts[i]).len() as int)) by {
        lemma_part_round_trip(parts[i], w);
    }
    lemma_parse_seq_round_trip(parts, u, part_item(), part_parser());
}

pub open spec fn parts_block_enc(parts: Seq<PartView>) -> Seq<u8> {
    be16(parts.len() as u16) + concat_map(parts, part_item())
}

#[verifier::spinoff_prover]
#[verifier::rlimit(100)]
proof fn lemma_cols_on(t: TableView, u: Seq<u8>)
    requires
        table_fits(t),
    ensures
        parse_cols_on(map_enc(t.columns) + (parts_block_enc(t.parts) + u)) == Some(((t.columns, t.parts), (map_enc(t.columns).len() + parts_block_enc(t.parts).len()) as int)),
{
    reveal(table_fits);
    lemma_parts_block_round_trip(t.parts, u);
    let r4 = parts_block_enc(t.parts) + u;
    lemma_map_round_trip(t.columns, r4);
    lemma_then_parse(map_enc(t.columns), r4, t.columns, parts_block_parser(), t.parts, parts_block_enc(t.parts).len() as int);
}

#[verifier::spinoff_prover]
#[verifier::rlimit(100)]
proof fn lemma_ck_on(t: TableView, u: Seq<u8>)
    requires
        table_fits(t),
    ensures
        parse_ck_on(list_enc(t.ck) + (map_enc(t.columns) + (parts_block_enc(t.parts) + u))) == Some(((t.ck, (t.columns, t.parts)), (list_enc(t.ck).len() + map_enc(t.columns).len() + parts_block_enc(t.parts).len()) as int)),
{
    lemma_fits_parts(t);
    lemma_cols_on(t, u);
    let r3 = map_enc(t.columns) + (parts_block_enc(t.parts) + u);
    lemma_list_round_trip(t.ck, r3);
    lemma_then_parse(list_enc(t.ck), r3, t.ck, cols_on_parser(), (t.columns, t.parts), (map_enc(t.columns).len() + parts_block_enc(t.parts).len()) as int);
}

#[verifier::spinoff_prover]
#[verifier::rlimit(100)]
proof fn lemma_pk_on(t: TableView, u: Seq<u8>)
    requires
        table_fits(t),
    ensures
        parse_pk_on(list_enc(t.pk) + (list_enc(t.ck) + (map_enc(t.columns) + (parts_block_enc(t.parts) + u)))) == Some(((t.pk, (t.ck, (t.columns, t.parts))), (list_enc(t.pk).len() + list_enc(t.ck).len() + map_enc(t.columns).len() + parts_block_enc(t.parts).len()) as int)),
{
    lemma_fits_parts(t);
    lemma_ck_on(t, u);
    let r2 = list_enc(t.ck) + (map_enc(t.columns) + (parts_block_enc(t.parts) + u));
    lemma_list_round_trip(t.pk, r2);
    lemma_then_parse(list_enc(t.pk), r2, t.pk, ck_on_parser(), (t.ck, (t.columns, t.parts)), (list_enc(t.ck).len() + map_enc(t.columns).len() + parts_block_enc(t.parts).len()) as int);
}

/// A table's binary form reads back as the same table, whatever follows it.
#[verifier::rlimit(100)]
pub proof fn lemma_table_round_trip(t: TableView, u: Seq<u8>)
    requires
        table_fits(t),
    ensures
        parse_table(table_enc(t) + u) == Some((t, table_enc(t).len() as int)),
{
    let r1 = list_enc(t.pk) + (list_enc(t.ck) + (map_enc(t.columns) + (parts_block_enc(t.parts) + u)));
    let b1 = string_enc(t.name) + r1;
    lemma_enc_shape(t, u);
    lemma_fits_parts(t);
    lemma_pk_on(t, u);
    lemma_text_round_trip(t.name, r1);
    let k = (list_enc(t.pk).len() + list_enc(t.ck).len() + map_enc(t.columns).len() + parts_block_enc(t.parts).len()) as int;
    lemma_then_parse(string_enc(t.name), r1, t.name, pk_on_parser(), (t.pk, (t.ck, (t.columns, t.parts))), k);
}

proof fn lemma_fits_parts(t: TableView)
    requires
        table_fits(t),
    ensures
        short_text(t.name),
        all_short_texts(t.pk),
        all_short_texts(t.ck),
        short_map(t.columns),
        t.parts.len() <= u16::MAX,
{
    reveal(table_fits);
}

proof fn lemma_enc_shape(t: TableView, u: Seq<u8>)
    ensures
        table_enc(t) + u == string_enc(t.name) + (list_enc(t.pk) + (list_enc(t.ck) + (map_enc(t.columns) + (parts_block_enc(t.parts) + u)))),
        table_enc(t).len() == string_enc(t.name).len() + list_enc(t.pk).len() + list_enc(t.ck).len() + map_enc(t.columns).len() + parts_block_enc(t.parts).len(),
{
    assert(table_enc(t) + u =~= string_enc(t.name) + (list_enc(t.pk) + (list_enc(t.ck) + (map_enc(t.columns) + (parts_block_enc(t.parts) + u)))));
}

/// Writes a `[string list]`.
pub fn write_string_list(buffer: &mut Vec<u8>, strings: &[String])
    requires
        all_short_texts(texts_of(strings@)),
    ensures
        final(buffer)@ == old(buffer)@ + list_enc(texts_of(strings@)),
{
    let ghost start = buffer@;
    let ghost l = texts_of(strings@);
    write_short(buffer, strings.len() as u16);
    let mut i: usize = 0;
    while i < strings.len()
        invariant
            i <= strings@.len(),
            l == texts_of(strings@),
            all_short_texts(l),
            buffer@ == start + be16(strings@.len() as u16) + concat_map(l.take(i as int), text_item()),
        decreases strings@.len() - i,
    {
        assert(short_text(l[i as int]));
        write_string(buffer, strings[i].as_str());
        proof {
            lemma_concat_map_push(l.take(i as int), l[i as int], text_item());
            assert(l.take(i + 1) =~= l.take(i as int).push(l[i as int]));
        }
        i = i + 1;
        assert(buffer@ =~= start + be16(strings@.len() as u16) + concat_map(l.take(i as int), text_item()));
    }
    assert(l.take(i as int) =~= l);
    assert(buffer@ =~= start + list_enc(l));
}

/// Writes a `[string map]`.
pub fn write_string_map(buffer: &mut Vec<u8>, kv_pairs: &Vec<(String, String)>)
    requires
        short_map(row_view(kv_pairs@)),
    ensures
        final(buffer)@ == old(buffer)@ + map_enc(row_view(kv_pairs@)),
{
    let ghost start = buffer@;
    let ghost l = row_view(kv_pairs@);
    write_short(buffer, kv_pairs.len() as u16);
    let mut i: usize = 0;
    while i < kv_pairs.len()
        invariant
            i <= kv_pairs@.len(),
            l == row_view(kv_pairs@),
            short_map(l),
            buffer@ == start + be16(kv_pairs@.len() as u16) + concat_map(l.take(i as int), pair_item()),
        decreases kv_pairs@.len() - i,
    {
        assert(l[i as int] == (kv_pairs@[i as int].0@, kv_pairs@[i as int].1@));
        write_string(buffer, kv_pairs[i].0.as_str());
        write_string(buffer, kv_pairs[i].1.as_str());
        proof {
            lemma_concat_map_push(l.take(i as int), l[i as int], pair_item());
            assert(l.take(i + 1) =~= l.take(i as int).push(l[i as int]));
        }
        i = i + 1;
        assert(buffer@ =~= start + be16(kv_pairs@.len() as u16) + concat_map(l.take(i as int), pair_item()));
    }
    assert(l.take(i as int) =~= l);
    assert(buffer@ =~= start + map_enc(l));
}

/// Writes a partition: its clustering-key columns, then each row under its keys.
pub fn write_partition(buffer: &mut Vec<u8>, partition: &Partition)
    requires
        all_short_texts(texts_of(partition.clustering_key_columns@)),
        short_rows(partition.view_rows()),
    ensures
        final(buffer)@ == old(buffer)@ + partition_enc(texts_of(partition.clustering_key_columns@), partition.view_rows()),
{
    let ghost start = buffer@;
    let ghost rows = partition.view_rows();
    write_string_list(buffer, partition.clustering_key_columns.as_slice());
    let ghost mid = buffer@;
    write_short(buffer, partition.rows.len() as u16);
    let mut i: usize = 0;
    while i < partition.rows.len()
        invariant
            i <= partition.rows@.len(),
            rows == partition.view_rows(),
            short_rows(rows),
            buffer@ == mid + be16(partition.rows@.len() as u16) + concat_map(rows.take(i as int), row_item()),
        decreases partition.rows@.len() - i,
    {
        assert(rows[i as int] == (texts_of(partition.rows@[i as int].0@), row_view(partition.rows@[i as int].1@)));
        write_string_list(buffer, partition.rows[i].0.as_slice());
        write_string_map(buffer, &partition.rows[i].1);
        proof {
            lemma_concat_map_push(rows.take(i as int), rows[i as int], row_item());
            assert(rows.take(i + 1) =~= rows.take(i as int).push(rows[i as int]));
        }
        i = i + 1;
        assert(buffer@ =~= mid + be16(partition.rows@.len() as u16) + concat_map(rows.take(i as int), row_item()));
    }
    assert(rows.take(i as int) =~= rows);
    assert(buffer@ =~= start + partition_enc(texts_of(partition.clustering_key_columns@), rows));
}

impl Table {
    /// The table's binary form.
    pub fn to_bytes(&self) -> (r: Vec<u8>)
        requires
            table_fits(table_view(*self)),
        ensures
            r@ == table_enc(table_view(*self)),
    {
        let ghost t = table_view(*self);
        proof {
            reveal(table_fits);
        }
        let mut buffer: Vec<u8> = Vec::new();
        write_string(&mut buffer, self.table_name.as_str());
        write_string_list(&mut buffer, self.partition_key_columns.as_slice());
        write_string_list(&mut buffer, self.clustering_key_columns.as_slice());
        write_string_map(&mut buffer, &self.columns);
        let ghost head = buffer@;
        write_short(&mut buffer, self.partitions.len() as u16);
        let mut i: usize = 0;
        while i < self.partitions.len()
            invariant
                i <= self.partitions@.len(),
                t == table_view(*self),
                table_fits(t),
                buffer@ == head + be16(self.partitions@.len() as u16) + concat_map(t.parts.take(i as int), part_item()),
            decreases self.partitions@.len() - i,
        {
            assert(t.parts[i as int] == (texts_of(self.partitions@[i as int].0@), partition_view(self.partitions@[i as int].1)));
            proof {
                reveal(table_fits);
            }
            write_string_list(&mut buffer, self.partitions[i].0.as_slice());
            write_partition(&mut buffer, &self.partitions[i].1);
            proof {
                lemma_concat_map_push(t.parts.take(i as int), t.parts[i as int], part_item());
                assert(t.parts.take(i + 1) =~= t.parts.take(i as int).push(t.parts[i as int]));
            }
            i = i + 1;
            assert(buffer@ =~= head + be16(self.partitions@.len() as u16) + concat_map(t.parts.take(i as int), part_item()));
        }
        assert(t.parts.take(i as int) =~= t.parts);
        assert(buffer@ =~= table_enc(t));
        buffer
    }
}

pub open spec fn consumed(a: ByteReader, b: ByteReader) -> int {
    a.rest().len() - b.rest().len()
}

pub(crate) fn read_text_list(cursor: &mut ByteReader) -> (r: Result<Vec<String>, DecodeError>)
    ensures
        match r {
            Ok(v) => parse_list(old(cursor).rest()) == Some((texts_of(v@), consumed(*old(cursor), *final(cursor))))
                && final(cursor).rest() == old(cursor).rest().skip(consumed(*old(cursor), *final(cursor))),
            Err(_) => parse_list(old(cursor).rest()) is None,
        },
{
    let ghost b = cursor.rest();
    let n = read_short(cursor)?;
    let ghost b0 = cursor.rest();
    let mut list: Vec<String> = Vec::new();
    let mut i: u16 = 0;
    assert(parse_seq(b0, 0, text_parser()) == Some((Seq::<Seq<char>>::empty(), 0int)));
    assert(b0.skip(0) =~= b0);
    while i < n
        invariant
            i <= n,
            b == old(cursor).rest(),
            b0 == b.skip(2),
            n == decode16(b),
            b.len() >= 2,
            cursor.rest().len() <= b0.len(),
            parse_seq(b0, i as nat, text_parser()) == Some((texts_of(list@), b0.len() - cursor.rest().len())),
            cursor.rest() == b0.skip(b0.len() - cursor.rest().len()),
        decreases n - i,
    {
        let ghost before = cursor.rest();
        let ghost done = b0.len() - before.len();
        proof { lemma_parse_seq_extend(b0, i as nat, text_parser()); }
        match read_string(cursor) {
            Ok(s) => {
                let ghost prev = list@;
                list.push(s);
                proof {
                    assert(texts_of(list@) =~= texts_of(prev).push(s@));
                    assert(cursor.rest() =~= b0.skip(b0.len() - cursor.rest().len()));
                }
            },
            Err(e) => {
                proof {
                    assert(before == b0.skip(done));
                    assert(text_parser()(before) == parse_text(before, 2));
                    assert(parse_seq(b0, (i + 1) as nat, text_parser()) is None);
                    if parse_list(b) is Some {
                        assert(parse_seq(b0, n as nat, text_parser()) is Some);
                        lemma_parse_seq_prefix(b0, n as nat, (i + 1) as nat, text_parser());
                    }
                }
                return Err(e);
            },
        }
        i = i + 1;
    }
    proof { lemma_parse_seq_bound(b0, n as nat, text_parser()); }
    assert(cursor.rest() =~= b.skip(consumed(*old(cursor), *cursor)));
    Ok(list)
}

proof fn lemma_list_bound(b: Seq<u8>)
    requires
        parse_list(b) is Some,
    ensures
        2 <= parse_list(b)->Some_0.1 <= b.len(),
{
    lemma_parse_seq_bound(b.skip(2), decode16(b) as nat, text_parser());
}

proof fn lemma_map_bound(b: Seq<u8>)
    requires
        parse_map(b) is Some,
    ensures
        2 <= parse_map(b)->Some_0.1 <= b.len(),
{
    lemma_parse_seq_bound(b.skip(2), decode16(b) as nat, pair_parser());
}

proof fn lemma_row_bound(b: Seq<u8>)
    requires
        parse_row(b) is Some,
    ensures
        0 <= parse_row(b)->Some_0.1 <= b.len(),
{
    lemma_list_bound(b);
    let n1 = parse_list(b)->Some_0.1;
    lemma_map_bound(b.skip(n1));
}

proof fn lemma_partition_bound(b: Seq<u8>)
    requires
        parse_partition(b) is Some,
    ensures
        0 <= parse_partition(b)->Some_0.1 <= b.len(),
{
    lemma_list_bound(b);
    let n1 = parse_list(b)->Some_0.1;
    lemma_parse_seq_bound(b.skip(n1 + 2), decode16(b.skip(n1)) as nat, row_parser());
}

fn read_pair(cursor: &mut ByteReader) -> (r: Result<(String, String), DecodeError>)
    ensures
        match r {
            Ok(v) => parse_pair(old(cursor).rest()) == Some(((v.0@, v.1@), consumed(*old(cursor), *final(cursor))))
                && final(cursor).rest() == old(cursor).rest().skip(consumed(*old(cursor), *final(cursor))),
            Err(_) => parse_pair(old(cursor).rest()) is None,
        },
{
    let ghost b = cursor.rest();
    let k = read_string(cursor)?;
    let ghost b1 = cursor.rest();
    let v = read_string(cursor)?;
    assert(cursor.rest() =~= b.skip(consumed(*old(cursor), *cursor)));
    Ok((k, v))
}

/// Reads a `[string map]`, keeping the order of its pairs.
pub fn read_string_map(cursor: &mut ByteReader) -> (r: Result<Vec<(String, String)>, DecodeError>)
    ensures
        match r {
            Ok(v) => parse_map(old(cursor).rest()) == Some((row_view(v@), consumed(*old(cursor), *final(cursor))))
                && final(cursor).rest() == old(cursor).rest().skip(consumed(*old(cursor), *final(cursor))),
            Err(_) => parse_map(old(cursor).rest()) is None,
        },
{
    let ghost b = cursor.rest();
    let n = read_short(cursor)?;
    let ghost b0 = cursor.rest();
    let mut list: Vec<(String, String)> = Vec::new();
    let mut i: u16 = 0;
    assert(parse_seq(b0, 0, pair_parser()) == Some((Seq::<(Seq<char>, Seq<char>)>::empty(), 0int)));
    assert(b0.skip(0) =~= b0);
    assert(row_view(list@) =~= Seq::<(Seq<char>, Seq<char>)>::empty());
    while i < n
        invariant
            i <= n,
            b == old(cursor).rest(),
            b0 == b.skip(2),
            n == decode16(b),
            b.len() >= 2,
            cursor.rest().len() <= b0.len(),
            parse_seq(b0, i as nat, pair_parser()) == Some((row_view(list@), b0.len() - cursor.rest().len())),
            cursor.rest() == b0.skip(b0.len() - cursor.rest().len()),
        decreases n - i,
    {
        let ghost before = cursor.rest();
        let ghost done = b0.len() - before.len();
        proof { lemma_parse_seq_extend(b0, i as nat, pair_parser()); }
        match read_pair(cursor) {
            Ok(x) => {
                let ghost prev = list@;
                let ghost xv = (x.0@, x.1@);
                list.push(x);
                proof {
                    assert(row_view(list@) =~= row_view(prev).push(xv));
                    assert(cursor.rest() =~= b0.skip(b0.len() - cursor.rest().len()));
                }
            },
            Err(e) => {
                proof {
                    assert(before == b0.skip(done));
                    assert(pair_parser()(before) == parse_pair(before));
                    assert(parse_seq(b0, (i + 1) as nat, pair_parser()) is None);
                    if parse_map(b) is Some {
                        assert(parse_seq(b0, n as nat, pair_parser()) is Some);
                        lemma_parse_seq_prefix(b0, n as nat, (i + 1) as nat, pair_parser());
                    }
                }
                return Err(e);
            },
        }
        i = i + 1;
    }
    proof { lemma_parse_seq_bound(b0, n as nat, pair_parser()); }
    assert(cursor.rest() =~= b.skip(consumed(*old(cursor), *cursor)));
    Ok(list)
}

fn read_row(cursor: &mut ByteReader) -> (r: Result<(Vec<String>, Vec<(String, String)>), DecodeError>)
    ensures
        match r {
            Ok(v) => parse_row(old(cursor).rest()) == Some(((texts_of(v.0@), row_view(v.1@)), consumed(*old(cursor), *final(cursor))))
                && final(cursor).rest() == old(cursor).rest().skip(consumed(*old(cursor), *final(cursor))),
            Err(_) => parse_row(old(cursor).rest()) is None,
        },
{
    let ghost b = cursor.rest();
    let k = read_text_list(cursor)?;
    let ghost n1 = consumed(*old(cursor), *cursor);
    proof { lemma_list_bound(b); }
    let ghost mid = cursor.rest();
    let v = read_string_map(cursor)?;
    proof {
        lemma_map_bound(mid);
        assert(cursor.rest() =~= b.skip(consumed(*old(cursor), *cursor)));
    }
    Ok((k, v))
}

/// Reads a partition.
pub fn read_partition(cursor: &mut ByteReader) -> (r: Result<Partition, DecodeError>)
    ensures
        match r {
            Ok(p) => parse_partition(old(cursor).rest()) == Some((partition_view(p), consumed(*old(cursor), *final(cursor))))
                && final(cursor).rest() == old(cursor).rest().skip(consumed(*old(cursor), *final(cursor))),
            Err(_) => parse_partition(old(cursor).rest()) is None,
        },
{
    let ghost b = cursor.rest();
    let ck = read_text_list(cursor)?;
    proof { lemma_list_bound(b); }
    let ghost n1 = consumed(*old(cursor), *cursor);
    let ghost bm = cursor.rest();
    let n = read_short(cursor)?;
    let ghost b0 = cursor.rest();
    assert(b0 =~= b.skip(n1 + 2));
    let mut rows: Vec<(Vec<String>, Vec<(String, String)>)> = Vec::new();
    let mut i: u16 = 0;
    assert(parse_seq(b0, 0, row_parser()) == Some((Seq::<(KeyView, RowView)>::empty(), 0int)));
    assert(b0.skip(0) =~= b0);
    assert(rows_view(rows@) =~= Seq::<(KeyView, RowView)>::empty());
    while i < n
        invariant
            i <= n,
            b == old(cursor).rest(),
            parse_list(b) == Some((texts_of(ck@), n1)),
            0 <= n1 <= b.len(),
            b.skip(n1) == bm,
            bm.len() >= 2,
            b0 == b.skip(n1 + 2),
            n == decode16(bm),
            cursor.rest().len() <= b0.len(),
            parse_seq(b0, i as nat, row_parser()) == Some((rows_view(rows@), b0.len() - cursor.rest().len())),
            cursor.rest() == b0.skip(b0.len() - cursor.rest().len()),
        decreases n - i,
    {
        let ghost before = cursor.rest();
        let ghost done = b0.len() - before.len();
        proof { lemma_parse_seq_extend(b0, i as nat, row_parser()); }
        match read_row(cursor) {
            Ok(x) => {
                let ghost prev = rows@;
                let ghost xv = (texts_of(x.0@), row_view(x.1@));
                rows.push(x);
                proof {
                    lemma_row_bound(before);
                    assert(rows_view(rows@) =~= rows_view(prev).push(xv));
                    assert(cursor.rest() =~= b0.skip(b0.len() - cursor.rest().len()));
                }
            },
            Err(e) => {
                proof {
                    assert(before == b0.skip(done));
                    assert(row_parser()(before) == parse_row(before));
                    assert(parse_seq(b0, (i + 1) as nat, row_parser()) is None);
                    if parse_partition(b) is Some {
                        assert(parse_seq(b0, n as nat, row_parser()) is Some);
                        lemma_parse_seq_prefix(b0, n as nat, (i + 1) as nat, row_parser());
                    }
                }
                return Err(e);
            },
        }
        i = i + 1;
    }
    proof { lemma_parse_seq_bound(b0, n as nat, row_parser()); }
    assert(cursor.rest() =~= b.skip(consumed(*old(cursor), *cursor)));
    Ok(Partition { clustering_key_columns: ck, rows })
}

fn read_part(cursor: &mut ByteReader) -> (r: Result<(Vec<String>, Partition), DecodeError>)
    ensures
        match r {
            Ok(v) => parse_part(old(cursor).rest()) == Some(((texts_of(v.0@), partition_view(v.1)), consumed(*old(cursor), *final(cursor))))
                && final(cursor).rest() == old(cursor).rest().skip(consumed(*old(cursor), *final(cursor))),
            Err(_) => parse_part(old(cursor).rest()) is None,
        },
{
    let ghost b = cursor.rest();
    let k = read_text_list(cursor)?;
    proof { lemma_list_bound(b); }
    let ghost mid = cursor.rest();
    let p = read_partition(cursor)?;
    proof {
        lemma_partition_bound(mid);
        assert(cursor.rest() =~= b.skip(consumed(*old(cursor), *cursor)));
    }
    Ok((k, p))
}

pub open spec fn parts_of(parts: Seq<(Vec<String>, Partition)>) -> Seq<PartView> {
    parts.map_values(|p: (Vec<String>, Partition)| (texts_of(p.0@), partition_view(p.1)))
}

#[verifier::rlimit(60)]
fn read_parts_block(cursor: &mut ByteReader) -> (r: Result<Vec<(Vec<String>, Partition)>, DecodeError>)
    ensures
        match r {
            Ok(v) => parse_parts_block(old(cursor).rest()) == Some((parts_of(v@), consumed(*old(cursor), *final(cursor))))
                && final(cursor).rest() == old(cursor).rest().skip(consumed(*old(cursor), *final(cursor))),
            Err(_) => parse_parts_block(old(cursor).rest()) is None,
        },
{
    let ghost b = cursor.rest();
    let n = read_short(cursor)?;
    let ghost b0 = cursor.rest();
    let mut parts: Vec<(Vec<String>, Partition)> = Vec::new();
    let mut i: u16 = 0;
    assert(parse_seq(b0, 0, part_parser()) == Some((Seq::<PartView>::empty(), 0int)));
    assert(b0.skip(0) =~= b0);
    assert(parts_of(parts@) =~= Seq::<PartView>::empty());
    while i < n
        invariant
            i <= n,
            b == old(cursor).rest(),
            b0 == b.skip(2),
            n == decode16(b),
            b.len() >= 2,
            cursor.rest().len() <= b0.len(),
            parse_seq(b0, i as nat, part_parser()) == Some((parts_of(parts@), b0.len() - cursor.rest().len())),
            cursor.rest() == b0.skip(b0.len() - cursor.rest().len()),
        decreases n - i,
    {
        let ghost before = cursor.rest();
        let ghost done = b0.len() - before.len();
        proof { lemma_parse_seq_extend(b0, i as nat, part_parser()); }
        match read_part(cursor) {
            Ok(x) => {
                let ghost prev = parts@;
                let ghost xv = (texts_of(x.0@), partition_view(x.1));
                parts.push(x);
                proof {
                    lemma_list_bound(before);
                    lemma_partition_bound(before.skip(parse_list(before)->Some_0.1));
                    assert(parts_of(parts@) =~= parts_of(prev).push(xv));
                    assert(cursor.rest() =~= b0.skip(b0.len() - cursor.rest().len()));
                }
            },
            Err(e) => {
                proof {
                    assert(before == b0.skip(done));
                    assert(part_parser()(before) == parse_part(before));
                    assert(parse_seq(b0, (i + 1) as nat, part_parser()) is None);
                    if parse_parts_block(b) is Some {
                        assert(parse_seq(b0, n as nat, part_parser()) is Some);
                        lemma_parse_seq_prefix(b0, n as nat, (i + 1) as nat, part_parser());
                    }
                }
                return Err(e);
            },
        }
        i = i + 1;
    }
    proof { lemma_parse_seq_bound(b0, n as nat, part_parser()); }
    assert(cursor.rest() =~= b.skip(consumed(*old(cursor), *cursor)));
    Ok(parts)
}

impl Table {
    /// Reads a table from the front of its binary form.
    pub fn from_bytes(bytes: &[u8]) -> (r: Result<Table, DecodeError>)
        ensures
            match parse_table(bytes@) {
                Some((tv, _)) => r is Ok && table_view(r->Ok_0) == tv,
                None => r is Err,
            },
    {
        let mut cursor = ByteReader::new(bytes);
        let ghost b = bytes@;
        let name = read_string(&mut cursor)?;
        let ghost b1 = cursor.rest();
        let ghost n1 = b.len() - b1.len();
        proof { lemma_parsed_text(b); }
        let pk = match read_text_list(&mut cursor) {
            Ok(v) => v,
            Err(e) => {
                return Err(e);
            },
        };
        let ghost b2 = cursor.rest();
        let ghost n2 = b1.len() - b2.len();
        proof { lemma_list_bound(b1); }
        let ck = match read_text_list(&mut cursor) {
            Ok(v) => v,
            Err(e) => {
                return Err(e);
            },
        };
        let ghost b3 = cursor.rest();
        let ghost n3 = b2.len() - b3.len();
        proof { lemma_list_bound(b2); }
        let columns = match read_string_map(&mut cursor) {
            Ok(v) => v,
            Err(e) => {
                return Err(e);
            },
        };
        let ghost b4 = cursor.rest();
        let ghost n4 = b3.len() - b4.len();
        proof { lemma_map_bound(b3); }
        let partitions = match read_parts_block(&mut cursor) {
            Ok(v) => v,
            Err(e) => {
                return Err(e);
            },
        };
        let t = Table { table_name: name, partition_key_columns: pk, clustering_key_columns: ck, columns, partitions };
        proof {
            let tv = table_view(t);
            assert(tv.parts == parts_of(t.partitions@));
        }
        Ok(t)
    }
}

proof fn lemma_multi_pair_bound(b: Seq<u8>)
    requires
        parse_multi_pair(b) is Some,
    ensures
        0 <= parse_multi_pair(b)->Some_0.1 <= b.len(),
{
    let n1 = parse_text(b, 2)->Some_0.1;
    lemma_list_bound(b.skip(n1));
}

fn read_multi_pair(cursor: &mut ByteReader) -> (r: Result<(String, Vec<String>), DecodeError>)
    ensures
        match r {
            Ok(v) => parse_multi_pair(old(cursor).rest()) == Some(((v.0@, texts_of(v.1@)), consumed(*old(cursor), *final(cursor))))
                && final(cursor).rest() == old(cursor).rest().skip(consumed(*old(cursor), *final(cursor))),
            Err(_) => parse_multi_pair(old(cursor).rest()) is None,
        },
{
    let ghost b = cursor.rest();
    let k = read_string(cursor)?;
    let ghost mid = cursor.rest();
    let l = read_text_list(cursor)?;
    proof {
        lemma_list_bound(mid);
        assert(cursor.rest() =~= b.skip(consumed(*old(cursor), *cursor)));
    }
    Ok((k, l))
}

pub open spec fn multi_view(l: Seq<(String, Vec<String>)>) -> Seq<(Seq<char>, Seq<Seq<char>>)> {
    l.map_values(|p: (String, Vec<String>)| (p.0@, texts_of(p.1@)))
}

/// Reads a `[string multimap]`.
pub(crate) fn read_multimap(cursor: &mut ByteReader) -> (r: Result<Vec<(String, Vec<String>)>, DecodeError>)
    ensures
        match parse_multimap(old(cursor).rest()) {
            Some((l, k)) => r is Ok && crate::notation::string_multi_view(r->Ok_0@) == l && final(cursor).rest() == old(cursor).rest().skip(k),
            None => r is Err,
        },
{
    let ghost b = cursor.rest();
    let n = read_short(cursor)?;
    let ghost b0 = cursor.rest();
    let mut list: Vec<(String, Vec<String>)> = Vec::new();
    let mut i: u16 = 0;
    assert(parse_seq(b0, 0, multi_pair_parser()) == Some((Seq::<(Seq<char>, Seq<Seq<char>>)>::empty(), 0int)));
    assert(b0.skip(0) =~= b0);
    assert(multi_view(list@) =~= Seq::<(Seq<char>, Seq<Seq<char>>)>::empty());
    while i < n
        invariant
            i <= n,
            b == old(cursor).rest(),
            b0 == b.skip(2),
            n == decode16(b),
            b.len() >= 2,
            cursor.rest().len() <= b0.len(),
            parse_seq(b0, i as nat, multi_pair_parser()) == Some((multi_view(list@), b0.len() - cursor.rest().len())),
            cursor.rest() == b0.skip(b0.len() - cursor.rest().len()),
        decreases n - i,
    {
        let ghost before = cursor.rest();
        let ghost done = b0.len() - before.len();
        proof { lemma_parse_seq_extend(b0, i as nat, multi_pair_parser()); }
        match read_multi_pair(cursor) {
            Ok(x) => {
                let ghost prev = list@;
                let ghost xv = (x.0@, texts_of(x.1@));
                list.push(x);
                proof {
                    lemma_multi_pair_bound(before);
                    assert(multi_view(list@) =~= multi_view(prev).push(xv));
                    assert(cursor.rest() =~= b0.skip(b0.len() - cursor.rest().len()));
                }
            },
            Err(e) => {
                proof {
                    assert(before == b0.skip(done));
                    assert(multi_pair_parser()(before) == parse_multi_pair(before));
                    assert(parse_seq(b0, (i + 1) as nat, multi_pair_parser()) is None);
                    if parse_multimap(b) is Some {
                        assert(parse_seq(b0, n as nat, multi_pair_parser()) is Some);
                        lemma_parse_seq_prefix(b0, n as nat, (i + 1) as nat, multi_pair_parser());
                    }
                }
                return Err(e);
            },
        }
        i = i + 1;
    }
    proof {
        lemma_parse_seq_bound(b0, n as nat, multi_pair_parser());
        assert(crate::notation::string_multi_view(list@) =~= multi_view(list@)) by {
            assert forall|x: int| 0 <= x < list@.len() implies crate::notation::string_multi_view(list@)[x] == multi_view(list@)[x] by {
                assert(crate::notation::strings_view(list@[x].1@) =~= texts_of(list@[x].1@));
            }
        }
    }
    assert(cursor.rest() =~= b.skip(consumed(*old(cursor), *cursor)));
    Ok(list)
}

} // verus!
