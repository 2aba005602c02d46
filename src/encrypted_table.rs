//! A table kept as its binary form transformed under a key: each operation reads it
//! back, applies the change, and stores it again.
use vstd::prelude::*;
use vstd::string::*;
use crate::expression::{row_view, Expression};
use crate::notation::short_text;
use crate::security::{decrypt, decrypted, encrypt, encrypted, lemma_encrypt_round_trip};
use crate::serde_table::{
    all_short_texts, lemma_table_round_trip, parse_table, short_map, short_rows, table_enc, table_fits,
    table_view, TableView, partition_view,
};
use crate::table::{
    known_columns, key_values, sets_empty_key, all_evaluable, RowView,
    all_rows, inserted, part_index, row_values, rows_have, rows_views, sorted_keys, KeyView, Partition, Table,
    TableError,
};
use crate::text::{push_char, texts_of};

verus! {

/// The conditions of a well-formed table, read off its contents.
pub open spec fn view_wf(tv: TableView) -> bool {
    &&& forall|i: int, j: int| 0 <= i < j < tv.parts.len() ==> (#[trigger] tv.parts[i]).0 != (#[trigger] tv.parts[j]).0
    &&& forall|i: int| 0 <= i < tv.parts.len() ==> {
        &&& sorted_keys((#[trigger] tv.parts[i]).1.1)
        &&& rows_have(tv.parts[i].1.1, tv.parts[i].1.0)
        &&& tv.parts[i].1.0 == tv.ck
        &&& rows_have(tv.parts[i].1.1, tv.pk)
    }
}

/// A table is well formed exactly when its contents are.
pub proof fn lemma_wf_by_view(t: Table)
    ensures
        t.wf() <==> view_wf(table_view(t)),
{
    let tv = table_view(t);
    assert forall|i: int| 0 <= i < t.partitions@.len() implies #[trigger] tv.parts[i] == (
        texts_of(t.partitions@[i].0@),
        partition_view(t.partitions@[i].1),
    ) && t.view_parts()[i] == (texts_of(t.partitions@[i].0@), t.partitions@[i].1.view_rows()) by {}
    if t.wf() {
        assert forall|i: int, j: int| 0 <= i < j < tv.parts.len() implies (#[trigger] tv.parts[i]).0 != (#[trigger] tv.parts[j]).0 by {
            assert(t.view_parts()[i].0 != t.view_parts()[j].0);
        }
        assert forall|i: int| 0 <= i < tv.parts.len() implies {
            &&& sorted_keys((#[trigger] tv.parts[i]).1.1)
            &&& rows_have(tv.parts[i].1.1, tv.parts[i].1.0)
            &&& tv.parts[i].1.0 == tv.ck
            &&& rows_have(tv.parts[i].1.1, tv.pk)
        } by {
            assert(t.partitions@[i].1.wf());
        }
    }
    if view_wf(tv) {
        assert forall|i: int, j: int| 0 <= i < j < t.partitions@.len() implies (#[trigger] t.view_parts()[i]).0 != (#[trigger] t.view_parts()[j]).0 by {
            assert(tv.parts[i].0 != tv.parts[j].0);
        }
        assert forall|i: int| 0 <= i < t.partitions@.len() implies {
            &&& (#[trigger] t.partitions@[i]).1.wf()
            &&& texts_of(t.partitions@[i].1.clustering_key_columns@) == t.ck_cols()
            &&& rows_have(t.partitions@[i].1.view_rows(), t.pk_cols())
        } by {
            assert(sorted_keys(tv.parts[i].1.1));
        }
    }
}

fn texts_fit(l: &Vec<String>) -> (r: bool)
    ensures
        r == all_short_texts(texts_of(l@)),
{
    if l.len() > 65535 {
        return false;
    }
    let mut i: usize = 0;
    while i < l.len()
        invariant
            i <= l@.len(),
            l@.len() <= 65535,
            forall|j: int| 0 <= j < i ==> short_text(#[trigger] texts_of(l@)[j]),
        decreases l@.len() - i,
    {
        assert(texts_of(l@)[i as int] == l@[i as int]@);
        if l[i].as_str().as_bytes().len() > 65535 {
            assert(!short_text(texts_of(l@)[i as int]));
            return false;
        }
        i = i + 1;
    }
    assert(texts_of(l@).len() == l@.len());
    true
}

fn map_fits(m: &Vec<(String, String)>) -> (r: bool)
    ensures
        r == short_map(row_view(m@)),
{
    if m.len() > 65535 {
        return false;
    }
    let mut i: usize = 0;
    while i < m.len()
        invariant
            i <= m@.len(),
            m@.len() <= 65535,
            forall|j: int| 0 <= j < i ==> short_text((#[trigger] row_view(m@)[j]).0) && short_text(row_view(m@)[j].1),
        decreases m@.len() - i,
    {
        assert(row_view(m@)[i as int] == (m@[i as int].0@, m@[i as int].1@));
        if m[i].0.as_str().as_bytes().len() > 65535 || m[i].1.as_str().as_bytes().len() > 65535 {
            return false;
        }
        i = i + 1;
    }
    assert(row_view(m@).len() == m@.len());
    true
}

fn partition_fits(p: &Partition) -> (r: bool)
    ensures
        r == (all_short_texts(texts_of(p.clustering_key_columns@)) && short_rows(p.view_rows())),
{
    if !texts_fit(&p.clustering_key_columns) || p.rows.len() > 65535 {
        return false;
    }
    let mut i: usize = 0;
    while i < p.rows.len()
        invariant
            i <= p.rows@.len(),
            p.rows@.len() <= 65535,
            forall|j: int| 0 <= j < i ==> all_short_texts((#[trigger] p.view_rows()[j]).0) && short_map(p.view_rows()[j].1),
        decreases p.rows@.len() - i,
    {
        assert(p.view_rows()[i as int] == (texts_of(p.rows@[i as int].0@), row_view(p.rows@[i as int].1@)));
        if !texts_fit(&p.rows[i].0) || !map_fits(&p.rows[i].1) {
            return false;
        }
        i = i + 1;
    }
    assert(p.view_rows().len() == p.rows@.len());
    true
}

/// Whether the table's binary form can hold it.
pub fn fits(t: &Table) -> (r: bool)
    ensures
        r == table_fits(table_view(*t)),
{
    reveal(table_fits);
    let ghost tv = table_view(*t);
    if t.table_name.as_str().as_bytes().len() > 65535 || !texts_fit(&t.partition_key_columns) || !texts_fit(&t.clustering_key_columns)
        || !map_fits(&t.columns) || t.partitions.len() > 65535 {
        return false;
    }
    let mut i: usize = 0;
    while i < t.partitions.len()
        invariant
            i <= t.partitions@.len(),
            tv == table_view(*t),
            t.partitions@.len() <= 65535,
            forall|j: int| 0 <= j < i ==> all_short_texts((#[trigger] tv.parts[j]).0) && all_short_texts(tv.parts[j].1.0) && short_rows(tv.parts[j].1.1),
        decreases t.partitions@.len() - i,
    {
        assert(tv.parts[i as int] == (texts_of(t.partitions@[i as int].0@), partition_view(t.partitions@[i as int].1)));
        if !texts_fit(&t.partitions[i].0) || !partition_fits(&t.partitions[i].1) {
            proof {
                reveal(table_fits);
                assert(!(all_short_texts(tv.parts[i as int].0) && all_short_texts(tv.parts[i as int].1.0) && short_rows(tv.parts[i as int].1.1)));
            }
            return false;
        }
        i = i + 1;
    }
    assert(tv.parts.len() == t.partitions@.len());
    proof {
        reveal(table_fits);
    }
    true
}

/// A table held as encrypted bytes.
#[derive(Debug, Clone)]
pub struct EncryptedTable {
    pub table: Vec<u8>,
    pub key: u64,
}

impl EncryptedTable {
    /// The table the bytes hold.
    pub open spec fn content(&self) -> TableView {
        parse_table(decrypted(self.table@, self.key))->Some_0.0
    }

    pub open spec fn wf(&self) -> bool {
        &&& parse_table(decrypted(self.table@, self.key)) is Some
        &&& view_wf(self.content())
        &&& table_fits(self.content())
    }

    fn seal(table: &Table, key: u64) -> (r: Self)
        requires
            table.wf(),
            table_fits(table_view(*table)),
        ensures
            r.wf(),
            r.content() == table_view(*table),
            r.key == key,
    {
        let bytes = table.to_bytes();
        proof {
            lemma_encrypt_round_trip(bytes@, key);
            lemma_table_round_trip(table_view(*table), Seq::empty());
            assert(bytes@ + Seq::<u8>::empty() =~= bytes@);
            lemma_wf_by_view(*table);
        }
        EncryptedTable { table: encrypt(bytes.as_slice(), key), key }
    }

    /// Encrypts the table under the key.
    pub fn new(table: Table, key: u64) -> (r: Self)
        requires
            table.wf(),
            table_fits(table_view(table)),
        ensures
            r.wf(),
            r.content() == table_view(table),
    {
        Self::seal(&table, key)
    }

    /// The table, decrypted.
    pub fn get_table(&self) -> (r: Table)
        requires
            self.wf(),
        ensures
            table_view(r) == self.content(),
            r.wf(),
    {
        let bytes = decrypt(self.table.as_slice(), self.key);
        match Table::from_bytes(bytes.as_slice()) {
            Ok(t) => {
                proof {
                    lemma_wf_by_view(t);
                }
                t
            },
            Err(_) => {
                proof {
                    assert(false);
                }
                Table::new(String::new(), Vec::new(), Vec::new(), Vec::new())
            },
        }
    }

    fn store(&mut self, table: &Table) -> (r: Result<(), TableError>)
        requires
            old(self).wf(),
            table.wf(),
        ensures
            final(self).wf(),
            final(self).key == old(self).key,
            r is Ok <==> table_fits(table_view(*table)),
            r is Err ==> r == Err::<(), TableError>(TableError::TooLarge),
            r is Ok ==> final(self).content() == table_view(*table),
            r is Err ==> final(self).content() == old(self).content() && final(self).table@ == old(self).table@,
    {
        if !fits(table) {
            return Err(TableError::TooLarge);
        }
        *self = Self::seal(table, self.key);
        Ok(())
    }

    /// Inserts a row, as `Table::insert` does; a table that would outgrow its binary form
    /// is left as it was.
    pub fn insert(&mut self, values: Vec<(String, String)>) -> (r: Result<(), TableError>)
        requires
            old(self).wf(),
        ensures
            final(self).wf(),
            final(self).key == old(self).key,
            insert_outcome(*old(self), *final(self), row_view(values@), r),
    {
        reveal(insert_outcome);
        let mut t = self.get_table();
        proof { lemma_view_parts(t); lemma_view_rebuild(t); }
        let res = t.insert(values);
        match res {
            Ok(()) => {
                proof { lemma_view_parts(t); lemma_view_rebuild(t); }
                self.store(&t)
            },
            Err(e) => Err(e),
        }
    }

    /// Sets values in the rows that meet the predicate, as `Table::update` does; a table
    /// that would outgrow its binary form is left as it was.
    pub fn update(&mut self, values: Vec<(String, String)>, condition: &Expression) -> (r: Result<(), TableError>)
        requires
            old(self).wf(),
        ensures
            final(self).wf(),
            final(self).key == old(self).key,
            update_outcome(*old(self), *final(self), row_view(values@), *condition, r),
    {
        reveal(update_outcome);
        let mut t = self.get_table();
        proof { lemma_view_parts(t); lemma_view_rebuild(t); }
        match t.update(values, condition) {
            Ok(()) => {
                proof { lemma_view_parts(t); lemma_view_rebuild(t); }
                let ghost p = parts_of_view(table_view(t));
                let s = self.store(&t);
                proof {
                    if s is Err {
                        assert(!table_fits(rebuild(old(self).content(), p)));
                    }
                }
                s
            },
            Err(e) => {
                if let TableError::TooLarge = e {
                    proof { assert(false); }
                }
                Err(e)
            },
        }
    }

    /// Removes the rows that meet the predicate, as `Table::delete` does.
    pub fn delete(&mut self, condition: &Expression) -> (r: Result<(), TableError>)
        requires
            old(self).wf(),
        ensures
            final(self).wf(),
            final(self).key == old(self).key,
            delete_outcome(*old(self), *final(self), *condition, r),
    {
        reveal(delete_outcome);
        let mut t = self.get_table();
        proof { lemma_view_parts(t); lemma_view_rebuild(t); }
        let ghost before = parts_of_view(table_view(t));
        match t.delete(condition) {
            Ok(()) => {
                proof {
                    lemma_view_parts(t);
                    lemma_view_rebuild(t);
                    assert(parts_of_view(table_view(t)) =~= parts_without(before, *condition));
                }
                self.store(&t)
            },
            Err(e) => Err(e),
        }
    }

    /// Removes the partition with the given keys.
    pub fn delete_partition(&mut self, partition_keys: &Vec<String>) -> (r: Result<(), TableError>)
        requires
            old(self).wf(),
        ensures
            final(self).wf(),
            final(self).key == old(self).key,
            match part_index(parts_of_view(old(self).content()), texts_of(partition_keys@)) {
                Some(i) => r is Ok && final(self).content() == rebuild(old(self).content(), parts_of_view(old(self).content()).remove(i)),
                None => r == Err::<(), TableError>(TableError::PartitionNotFound) && final(self).content() == old(self).content(),
            },
    {
        let mut t = self.get_table();
        proof { lemma_view_parts(t); lemma_view_rebuild(t); }
        let ghost c = table_view(t);
        match t.delete_partition(partition_keys) {
            Ok(()) => {
                proof {
                    lemma_view_parts(t);
                    lemma_view_rebuild(t);
                    let i = part_index(parts_of_view(c), texts_of(partition_keys@))->Some_0;
                    lemma_fits_remove(c, i);
                }
                self.store(&t)
            },
            Err(e) => Err(e),
        }
    }

    /// The partition-key columns.
    pub fn get_partition_key_columns(&self) -> (r: Vec<String>)
        requires
            self.wf(),
        ensures
            texts_of(r@) == self.content().pk,
    {
        let t = self.get_table();
        t.get_partition_key_columns()
    }

    /// The keyspace of the table: its name up to the first `.`.
    pub fn get_keyspace_name(&self) -> (r: String)
        requires
            self.wf(),
        ensures
            r@ == before_dot(self.content().name),
    {
        let t = self.get_table();
        let cs = crate::text::chars_vec(t.table_name.as_str());
        let mut out: Vec<char> = Vec::new();
        let mut i: usize = 0;
        while i < cs.len() && cs[i] != '.'
            invariant
                i <= cs@.len(),
                out@ == cs@.take(i as int),
                forall|j: int| 0 <= j < i ==> cs@[j] != '.',
            decreases cs@.len() - i,
        {
            out.push(cs[i]);
            i = i + 1;
            assert(out@ =~= cs@.take(i as int));
        }
        proof {
            lemma_before_dot(cs@, i as int);
        }
        crate::text::string_of_chars(&out)
    }

    /// The rows of the partition with the given keys, or none.
    pub fn get_rows_from_partition(&self, partition_keys: &Vec<String>) -> (r: Vec<Vec<(String, String)>>)
        requires
            self.wf(),
        ensures
            match part_index(parts_of_view(self.content()), texts_of(partition_keys@)) {
                Some(i) => rows_views(r@) == row_values(parts_of_view(self.content())[i].1),
                None => r@.len() == 0,
            },
    {
        let t = self.get_table();
        proof { lemma_view_parts(t); }
        t.get_rows_from_partition(partition_keys)
    }

    /// Whether some row equals the given one.
    pub fn contains_row(&self, row: &Vec<(String, String)>) -> (r: bool)
        requires
            self.wf(),
        ensures
            r == all_rows(parts_of_view(self.content())).contains(row_view(row@)),
    {
        let t = self.get_table();
        proof { lemma_view_parts(t); }
        t.contains_row(row)
    }

    /// A copy of the partitions, with their keys.
    pub fn get_partitions(&self) -> (r: Vec<(Vec<String>, Partition)>)
        requires
            self.wf(),
        ensures
            crate::table::parts_view(r@) == parts_of_view(self.content()),
    {
        let t = self.get_table();
        proof { lemma_view_parts(t); }
        t.get_partitions()
    }
}

/// What `insert` of `row` does to `old`, giving `new` and `r`.
#[verifier::opaque]
pub open spec fn insert_outcome(old: EncryptedTable, new: EncryptedTable, row: RowView, r: Result<(), TableError>) -> bool {
    &&& new.wf()
    &&& new.key == old.key
    &&& ({
                let c = old.content();

                let accepted = known_columns(row, c.columns) && key_values(row, c.pk) is Some && key_values(row, c.ck) is Some;
                let after = rebuild(c, inserted(parts_of_view(c), key_values(row, c.pk)->Some_0, key_values(row, c.ck)->Some_0, row));
                &&& (r is Ok <==> accepted && table_fits(after))
                &&& (r is Ok ==> new.content() == after)
                &&& (accepted && !table_fits(after) ==> r == Err::<(), TableError>(TableError::TooLarge))
                &&& (!known_columns(row, c.columns) ==> (r matches Err(TableError::UnknownColumn(_))))
                &&& (known_columns(row, c.columns) && key_values(row, c.pk) is None ==> (r matches Err(TableError::MissingPartitionKey(_))))
                &&& (known_columns(row, c.columns) && key_values(row, c.pk) is Some && key_values(row, c.ck) is None
                    ==> (r matches Err(TableError::MissingClusteringKey(_))))
            })
    &&& (r is Err ==> new.content() == old.content())
}

/// What `update` of `values` where `cond` holds does to `old`, giving `new` and `r`.
#[verifier::opaque]
pub open spec fn update_outcome(old: EncryptedTable, new: EncryptedTable, values: RowView, cond: Expression, r: Result<(), TableError>) -> bool {
    &&& new.wf()
    &&& new.key == old.key
    &&& ({
                let c = old.content();
                let vals = values;
                let accepted = known_columns(vals, c.columns) && !sets_empty_key(vals, c.pk) && !sets_empty_key(vals, c.ck)
                    && all_evaluable(parts_of_view(c), cond);
                &&& (r is Ok ==> accepted && new.content() == rebuild(c, parts_of_view(new.content()))
                    && updated_parts(parts_of_view(new.content()), parts_of_view(c), vals, cond))
                &&& (accepted ==> r is Ok || r == Err::<(), TableError>(TableError::TooLarge))
                &&& (r == Err::<(), TableError>(TableError::TooLarge) ==> accepted && exists|p: Seq<(KeyView, Seq<(KeyView, RowView)>)>|
                    updated_parts(p, parts_of_view(c), vals, cond) && !table_fits(#[trigger] rebuild(c, p)))
                &&& (!accepted ==> r is Err && r != Err::<(), TableError>(TableError::TooLarge))
            })
    &&& (r is Err ==> new.content() == old.content())
}

/// What `delete` where `cond` holds does to `old`, giving `new` and `r`.
#[verifier::opaque]
pub open spec fn delete_outcome(old: EncryptedTable, new: EncryptedTable, cond: Expression, r: Result<(), TableError>) -> bool {
    &&& new.wf()
    &&& new.key == old.key
    &&& ({
                let c = old.content();
                let after = rebuild(c, parts_without(parts_of_view(c), cond));
                &&& (r is Ok <==> all_evaluable(parts_of_view(c), cond) && table_fits(after))
                &&& (r is Ok ==> new.content() == after)
                &&& (!all_evaluable(parts_of_view(c), cond) ==> r == Err::<(), TableError>(TableError::InvalidPredicate))
            })
    &&& (r is Err ==> new.content() == old.content())
}

/// The contents `tv` with its partitions replaced by `parts`, each under the table's
/// clustering-key columns.
pub open spec fn rebuild(tv: TableView, parts: Seq<(KeyView, Seq<(KeyView, crate::table::RowView)>)>) -> TableView {
    TableView {
        name: tv.name,
        pk: tv.pk,
        ck: tv.ck,
        columns: tv.columns,
        parts: parts.map_values(|p: (KeyView, Seq<(KeyView, crate::table::RowView)>)| (p.0, (tv.ck, p.1))),
    }
}

/// The partitions with the rows the predicate selects removed.
pub open spec fn parts_without(parts: Seq<(KeyView, Seq<(KeyView, crate::table::RowView)>)>, cond: Expression) -> Seq<(KeyView, Seq<(KeyView, crate::table::RowView)>)> {
    parts.map_values(|p: (KeyView, Seq<(KeyView, crate::table::RowView)>)| (p.0, crate::table::rows_without(p.1, cond)))
}

/// `new` is `old` with `values` set in the rows that meet the predicate.
pub open spec fn updated_parts(
    new: Seq<(KeyView, Seq<(KeyView, crate::table::RowView)>)>,
    old: Seq<(KeyView, Seq<(KeyView, crate::table::RowView)>)>,
    values: crate::table::RowView,
    cond: Expression,
) -> bool {
    crate::table::same_keys(new, old) && forall|i: int| 0 <= i < new.len() ==> crate::table::rows_updated(#[trigger] new[i].1, old[i].1, values, cond)
}

/// A well-formed table's contents are rebuilt from its partitions.
pub proof fn lemma_view_rebuild(t: Table)
    requires
        t.wf(),
    ensures
        table_view(t) == rebuild(table_view(t), parts_of_view(table_view(t))),
{
    let tv = table_view(t);
    assert forall|i: int| 0 <= i < tv.parts.len() implies #[trigger] tv.parts[i] == rebuild(tv, parts_of_view(tv)).parts[i] by {
        assert(tv.parts[i] == (texts_of(t.partitions@[i].0@), partition_view(t.partitions@[i].1)));
        assert(t.partitions@[i].1.wf());
    }
    assert(tv.parts =~= rebuild(tv, parts_of_view(tv)).parts);
}

proof fn lemma_fits_remove(tv: TableView, i: int)
    requires
        table_fits(tv),
        0 <= i < tv.parts.len(),
        tv == rebuild(tv, parts_of_view(tv)),
    ensures
        table_fits(rebuild(tv, parts_of_view(tv).remove(i))),
{
    reveal(table_fits);
    let u = rebuild(tv, parts_of_view(tv).remove(i));
    assert forall|j: int| 0 <= j < u.parts.len() implies all_short_texts((#[trigger] u.parts[j]).0) && all_short_texts(u.parts[j].1.0)
        && short_rows(u.parts[j].1.1) by {
        let j2 = if j < i { j } else { j + 1 };
        assert(u.parts[j] == tv.parts[j2]);
    }
}

/// The partitions of a table's contents, without their clustering-key columns.
pub open spec fn parts_of_view(tv: TableView) -> Seq<(KeyView, Seq<(KeyView, crate::table::RowView)>)> {
    tv.parts.map_values(|p: crate::serde_table::PartView| (p.0, p.1.1))
}

pub proof fn lemma_view_parts(t: Table)
    ensures
        t.view_parts() == parts_of_view(table_view(t)),
        t.pk_cols() == table_view(t).pk,
        t.ck_cols() == table_view(t).ck,
{
    assert(t.view_parts() =~= parts_of_view(table_view(t)));
}

/// A text up to its first `.`.
pub open spec fn before_dot(s: Seq<char>) -> Seq<char>
    decreases s.len(),
{
    if s.len() == 0 {
        s
    } else if s[0] == '.' {
        Seq::empty()
    } else {
        seq![s[0]] + before_dot(s.drop_first())
    }
}

/// The text up to the first `.` is the prefix before that `.`.
pub proof fn lemma_before_dot_public(s: Seq<char>, i: int)
    requires
        0 <= i <= s.len(),
        forall|j: int| 0 <= j < i ==> s[j] != '.',
        i == s.len() || s[i] == '.',
    ensures
        before_dot(s) == s.take(i),
{
    lemma_before_dot(s, i);
}

proof fn lemma_before_dot(s: Seq<char>, i: int)
    requires
        0 <= i <= s.len(),
        forall|j: int| 0 <= j < i ==> s[j] != '.',
        i == s.len() || s[i] == '.',
    ensures
        before_dot(s) == s.take(i),
    decreases i,
{
    if i == 0 {
        if s.len() > 0 {
        }
        assert(s.take(0) =~= Seq::<char>::empty());
    } else {
        let r = s.drop_first();
        assert forall|j: int| 0 <= j < i - 1 implies r[j] != '.' by {
            assert(r[j] == s[j + 1]);
        }
        lemma_before_dot(r, i - 1);
        assert(s.take(i) =~= seq![s[0]] + r.take(i - 1));
    }
}

} // verus!
