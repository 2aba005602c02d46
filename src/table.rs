//! A partitioned table: partitions keyed by partition-key values, rows inside a partition
//! ordered by clustering-key values.
use vstd::prelude::*;
use crate::expression::{eval, evaluate_expression, row_get, row_lookup, row_view, Expression};
use crate::text::{clone_texts, str_eq, texts_eq, texts_less, texts_lt, texts_of};

verus! {

pub type RowView = Seq<(Seq<char>, Seq<char>)>;

pub type KeyView = Seq<Seq<char>>;

/// Why a table refused a change.
#[derive(Debug, Clone, PartialEq)]
pub enum TableError {
    /// The row names a column that the table lacks.
    UnknownColumn(String),
    /// The row lacks a partition-key column.
    MissingPartitionKey(String),
    /// The row lacks a clustering-key column.
    MissingClusteringKey(String),
    /// The predicate names a missing column or an unknown operator.
    InvalidPredicate,
    /// No partition has the given keys.
    PartitionNotFound,
    /// A text or a count outgrows the `[short]` of the table's binary form.
    TooLarge,
    /// No table has that name.
    TableNotFound,
    /// A change would leave a key column empty.
    EmptyKey,
}

/// The values of `cols` in the row, in order, if the row has them all and none is empty.
pub open spec fn key_values(row: RowView, cols: KeyView) -> Option<KeyView>
    decreases cols.len(),
{
    if cols.len() == 0 {
        Some(Seq::empty())
    } else {
        match (key_values(row, cols.drop_last()), row_lookup(row, cols.last())) {
            (Some(prev), Some(v)) => if v.len() > 0 {
                Some(prev.push(v))
            } else {
                None
            },
            _ => None,
        }
    }
}

/// Keys in strictly increasing order.
pub open spec fn sorted_keys<R>(rows: Seq<(KeyView, R)>) -> bool {
    forall|i: int, j: int| 0 <= i < j < rows.len() ==> texts_lt(#[trigger] rows[i].0, #[trigger] rows[j].0)
}

/// Rows of a partition with `key` set to `row`: replaced where the key is there, else
/// inserted at its place in key order.
pub open spec fn upsert(rows: Seq<(KeyView, RowView)>, key: KeyView, row: RowView) -> Seq<(KeyView, RowView)>
    decreases rows.len(),
{
    if rows.len() == 0 {
        seq![(key, row)]
    } else if rows[0].0 == key {
        seq![(key, row)] + rows.drop_first()
    } else if texts_lt(key, rows[0].0) {
        seq![(key, row)] + rows
    } else {
        seq![rows[0]] + upsert(rows.drop_first(), key, row)
    }
}

pub open spec fn rows_view(rows: Seq<(Vec<String>, Vec<(String, String)>)>) -> Seq<(KeyView, RowView)> {
    rows.map_values(|p: (Vec<String>, Vec<(String, String)>)| (texts_of(p.0@), row_view(p.1@)))
}

/// Rows that hold every column of `cols`.
pub open spec fn rows_have(rows: Seq<(KeyView, RowView)>, cols: KeyView) -> bool {
    forall|i: int| 0 <= i < rows.len() ==> (#[trigger] key_values(rows[i].1, cols)) is Some
}

/// The rows of one partition.
pub struct Partition {
    pub clustering_key_columns: Vec<String>,
    pub rows: Vec<(Vec<String>, Vec<(String, String)>)>,
}

impl Partition {
    pub open spec fn view_rows(&self) -> Seq<(KeyView, RowView)> {
        rows_view(self.rows@)
    }

    pub open spec fn wf(&self) -> bool {
        &&& sorted_keys(self.view_rows())
        &&& rows_have(self.view_rows(), texts_of(self.clustering_key_columns@))
    }

    pub fn new(clustering_key_columns: Vec<String>) -> (r: Self)
        ensures
            r.wf(),
            r.clustering_key_columns@ == clustering_key_columns@,
            r.rows@.len() == 0,
    {
        let r = Partition { clustering_key_columns, rows: Vec::new() };
        assert(r.view_rows() =~= Seq::empty());
        r
    }

    /// Inserts the row under its clustering-key values, replacing a row with the same values.
    pub fn insert(&mut self, row: Vec<(String, String)>) -> (r: Result<(), TableError>)
        requires
            old(self).wf(),
        ensures
            final(self).wf(),
            final(self).clustering_key_columns == old(self).clustering_key_columns,
            match key_values(row_view(row@), texts_of(old(self).clustering_key_columns@)) {
                Some(k) => r is Ok && final(self).view_rows() == upsert(old(self).view_rows(), k, row_view(row@)),
                None => r matches Err(TableError::MissingClusteringKey(_)) && final(self).rows@ == old(self).rows@,
            },
    {
        let keys = match values_of(&row, &self.clustering_key_columns) {
            Ok(k) => k,
            Err(missing) => return Err(TableError::MissingClusteringKey(missing)),
        };
        let ghost kv = texts_of(keys@);
        let ghost rv = row_view(row@);
        let ghost old_rows = self.view_rows();
        let mut i: usize = 0;
        while i < self.rows.len()
            invariant
                i <= self.rows@.len(),
                self.view_rows() == old_rows,
                self.wf(),
                kv == texts_of(keys@),
                rv == row_view(row@),
                forall|j: int| 0 <= j < i ==> texts_lt((#[trigger] old_rows[j]).0, kv),
            ensures
                i <= self.rows@.len(),
                self.view_rows() == old_rows,
                self.wf(),
                kv == texts_of(keys@),
                rv == row_view(row@),
                forall|j: int| 0 <= j < i ==> texts_lt((#[trigger] old_rows[j]).0, kv),
                i < self.rows@.len() ==> !texts_lt(old_rows[i as int].0, kv),
            decreases self.rows@.len() - i,
        {
            assert(rows_view(self.rows@)[i as int] == (
                texts_of(self.rows@[i as int].0@),
                row_view(self.rows@[i as int].1@),
            ));
            let less = texts_less(&self.rows[i].0, &keys);
            if !less {
                break;
            }
            i = i + 1;
        }
        proof {
            lemma_upsert_split(old_rows, kv, rv, i as int);
        }
        let same = if i < self.rows.len() {
            texts_eq(&self.rows[i].0, &keys)
        } else {
            false
        };
        proof {
            if i < self.rows@.len() {
                assert(old_rows[i as int] == (
                    texts_of(self.rows@[i as int].0@),
                    row_view(self.rows@[i as int].1@),
                ));
            }
        }
        if same {
            self.rows.set(i, (keys, row));
            proof {
                assert(self.view_rows() =~= old_rows.take(i as int) + upsert(old_rows.skip(i as int), kv, rv)) by {
                    assert(old_rows.skip(i as int)[0].0 == kv);
                }
            }
        } else {
            self.rows.insert(i, (keys, row));
            proof {
                if i < old_rows.len() {
                    assert(old_rows.skip(i as int)[0].0 != kv);
                    crate::text::lemma_texts_lt_total(kv, old_rows[i as int].0);
                }
                assert(self.view_rows() =~= old_rows.take(i as int) + upsert(old_rows.skip(i as int), kv, rv));
            }
        }
        proof {
            lemma_upsert_sorted(old_rows, kv, rv);
            lemma_upsert_has(old_rows, kv, rv, texts_of(self.clustering_key_columns@));
        }
        Ok(())
    }

    /// The rows of the partition, in key order.
    pub fn get_rows(&self) -> (r: &Vec<(Vec<String>, Vec<(String, String)>)>)
        ensures
            r@ == self.rows@,
    {
        &self.rows
    }

    /// The rows of the partition, in key order, without their keys.
    pub fn get_vector_of_rows(&self) -> (r: Vec<Vec<(String, String)>>)
        ensures
            r@.len() == self.rows@.len(),
            forall|i: int| 0 <= i < r@.len() ==> row_view(#[trigger] r@[i]@) == self.view_rows()[i].1,
    {
        let mut out: Vec<Vec<(String, String)>> = Vec::new();
        let mut i: usize = 0;
        while i < self.rows.len()
            invariant
                i <= self.rows@.len(),
                out@.len() == i,
                forall|j: int| 0 <= j < i ==> row_view(#[trigger] out@[j]@) == self.view_rows()[j].1,
            decreases self.rows@.len() - i,
        {
            out.push(crate::text::clone_pairs(&self.rows[i].1));
            i = i + 1;
        }
        out
    }
}

/// The values of `cols` in the row, or the first column it lacks or leaves empty.
pub fn values_of(row: &Vec<(String, String)>, cols: &Vec<String>) -> (r: Result<Vec<String>, String>)
    ensures
        match r {
            Ok(k) => key_values(row_view(row@), texts_of(cols@)) == Some(texts_of(k@)),
            Err(_) => key_values(row_view(row@), texts_of(cols@)) is None,
        },
{
    let mut out: Vec<String> = Vec::new();
    let mut i: usize = 0;
    while i < cols.len()
        invariant
            i <= cols@.len(),
            out@.len() == i,
            key_values(row_view(row@), texts_of(cols@).take(i as int)) == Some(texts_of(out@)),
        decreases cols@.len() - i,
    {
        assert(texts_of(cols@).take(i + 1).drop_last() =~= texts_of(cols@).take(i as int));
        match row_get(row, cols[i].as_str()) {
            Some(v) => {
                if v.as_str().is_empty() {
                    proof {
                        lemma_key_values_prefix(row_view(row@), texts_of(cols@), i + 1);
                    }
                    return Err(cols[i].clone());
                }
                let ghost prev = out@;
                out.push(v);
                assert(texts_of(out@) =~= texts_of(prev).push(v@));
            },
            None => {
                proof {
                    lemma_key_values_prefix(row_view(row@), texts_of(cols@), i + 1);
                }
                return Err(cols[i].clone());
            },
        }
        i = i + 1;
    }
    assert(texts_of(cols@).take(i as int) =~= texts_of(cols@));
    Ok(out)
}

/// A row lacking a prefix's column lacks it in the whole list.
pub proof fn lemma_key_values_prefix(row: RowView, cols: KeyView, k: int)
    requires
        0 <= k <= cols.len(),
        key_values(row, cols.take(k)) is None,
    ensures
        key_values(row, cols) is None,
    decreases cols.len() - k,
{
    if k < cols.len() {
        assert(cols.take(k + 1).drop_last() =~= cols.take(k));
        lemma_key_values_prefix(row, cols, k + 1);
    } else {
        assert(cols.take(k) =~= cols);
    }
}

proof fn lemma_upsert_split(rows: Seq<(KeyView, RowView)>, k: KeyView, r: RowView, i: int)
    requires
        0 <= i <= rows.len(),
        forall|j: int| 0 <= j < i ==> texts_lt((#[trigger] rows[j]).0, k),
    ensures
        upsert(rows, k, r) == rows.take(i) + upsert(rows.skip(i), k, r),
    decreases i,
{
    if i == 0 {
        assert(rows.skip(0) =~= rows);
        assert(rows.take(0) + upsert(rows.skip(0), k, r) =~= upsert(rows, k, r));
    } else {
        assert(0 <= 0 < i);
        let first = rows[0].0;
        assert(texts_lt(rows[0].0, k));
        crate::text::lemma_texts_lt_asymmetric(first, k);
        let rest = rows.drop_first();
        assert forall|j: int| 0 <= j < i - 1 implies texts_lt((#[trigger] rest[j]).0, k) by {
            assert(rest[j] == rows[j + 1]);
        }
        lemma_upsert_split(rest, k, r, i - 1);
        assert(rest.skip(i - 1) =~= rows.skip(i));
        assert(rows.take(i) =~= seq![rows[0]] + rest.take(i - 1));
    }
}

proof fn lemma_upsert_sorted(rows: Seq<(KeyView, RowView)>, k: KeyView, r: RowView)
    requires
        sorted_keys(rows),
    ensures
        sorted_keys(upsert(rows, k, r)),
        forall|i: int| 0 <= i < upsert(rows, k, r).len() ==> (#[trigger] upsert(rows, k, r)[i].0 == k
            || rows.contains(upsert(rows, k, r)[i])),
    decreases rows.len(),
{
    let u = upsert(rows, k, r);
    if rows.len() == 0 {
    } else if rows[0].0 == k {
        assert forall|i: int, j: int| 0 <= i < j < u.len() implies texts_lt(#[trigger] u[i].0, #[trigger] u[j].0) by {
            assert(u[j] == rows[j]);
            if i > 0 {
                assert(u[i] == rows[i]);
            }
        }
        assert forall|i: int| 0 <= i < u.len() implies (#[trigger] u[i].0 == k || rows.contains(u[i])) by {
            if i > 0 {
                assert(u[i] == rows[i]);
            }
        }
    } else if texts_lt(k, rows[0].0) {
        assert forall|i: int, j: int| 0 <= i < j < u.len() implies texts_lt(#[trigger] u[i].0, #[trigger] u[j].0) by {
            assert(u[j] == rows[j - 1]);
            if i > 0 {
                assert(u[i] == rows[i - 1]);
            } else if j - 1 > 0 {
                crate::text::lemma_texts_lt_transitive(k, rows[0].0, rows[j - 1].0);
            }
        }
        assert forall|i: int| 0 <= i < u.len() implies (#[trigger] u[i].0 == k || rows.contains(u[i])) by {
            if i > 0 {
                assert(u[i] == rows[i - 1]);
            }
        }
    } else {
        let rest = rows.drop_first();
        assert(sorted_keys(rest)) by {
            assert forall|i: int, j: int| 0 <= i < j < rest.len() implies texts_lt(#[trigger] rest[i].0, #[trigger] rest[j].0) by {
                assert(rest[i] == rows[i + 1] && rest[j] == rows[j + 1]);
            }
        }
        lemma_upsert_sorted(rest, k, r);
        let ur = upsert(rest, k, r);
        crate::text::lemma_texts_lt_total(k, rows[0].0);
        assert forall|i: int, j: int| 0 <= i < j < u.len() implies texts_lt(#[trigger] u[i].0, #[trigger] u[j].0) by {
            assert(u[j] == ur[j - 1]);
            if i > 0 {
                assert(u[i] == ur[i - 1]);
            } else {
                if ur[j - 1].0 == k {
                } else {
                    let x = choose|x: int| 0 <= x < rest.len() && rest[x] == ur[j - 1];
                    assert(rest[x] == rows[x + 1]);
                }
            }
        }
        assert forall|i: int| 0 <= i < u.len() implies (#[trigger] u[i].0 == k || rows.contains(u[i])) by {
            if i > 0 {
                assert(u[i] == ur[i - 1]);
                if ur[i - 1].0 != k {
                    let x = choose|x: int| 0 <= x < rest.len() && rest[x] == ur[i - 1];
                    assert(rest[x] == rows[x + 1]);
                }
            } else {
                assert(rows[0] == u[0]);
            }
        }
    }
}

proof fn lemma_upsert_has(rows: Seq<(KeyView, RowView)>, k: KeyView, r: RowView, cols: KeyView)
    requires
        rows_have(rows, cols),
        key_values(r, cols) is Some,
        sorted_keys(rows),
    ensures
        rows_have(upsert(rows, k, r), cols),
    decreases rows.len(),
{
    lemma_upsert_sorted(rows, k, r);
    let u = upsert(rows, k, r);
    assert forall|i: int| 0 <= i < u.len() implies (#[trigger] key_values(u[i].1, cols)) is Some by {
        lemma_upsert_members(rows, k, r, i);
        if u[i] != (k, r) {
            let x = choose|x: int| 0 <= x < rows.len() && rows[x] == u[i];
            assert(key_values(rows[x].1, cols) is Some);
        }
    }
}

proof fn lemma_upsert_members(rows: Seq<(KeyView, RowView)>, k: KeyView, r: RowView, i: int)
    requires
        0 <= i < upsert(rows, k, r).len(),
    ensures
        upsert(rows, k, r)[i] == (k, r) || rows.contains(upsert(rows, k, r)[i]),
    decreases rows.len(),
{
    let u = upsert(rows, k, r);
    if rows.len() == 0 {
    } else if rows[0].0 == k {
        if i > 0 {
            assert(u[i] == rows[i]);
        }
    } else if texts_lt(k, rows[0].0) {
        if i > 0 {
            assert(u[i] == rows[i - 1]);
        }
    } else {
        if i > 0 {
            let rest = rows.drop_first();
            lemma_upsert_members(rest, k, r, i - 1);
            if u[i] != (k, r) {
                let x = choose|x: int| 0 <= x < rest.len() && rest[x] == u[i];
                assert(rows[x + 1] == u[i]);
            }
        } else {
            assert(rows[0] == u[0]);
        }
    }
}


pub open spec fn parts_view(parts: Seq<(Vec<String>, Partition)>) -> Seq<(KeyView, Seq<(KeyView, RowView)>)> {
    parts.map_values(|p: (Vec<String>, Partition)| (texts_of(p.0@), p.1.view_rows()))
}

/// Every row of every partition, partition by partition, each in key order.
pub open spec fn all_rows(parts: Seq<(KeyView, Seq<(KeyView, RowView)>)>) -> Seq<RowView>
    decreases parts.len(),
{
    if parts.len() == 0 {
        Seq::empty()
    } else {
        all_rows(parts.drop_last()) + parts.last().1.map_values(|kr: (KeyView, RowView)| kr.1)
    }
}

/// Whether the row names only columns of the table.
pub open spec fn known_columns(row: RowView, columns: Seq<(Seq<char>, Seq<char>)>) -> bool {
    forall|i: int| 0 <= i < row.len() ==> column_known(columns, (#[trigger] row[i]).0)
}

/// Whether the schema has a column of that name.
pub open spec fn column_known(columns: Seq<(Seq<char>, Seq<char>)>, name: Seq<char>) -> bool {
    exists|j: int| 0 <= j < columns.len() && (#[trigger] columns[j]).0 == name
}

/// The index of the partition with keys `k`, if any.
pub open spec fn part_index(parts: Seq<(KeyView, Seq<(KeyView, RowView)>)>, k: KeyView) -> Option<int> {
    if exists|i: int| 0 <= i < parts.len() && (#[trigger] parts[i]).0 == k {
        Some(choose|i: int| 0 <= i < parts.len() && (#[trigger] parts[i]).0 == k)
    } else {
        None
    }
}

/// The table's contents after inserting a row with partition keys `pk`, clustering keys `ck`.
pub open spec fn inserted(parts: Seq<(KeyView, Seq<(KeyView, RowView)>)>, pk: KeyView, ck: KeyView, row: RowView) -> Seq<(KeyView, Seq<(KeyView, RowView)>)> {
    match part_index(parts, pk) {
        Some(i) => parts.update(i, (pk, upsert(parts[i].1, ck, row))),
        None => parts.push((pk, seq![(ck, row)])),
    }
}

/// A table: its schema and its partitions.
pub struct Table {
    pub table_name: String,
    pub partition_key_columns: Vec<String>,
    pub clustering_key_columns: Vec<String>,
    pub columns: Vec<(String, String)>,
    pub partitions: Vec<(Vec<String>, Partition)>,
}

impl Table {
    pub open spec fn view_parts(&self) -> Seq<(KeyView, Seq<(KeyView, RowView)>)> {
        parts_view(self.partitions@)
    }

    pub open spec fn pk_cols(&self) -> KeyView {
        texts_of(self.partition_key_columns@)
    }

    pub open spec fn ck_cols(&self) -> KeyView {
        texts_of(self.clustering_key_columns@)
    }

    /// Partition keys are unique; every partition is ordered and every row holds every
    /// partition-key and clustering-key column.
    pub open spec fn wf(&self) -> bool {
        &&& forall|i: int, j: int| 0 <= i < j < self.partitions@.len() ==> (#[trigger] self.view_parts()[i]).0 != (#[trigger] self.view_parts()[j]).0
        &&& forall|i: int| 0 <= i < self.partitions@.len() ==> {
            &&& (#[trigger] self.partitions@[i]).1.wf()
            &&& texts_of(self.partitions@[i].1.clustering_key_columns@) == self.ck_cols()
            &&& rows_have(self.partitions@[i].1.view_rows(), self.pk_cols())
        }
    }

    /// A table with the given schema, no rows, and a `_timestamp` column added.
    pub fn new(
        table_name: String,
        partition_key_columns: Vec<String>,
        clustering_key_columns: Vec<String>,
        columns: Vec<(String, String)>,
    ) -> (r: Self)
        ensures
            r.wf(),
            r.table_name@ == table_name@,
            r.partition_key_columns@ == partition_key_columns@,
            r.clustering_key_columns@ == clustering_key_columns@,
            row_view(r.columns@) == row_view(columns@).push(("_timestamp"@, "String"@)),
            r.partitions@.len() == 0,
    {
        let mut columns = columns;
        let ghost before = columns@;
        columns.push(("_timestamp".to_owned(), "String".to_owned()));
        assert(row_view(columns@) =~= row_view(before).push(("_timestamp"@, "String"@)));
        Table { table_name, partition_key_columns, clustering_key_columns, columns, partitions: Vec::new() }
    }

    pub fn get_columns(&self) -> (r: &Vec<(String, String)>)
        ensures
            r@ == self.columns@,
    {
        &self.columns
    }

    pub fn get_name(&self) -> (r: &String)
        ensures
            r@ == self.table_name@,
    {
        &self.table_name
    }

    pub fn get_partition_key_columns(&self) -> (r: Vec<String>)
        ensures
            r@ == self.partition_key_columns@,
    {
        clone_texts(&self.partition_key_columns)
    }

    pub fn get_clustering_key_columns(&self) -> (r: Vec<String>)
        ensures
            r@ == self.clustering_key_columns@,
    {
        clone_texts(&self.clustering_key_columns)
    }

    fn find_partition(&self, keys: &Vec<String>) -> (r: Option<usize>)
        requires
            self.wf(),
        ensures
            match r {
                Some(i) => i < self.partitions@.len() && self.view_parts()[i as int].0 == texts_of(keys@)
                    && part_index(self.view_parts(), texts_of(keys@)) == Some(i as int),
                None => part_index(self.view_parts(), texts_of(keys@)) is None,
            },
    {
        let mut i: usize = 0;
        while i < self.partitions.len()
            invariant
                i <= self.partitions@.len(),
                self.wf(),
                forall|j: int| 0 <= j < i ==> (#[trigger] self.view_parts()[j]).0 != texts_of(keys@),
            decreases self.partitions@.len() - i,
        {
            assert(self.view_parts()[i as int].0 == texts_of(self.partitions@[i as int].0@));
            if texts_eq(&self.partitions[i].0, keys) {
                proof {
                    let k = texts_of(keys@);
                    assert(self.view_parts()[i as int].0 == k);
                    assert(exists|x: int| 0 <= x < self.view_parts().len() && (#[trigger] self.view_parts()[x]).0 == k);
                    let c = choose|x: int| 0 <= x < self.view_parts().len() && (#[trigger] self.view_parts()[x]).0 == k;
                    if c < i {
                        assert(self.view_parts()[c].0 != k);
                    } else if c > i {
                        assert(self.view_parts()[i as int].0 != self.view_parts()[c].0);
                    }
                }
                return Some(i);
            }
            i = i + 1;
        }
        assert(!(exists|x: int| 0 <= x < self.view_parts().len() && (#[trigger] self.view_parts()[x]).0 == texts_of(keys@)));
        None
    }

    proof fn lemma_wf_after_change(&self, before: Seq<(Vec<String>, Partition)>, i: int)
        requires
            0 <= i < before.len(),
            self.partitions@ == before.update(i, self.partitions@[i]),
            texts_of(self.partitions@[i].0@) == texts_of(before[i].0@),
            self.partitions@[i].1.wf(),
            texts_of(self.partitions@[i].1.clustering_key_columns@) == self.ck_cols(),
            rows_have(self.partitions@[i].1.view_rows(), self.pk_cols()),
            forall|a: int, b: int| 0 <= a < b < before.len() ==> (#[trigger] parts_view(before)[a]).0 != (#[trigger] parts_view(before)[b]).0,
            forall|a: int| 0 <= a < before.len() ==> {
                &&& (#[trigger] before[a]).1.wf()
                &&& texts_of(before[a].1.clustering_key_columns@) == self.ck_cols()
                &&& rows_have(before[a].1.view_rows(), self.pk_cols())
            },
        ensures
            self.wf(),
    {
        assert forall|a: int, b: int| 0 <= a < b < self.partitions@.len() implies (#[trigger] self.view_parts()[a]).0 != (#[trigger] self.view_parts()[b]).0 by {
            assert(self.view_parts()[a].0 == parts_view(before)[a].0);
            assert(self.view_parts()[b].0 == parts_view(before)[b].0);
        }
    }

    proof fn lemma_wf_after_push(&self, before: Seq<(Vec<String>, Partition)>)
        requires
            before.len() + 1 == self.partitions@.len(),
            self.partitions@.drop_last() == before,
            self.partitions@.last().1.wf(),
            texts_of(self.partitions@.last().1.clustering_key_columns@) == self.ck_cols(),
            rows_have(self.partitions@.last().1.view_rows(), self.pk_cols()),
            part_index(parts_view(before), texts_of(self.partitions@.last().0@)) is None,
            forall|a: int, b: int| 0 <= a < b < before.len() ==> (#[trigger] parts_view(before)[a]).0 != (#[trigger] parts_view(before)[b]).0,
            forall|a: int| 0 <= a < before.len() ==> {
                &&& (#[trigger] before[a]).1.wf()
                &&& texts_of(before[a].1.clustering_key_columns@) == self.ck_cols()
                &&& rows_have(before[a].1.view_rows(), self.pk_cols())
            },
        ensures
            self.wf(),
    {
        let n = before.len();
        assert forall|a: int| 0 <= a < self.partitions@.len() implies {
            &&& (#[trigger] self.partitions@[a]).1.wf()
            &&& texts_of(self.partitions@[a].1.clustering_key_columns@) == self.ck_cols()
            &&& rows_have(self.partitions@[a].1.view_rows(), self.pk_cols())
        } by {
            if a < n {
                assert(self.partitions@[a] == before[a]);
            }
        }
        assert forall|a: int, b: int| 0 <= a < b < self.partitions@.len() implies (#[trigger] self.view_parts()[a]).0 != (#[trigger] self.view_parts()[b]).0 by {
            assert(self.partitions@[a] == before[a]);
            assert(self.view_parts()[a].0 == parts_view(before)[a].0);
            if b < n {
                assert(self.partitions@[b] == before[b]);
                assert(self.view_parts()[b].0 == parts_view(before)[b].0);
            } else {
                assert(!(parts_view(before)[a].0 == texts_of(self.partitions@.last().0@)));
            }
        }
    }

    /// Inserts a row: its columns must belong to the table, and it must hold every
    /// partition-key and clustering-key column. A row with the same keys is replaced.
    pub fn insert(&mut self, row: Vec<(String, String)>) -> (r: Result<(), TableError>)
        requires
            old(self).wf(),
        ensures
            final(self).wf(),
            final(self).pk_cols() == old(self).pk_cols(),
            final(self).ck_cols() == old(self).ck_cols(),
            final(self).columns == old(self).columns,
            final(self).table_name == old(self).table_name,
            !known_columns(row_view(row@), row_view(old(self).columns@)) ==> (r matches Err(TableError::UnknownColumn(_))),
            known_columns(row_view(row@), row_view(old(self).columns@)) && key_values(row_view(row@), old(self).pk_cols()) is None
                ==> (r matches Err(TableError::MissingPartitionKey(_))),
            known_columns(row_view(row@), row_view(old(self).columns@)) && key_values(row_view(row@), old(self).pk_cols()) is Some
                && key_values(row_view(row@), old(self).ck_cols()) is None
                ==> (r matches Err(TableError::MissingClusteringKey(_))),
            r is Err ==> final(self).view_parts() == old(self).view_parts(),
            r is Ok <==> known_columns(row_view(row@), row_view(old(self).columns@))
                && key_values(row_view(row@), old(self).pk_cols()) is Some
                && key_values(row_view(row@), old(self).ck_cols()) is Some,
            r is Ok ==> final(self).view_parts() == inserted(
                old(self).view_parts(),
                key_values(row_view(row@), old(self).pk_cols())->Some_0,
                key_values(row_view(row@), old(self).ck_cols())->Some_0,
                row_view(row@),
            ),
    {
        if let Some(unknown) = first_unknown_column(&row, &self.columns) {
            return Err(TableError::UnknownColumn(unknown));
        }
        let pkeys = match values_of(&row, &self.partition_key_columns) {
            Ok(k) => k,
            Err(missing) => return Err(TableError::MissingPartitionKey(missing)),
        };
        let ghost old_parts = self.view_parts();
        match self.find_partition(&pkeys) {
            Some(i) => {
                let ghost before = self.partitions@;
                let ghost rv = row_view(row@);
                proof {
                    assert(before[i as int].1.wf());
                }
                let res = self.partitions[i].1.insert(row);
                proof {
                    if res is Ok {
                        lemma_upsert_has(before[i as int].1.view_rows(), key_values(rv, self.ck_cols())->Some_0, rv, self.pk_cols());
                    }
                    assert(self.partitions@ == before.update(i as int, self.partitions@[i as int]));
                    self.lemma_wf_after_change(before, i as int);
                    if res is Ok {
                        assert(self.view_parts() =~= old_parts.update(i as int, (
                            texts_of(pkeys@),
                            self.partitions@[i as int].1.view_rows(),
                        )));
                    } else {
                        assert(self.view_parts() =~= old_parts);
                    }
                }
                res
            },
            None => {
                let mut p = Partition::new(clone_texts(&self.clustering_key_columns));
                let ghost before = self.partitions@;
                match p.insert(row) {
                    Ok(()) => {
                        self.partitions.push((pkeys, p));
                        proof {
                            assert(self.view_parts() =~= old_parts.push((texts_of(pkeys@), self.partitions@.last().1.view_rows())));
                            assert(upsert(Seq::<(KeyView, RowView)>::empty(), key_values(row_view(row@), self.ck_cols())->Some_0, row_view(row@))
                                == seq![(key_values(row_view(row@), self.ck_cols())->Some_0, row_view(row@))]);
                            assert(Seq::<(KeyView, RowView)>::empty() =~= rows_view(Seq::empty()));
                            assert(self.partitions@.drop_last() =~= before);
                            self.lemma_wf_after_push(before);
                        }
                        Ok(())
                    },
                    Err(e) => Err(e),
                }
            },
        }
    }
}

/// The rows of a partition, without their keys.
pub open spec fn row_values(rows: Seq<(KeyView, RowView)>) -> Seq<RowView> {
    rows.map_values(|kr: (KeyView, RowView)| kr.1)
}

/// Whether the row holds every pair of the query.
pub open spec fn matches_query(row: RowView, query: RowView) -> bool {
    forall|i: int| 0 <= i < query.len() ==> row_lookup(row, (#[trigger] query[i]).0) == Some(query[i].1)
}

pub open spec fn meets(cond: Expression, kr: (KeyView, RowView)) -> bool {
    eval(cond, kr.1) == Some(true)
}

/// The rows of a partition that the predicate does not select.
pub open spec fn rows_without(rows: Seq<(KeyView, RowView)>, cond: Expression) -> Seq<(KeyView, RowView)> {
    rows.filter(not_meeting(cond))
}

pub open spec fn not_meeting(cond: Expression) -> spec_fn((KeyView, RowView)) -> bool {
    |kr: (KeyView, RowView)| !meets(cond, kr)
}

pub open spec fn not_matching(query: RowView) -> spec_fn((KeyView, RowView)) -> bool {
    |kr: (KeyView, RowView)| !matches_query(kr.1, query)
}

/// The rows of a partition that do not hold every pair of the query.
pub open spec fn rows_not_matching(rows: Seq<(KeyView, RowView)>, query: RowView) -> Seq<(KeyView, RowView)> {
    rows.filter(not_matching(query))
}

/// Whether the predicate can be evaluated on every row.
pub open spec fn evaluable(rows: Seq<RowView>, cond: Expression) -> bool {
    forall|i: int| 0 <= i < rows.len() ==> (#[trigger] eval(cond, rows[i])) is Some
}

/// Whether a row holds every pair of the query.
pub fn row_matches_query(row: &Vec<(String, String)>, query_values: &Vec<(String, String)>) -> (r: bool)
    ensures
        r == matches_query(row_view(row@), row_view(query_values@)),
{
    let ghost q = row_view(query_values@);
    let mut i: usize = 0;
    while i < query_values.len()
        invariant
            i <= query_values@.len(),
            q == row_view(query_values@),
            forall|x: int| 0 <= x < i ==> row_lookup(row_view(row@), (#[trigger] q[x]).0) == Some(q[x].1),
        decreases query_values@.len() - i,
    {
        assert(q[i as int] == (query_values@[i as int].0@, query_values@[i as int].1@));
        match row_get(row, query_values[i].0.as_str()) {
            Some(v) => {
                if !str_eq(v.as_str(), query_values[i].1.as_str()) {
                    return false;
                }
            },
            None => {
                return false;
            },
        }
        i = i + 1;
    }
    true
}

proof fn lemma_filter_sorted(rows: Seq<(KeyView, RowView)>, pred: spec_fn((KeyView, RowView)) -> bool)
    requires
        sorted_keys(rows),
    ensures
        sorted_keys(rows.filter(pred)),
        forall|i: int| 0 <= i < rows.filter(pred).len() ==> rows.contains(#[trigger] rows.filter(pred)[i]),
    decreases rows.len(),
{
    reveal(Seq::filter);
    if rows.len() > 0 {
        let init = rows.drop_last();
        assert(sorted_keys(init)) by {
            assert forall|i: int, j: int| 0 <= i < j < init.len() implies texts_lt(#[trigger] init[i].0, #[trigger] init[j].0) by {
                assert(init[i] == rows[i] && init[j] == rows[j]);
            }
        }
        lemma_filter_sorted(init, pred);
        let f = init.filter(pred);
        assert forall|i: int| 0 <= i < rows.filter(pred).len() implies rows.contains(#[trigger] rows.filter(pred)[i]) by {
            if i < f.len() {
                assert(rows.filter(pred)[i] == f[i]);
                let x = choose|x: int| 0 <= x < init.len() && init[x] == f[i];
                assert(rows[x] == init[x]);
            } else {
                assert(rows.filter(pred)[i] == rows.last());
                assert(rows[rows.len() - 1] == rows.last());
            }
        }
        if pred(rows.last()) {
            assert forall|i: int, j: int| 0 <= i < j < rows.filter(pred).len() implies texts_lt(#[trigger] rows.filter(pred)[i].0, #[trigger] rows.filter(pred)[j].0) by {
                assert(rows.filter(pred)[i] == f[i]);
                if j < f.len() {
                    assert(rows.filter(pred)[j] == f[j]);
                } else {
                    let x = choose|x: int| 0 <= x < init.len() && init[x] == f[i];
                    assert(rows[x] == init[x]);
                    assert(texts_lt(rows[x].0, rows[rows.len() - 1].0));
                }
            }
        }
    }
}

proof fn lemma_filter_has(rows: Seq<(KeyView, RowView)>, pred: spec_fn((KeyView, RowView)) -> bool, cols: KeyView)
    requires
        rows_have(rows, cols),
        sorted_keys(rows),
    ensures
        rows_have(rows.filter(pred), cols),
{
    lemma_filter_sorted(rows, pred);
    assert forall|i: int| 0 <= i < rows.filter(pred).len() implies (#[trigger] key_values(rows.filter(pred)[i].1, cols)) is Some by {
        assert(rows.contains(rows.filter(pred)[i]));
        let x = choose|x: int| 0 <= x < rows.len() && rows[x] == rows.filter(pred)[i];
        assert(key_values(rows[x].1, cols) is Some);
    }
}

impl Partition {
    /// A copy of the partition without the rows the predicate selects.
    fn without(&self, condition: &Expression) -> (r: Result<Partition, TableError>)
        requires
            self.wf(),
        ensures
            r is Ok <==> evaluable(row_values(self.view_rows()), *condition),
            r is Ok ==> r->Ok_0.view_rows() == rows_without(self.view_rows(), *condition),
            r is Ok ==> r->Ok_0.clustering_key_columns@ == self.clustering_key_columns@,
            r is Ok ==> r->Ok_0.wf(),
    {
        let ghost rows = self.view_rows();
        let ghost pred = not_meeting(*condition);
        let mut kept: Vec<(Vec<String>, Vec<(String, String)>)> = Vec::new();
        let mut j: usize = 0;
        while j < self.rows.len()
            invariant
                j <= self.rows@.len(),
                rows == self.view_rows(),
                self.wf(),
                pred == not_meeting(*condition),
                rows_view(kept@) == rows.take(j as int).filter(pred),
                forall|x: int| 0 <= x < j ==> (#[trigger] eval(*condition, rows[x].1)) is Some,
            decreases self.rows@.len() - j,
        {
            assert(rows[j as int] == (texts_of(self.rows@[j as int].0@), row_view(self.rows@[j as int].1@)));
            let res = evaluate_expression(condition, &self.rows[j].1);
            assert(rows.take(j + 1).drop_last() =~= rows.take(j as int));
            reveal(Seq::filter);
            match res {
                Ok(true) => {},
                Ok(false) => {
                    let ghost prev = kept@;
                    kept.push((clone_texts(&self.rows[j].0), crate::text::clone_pairs(&self.rows[j].1)));
                    assert(rows_view(kept@) =~= rows_view(prev).push(rows[j as int]));
                },
                Err(_) => {
                    proof {
                        assert(row_values(rows)[j as int] == rows[j as int].1);
                    }
                    return Err(TableError::InvalidPredicate);
                },
            }
            j = j + 1;
        }
        proof {
            assert(rows.take(j as int) =~= rows);
            lemma_filter_has(rows, pred, texts_of(self.clustering_key_columns@));
            lemma_filter_sorted(rows, pred);
            assert forall|x: int| 0 <= x < row_values(rows).len() implies (#[trigger] eval(*condition, row_values(rows)[x])) is Some by {
                assert(row_values(rows)[x] == rows[x].1);
            }
        }
        let p = Partition { clustering_key_columns: clone_texts(&self.clustering_key_columns), rows: kept };
        assert(p.view_rows() == rows.filter(pred));
        assert(sorted_keys(p.view_rows()));
        assert(texts_of(p.clustering_key_columns@) == texts_of(self.clustering_key_columns@));
        assert(rows_have(p.view_rows(), texts_of(p.clustering_key_columns@)));
        Ok(p)
    }
}

/// The value `values` gives column `k`: that of its last pair naming `k`.
pub open spec fn last_lookup(values: RowView, k: Seq<char>) -> Option<Seq<char>>
    decreases values.len(),
{
    if values.len() == 0 {
        None
    } else if values.last().0 == k {
        Some(values.last().1)
    } else {
        last_lookup(values.drop_last(), k)
    }
}

/// What a row holds for column `k` after the columns of `values` are set in it.
pub open spec fn assigned(row: RowView, values: RowView, k: Seq<char>) -> Option<Seq<char>> {
    match last_lookup(values, k) {
        Some(v) => Some(v),
        None => row_lookup(row, k),
    }
}

/// Rows of a partition after setting `values` in those that meet the predicate; keys stay.
pub open spec fn rows_updated(rows: Seq<(KeyView, RowView)>, old_rows: Seq<(KeyView, RowView)>, values: RowView, cond: Expression) -> bool {
    &&& rows.len() == old_rows.len()
    &&& forall|i: int| 0 <= i < rows.len() ==> (#[trigger] rows[i]).0 == old_rows[i].0
    &&& forall|i: int, k: Seq<char>| 0 <= i < rows.len() ==> #[trigger] row_lookup(rows[i].1, k) == if meets(cond, old_rows[i]) {
        assigned(old_rows[i].1, values, k)
    } else {
        row_lookup(old_rows[i].1, k)
    }
}

proof fn lemma_lookup_update(row: RowView, i: int, c: Seq<char>, v: Seq<char>, k: Seq<char>)
    requires
        0 <= i < row.len(),
        row[i].0 == c,
        forall|j: int| 0 <= j < i ==> (#[trigger] row[j]).0 != c,
    ensures
        row_lookup(row.update(i, (c, v)), k) == if k == c { Some(v) } else { row_lookup(row, k) },
    decreases i,
{
    if i == 0 {
        assert(row.update(0, (c, v)).drop_first() =~= row.drop_first());
    } else {
        let rest = row.drop_first();
        assert forall|j: int| 0 <= j < i - 1 implies (#[trigger] rest[j]).0 != c by {
            assert(rest[j] == row[j + 1]);
        }
        lemma_lookup_update(rest, i - 1, c, v, k);
        assert(row.update(i, (c, v)).drop_first() =~= rest.update(i - 1, (c, v)));
    }
}

proof fn lemma_lookup_push(row: RowView, c: Seq<char>, v: Seq<char>, k: Seq<char>)
    requires
        forall|j: int| 0 <= j < row.len() ==> (#[trigger] row[j]).0 != c,
    ensures
        row_lookup(row.push((c, v)), k) == if k == c { Some(v) } else { row_lookup(row, k) },
    decreases row.len(),
{
    if row.len() > 0 {
        let rest = row.drop_first();
        assert forall|j: int| 0 <= j < rest.len() implies (#[trigger] rest[j]).0 != c by {
            assert(rest[j] == row[j + 1]);
        }
        lemma_lookup_push(rest, c, v, k);
        assert(row.push((c, v)).drop_first() =~= rest.push((c, v)));
        assert(row.push((c, v))[0] == row[0]);
    } else {
        assert(row.push((c, v)).drop_first() =~= row);
        assert(row.push((c, v))[0] == (c, v));
    }
}

/// Sets column `c` of the row to `v`, in place where the row has it, else at the end.
fn row_set(row: &mut Vec<(String, String)>, c: String, v: String)
    ensures
        forall|k: Seq<char>| #[trigger] row_lookup(row_view(final(row)@), k) == if k == c@ { Some(v@) } else { row_lookup(row_view(old(row)@), k) },
{
    let ghost rv = row_view(row@);
    let mut i: usize = 0;
    while i < row.len()
        invariant
            i <= row@.len(),
            rv == row_view(row@),
            forall|j: int| 0 <= j < i ==> (#[trigger] rv[j]).0 != c@,
        ensures
            i <= row@.len(),
            rv == row_view(row@),
            forall|j: int| 0 <= j < i ==> (#[trigger] rv[j]).0 != c@,
            i < row@.len() ==> rv[i as int].0 == c@,
        decreases row@.len() - i,
    {
        assert(rv[i as int] == (row@[i as int].0@, row@[i as int].1@));
        if str_eq(row[i].0.as_str(), c.as_str()) {
            break;
        }
        i = i + 1;
    }
    let ghost cv = c@;
    let ghost vv = v@;
    if i < row.len() {
        row.set(i, (c, v));
        proof {
            assert(row_view(row@) =~= rv.update(i as int, (cv, vv)));
            assert forall|k: Seq<char>| #[trigger] row_lookup(row_view(row@), k) == if k == cv { Some(vv) } else { row_lookup(rv, k) } by {
                lemma_lookup_update(rv, i as int, cv, vv, k);
            }
        }
    } else {
        row.push((c, v));
        proof {
            assert(row_view(row@) =~= rv.push((cv, vv)));
            assert forall|k: Seq<char>| #[trigger] row_lookup(row_view(row@), k) == if k == cv { Some(vv) } else { row_lookup(rv, k) } by {
                lemma_lookup_push(rv, cv, vv, k);
            }
        }
    }
}

/// Sets every pair of `values` in the row, in order.
fn row_set_all(row: &mut Vec<(String, String)>, values: &Vec<(String, String)>)
    ensures
        forall|k: Seq<char>| #[trigger] row_lookup(row_view(final(row)@), k) == assigned(row_view(old(row)@), row_view(values@), k),
{
    let ghost start = row_view(row@);
    let ghost vals = row_view(values@);
    let mut j: usize = 0;
    while j < values.len()
        invariant
            j <= values@.len(),
            vals == row_view(values@),
            forall|k: Seq<char>| #[trigger] row_lookup(row_view(row@), k) == assigned(start, vals.take(j as int), k),
        decreases values@.len() - j,
    {
        assert(vals[j as int] == (values@[j as int].0@, values@[j as int].1@));
        row_set(row, values[j].0.clone(), values[j].1.clone());
        assert(vals.take(j + 1).drop_last() =~= vals.take(j as int));
        j = j + 1;
    }
    assert(vals.take(j as int) =~= vals);
}

/// A row whose lookups only gain values still holds every column it held.
proof fn lemma_key_values_kept(old_row: RowView, new_row: RowView, cols: KeyView)
    requires
        key_values(old_row, cols) is Some,
        forall|k: Seq<char>| cols.contains(k) && (#[trigger] row_lookup(old_row, k)) is Some && row_lookup(old_row, k)->Some_0.len() > 0
            ==> row_lookup(new_row, k) is Some && row_lookup(new_row, k)->Some_0.len() > 0,
    ensures
        key_values(new_row, cols) is Some,
    decreases cols.len(),
{
    if cols.len() > 0 {
        assert forall|k: Seq<char>| cols.drop_last().contains(k) && (#[trigger] row_lookup(old_row, k)) is Some && row_lookup(old_row, k)->Some_0.len() > 0
            implies row_lookup(new_row, k) is Some && row_lookup(new_row, k)->Some_0.len() > 0 by {
            let x = choose|x: int| 0 <= x < cols.drop_last().len() && cols.drop_last()[x] == k;
            assert(cols[x] == k);
        }
        lemma_key_values_kept(old_row, new_row, cols.drop_last());
        assert(cols[cols.len() - 1] == cols.last());
    }
}

/// Whether `values` sets some column of `cols` to the empty text.
pub open spec fn sets_empty_key(values: RowView, cols: KeyView) -> bool {
    exists|i: int| 0 <= i < values.len() && (#[trigger] values[i]).1.len() == 0 && cols.contains(values[i].0)
}

proof fn lemma_last_lookup_nonempty(values: RowView, cols: KeyView, k: Seq<char>)
    requires
        !sets_empty_key(values, cols),
        cols.contains(k),
        last_lookup(values, k) is Some,
    ensures
        last_lookup(values, k)->Some_0.len() > 0,
    decreases values.len(),
{
    if values.last().0 == k {
        assert(values[values.len() - 1] == values.last());
    } else {
        assert forall|i: int| 0 <= i < values.drop_last().len() && (#[trigger] values.drop_last()[i]).1.len() == 0 implies !cols.contains(values.drop_last()[i].0) by {
            assert(values.drop_last()[i] == values[i]);
        }
        lemma_last_lookup_nonempty(values.drop_last(), cols, k);
    }
}

/// Whether `values` sets some column of `cols` to the empty text.
fn sets_empty_key_exec(values: &Vec<(String, String)>, cols: &Vec<String>) -> (r: bool)
    ensures
        r == sets_empty_key(row_view(values@), texts_of(cols@)),
{
    let ghost vv = row_view(values@);
    let mut i: usize = 0;
    while i < values.len()
        invariant
            i <= values@.len(),
            vv == row_view(values@),
            forall|j: int| 0 <= j < i ==> !((#[trigger] vv[j]).1.len() == 0 && texts_of(cols@).contains(vv[j].0)),
        decreases values@.len() - i,
    {
        assert(vv[i as int] == (values@[i as int].0@, values@[i as int].1@));
        if values[i].1.as_str().is_empty() {
            let mut j: usize = 0;
            while j < cols.len()
                invariant
                    j <= cols@.len(),
                    i < values@.len(),
                    vv == row_view(values@),
                    vv[i as int] == (values@[i as int].0@, values@[i as int].1@),
                    vv[i as int].1.len() == 0,
                    texts_of(cols@).len() == cols@.len(),
                    forall|x: int| 0 <= x < j ==> texts_of(cols@)[x] != vv[i as int].0,
                decreases cols@.len() - j,
            {
                if str_eq(cols[j].as_str(), values[i].0.as_str()) {
                    assert(texts_of(cols@)[j as int] == cols@[j as int]@);
                    assert(texts_of(cols@)[j as int] == vv[i as int].0);
                    assert(texts_of(cols@).contains(vv[i as int].0));
                    assert(vv[i as int].1.len() == 0);
                    return true;
                }
                j = j + 1;
            }
            assert(!texts_of(cols@).contains(vv[i as int].0));
        }
        i = i + 1;
    }
    false
}

impl Partition {
    /// A copy of the partition with `values` set in the rows the predicate selects.
    fn with_updates(&self, values: &Vec<(String, String)>, condition: &Expression) -> (r: Result<Partition, TableError>)
        requires
            self.wf(),
            !sets_empty_key(row_view(values@), texts_of(self.clustering_key_columns@)),
        ensures
            r is Ok <==> evaluable(row_values(self.view_rows()), *condition),
            r is Ok ==> rows_updated(r->Ok_0.view_rows(), self.view_rows(), row_view(values@), *condition),
            r is Ok ==> r->Ok_0.clustering_key_columns@ == self.clustering_key_columns@,
            r is Ok ==> r->Ok_0.wf(),
            r is Ok ==> forall|cols: KeyView| rows_have(self.view_rows(), cols) && !sets_empty_key(row_view(values@), cols) ==> rows_have(#[trigger] r->Ok_0.view_rows(), cols),
    {
        let ghost rows = self.view_rows();
        let mut out: Vec<(Vec<String>, Vec<(String, String)>)> = Vec::new();
        let mut j: usize = 0;
        while j < self.rows.len()
            invariant
                j <= self.rows@.len(),
                rows == self.view_rows(),
                self.wf(),
                out@.len() == j,
                rows_updated(rows_view(out@), rows.take(j as int), row_view(values@), *condition),
                forall|x: int| 0 <= x < j ==> (#[trigger] eval(*condition, rows[x].1)) is Some,
            decreases self.rows@.len() - j,
        {
            assert(rows[j as int] == (texts_of(self.rows@[j as int].0@), row_view(self.rows@[j as int].1@)));
            let res = evaluate_expression(condition, &self.rows[j].1);
            let mut row = crate::text::clone_pairs(&self.rows[j].1);
            match res {
                Ok(true) => {
                    row_set_all(&mut row, values);
                },
                Ok(false) => {},
                Err(_) => {
                    proof {
                        assert(row_values(rows)[j as int] == rows[j as int].1);
                    }
                    return Err(TableError::InvalidPredicate);
                },
            }
            let ghost prev = out@;
            out.push((clone_texts(&self.rows[j].0), row));
            proof {
                let ov = rows_view(out@);
                let tk = rows.take(j + 1);
                assert(rows_view(prev) == rows_view(out@).take(j as int)) by {
                    assert(rows_view(prev) =~= rows_view(out@).take(j as int));
                }
                assert forall|i: int| 0 <= i < ov.len() implies (#[trigger] ov[i]).0 == tk[i].0 by {
                    if i < j {
                        assert(ov[i] == rows_view(prev)[i]);
                    }
                }
                assert forall|i: int, k: Seq<char>| 0 <= i < ov.len() implies #[trigger] row_lookup(ov[i].1, k) == if meets(*condition, tk[i]) {
                    assigned(tk[i].1, row_view(values@), k)
                } else {
                    row_lookup(tk[i].1, k)
                } by {
                    if i < j {
                        assert(ov[i] == rows_view(prev)[i]);
                        assert(tk[i] == rows.take(j as int)[i]);
                    }
                }
            }
            j = j + 1;
        }
        let p = Partition { clustering_key_columns: clone_texts(&self.clustering_key_columns), rows: out };
        proof {
            assert(rows.take(j as int) =~= rows);
            let nv = p.view_rows();
            assert(texts_of(p.clustering_key_columns@) == texts_of(self.clustering_key_columns@));
            assert forall|a: int, b: int| 0 <= a < b < nv.len() implies texts_lt(#[trigger] nv[a].0, #[trigger] nv[b].0) by {
                assert(nv[a].0 == rows[a].0 && nv[b].0 == rows[b].0);
            }
            assert forall|cols: KeyView| rows_have(rows, cols) && !sets_empty_key(row_view(values@), cols) implies #[trigger] rows_have(nv, cols) by {
                assert forall|i: int| 0 <= i < nv.len() implies (#[trigger] key_values(nv[i].1, cols)) is Some by {
                    assert(key_values(rows[i].1, cols) is Some);
                    assert forall|k: Seq<char>| cols.contains(k) && (#[trigger] row_lookup(rows[i].1, k)) is Some && row_lookup(rows[i].1, k)->Some_0.len() > 0
                        implies row_lookup(nv[i].1, k) is Some && row_lookup(nv[i].1, k)->Some_0.len() > 0 by {
                        assert(row_lookup(nv[i].1, k) == if meets(*condition, rows[i]) {
                            assigned(rows[i].1, row_view(values@), k)
                        } else {
                            row_lookup(rows[i].1, k)
                        });
                        if last_lookup(row_view(values@), k) is Some {
                            lemma_last_lookup_nonempty(row_view(values@), cols, k);
                        }
                        assert(row_lookup(nv[i].1, k) is Some && row_lookup(nv[i].1, k)->Some_0.len() > 0);
                    }
                    lemma_key_values_kept(rows[i].1, nv[i].1, cols);
                }
            }
            assert forall|x: int| 0 <= x < row_values(rows).len() implies (#[trigger] eval(*condition, row_values(rows)[x])) is Some by {
                assert(row_values(rows)[x] == rows[x].1);
            }
        }
        Ok(p)
    }
}

/// Whether the predicate can be evaluated on every row of every partition.
pub open spec fn all_evaluable(parts: Seq<(KeyView, Seq<(KeyView, RowView)>)>, cond: Expression) -> bool {
    forall|i: int| 0 <= i < parts.len() ==> evaluable(row_values(#[trigger] parts[i].1), cond)
}

/// The same partitions, with the rows of each changed as `step` relates them.
pub open spec fn same_keys(new: Seq<(KeyView, Seq<(KeyView, RowView)>)>, old: Seq<(KeyView, Seq<(KeyView, RowView)>)>) -> bool {
    &&& new.len() == old.len()
    &&& forall|i: int| 0 <= i < new.len() ==> (#[trigger] new[i]).0 == old[i].0
}

impl Table {
    proof fn lemma_wf_rebuilt(&self, before: Table)
        requires
            before.wf(),
            self.pk_cols() == before.pk_cols(),
            self.ck_cols() == before.ck_cols(),
            same_keys(self.view_parts(), before.view_parts()),
            forall|i: int| 0 <= i < self.partitions@.len() ==> {
                &&& (#[trigger] self.partitions@[i]).1.wf()
                &&& texts_of(self.partitions@[i].1.clustering_key_columns@) == self.ck_cols()
                &&& rows_have(self.partitions@[i].1.view_rows(), self.pk_cols())
            },
        ensures
            self.wf(),
    {
        assert forall|a: int, b: int| 0 <= a < b < self.partitions@.len() implies (#[trigger] self.view_parts()[a]).0 != (#[trigger] self.view_parts()[b]).0 by {
            assert(self.view_parts()[a].0 == before.view_parts()[a].0);
            assert(self.view_parts()[b].0 == before.view_parts()[b].0);
        }
    }

    /// Sets `values_to_update` in every row that meets the predicate. Unknown columns, a
    /// key column set to the empty text, or a predicate that cannot be evaluated on some
    /// row leave the table as it was.
    pub fn update(&mut self, values_to_update: Vec<(String, String)>, condition: &Expression) -> (r: Result<(), TableError>)
        requires
            old(self).wf(),
        ensures
            final(self).wf(),
            final(self).pk_cols() == old(self).pk_cols(),
            final(self).ck_cols() == old(self).ck_cols(),
            final(self).columns == old(self).columns,
            final(self).table_name == old(self).table_name,
            !known_columns(row_view(values_to_update@), row_view(old(self).columns@)) ==> (r matches Err(TableError::UnknownColumn(_))),
            known_columns(row_view(values_to_update@), row_view(old(self).columns@)) && (sets_empty_key(row_view(values_to_update@), old(self).pk_cols())
                || sets_empty_key(row_view(values_to_update@), old(self).ck_cols())) ==> (r matches Err(TableError::EmptyKey)),
            known_columns(row_view(values_to_update@), row_view(old(self).columns@)) && !sets_empty_key(row_view(values_to_update@), old(self).pk_cols())
                && !sets_empty_key(row_view(values_to_update@), old(self).ck_cols()) && !all_evaluable(old(self).view_parts(), *condition)
                ==> (r matches Err(TableError::InvalidPredicate)),
            r is Ok <==> known_columns(row_view(values_to_update@), row_view(old(self).columns@))
                && !sets_empty_key(row_view(values_to_update@), old(self).pk_cols()) && !sets_empty_key(row_view(values_to_update@), old(self).ck_cols())
                && all_evaluable(old(self).view_parts(), *condition),
            r is Err ==> final(self).view_parts() == old(self).view_parts(),
            r is Ok ==> same_keys(final(self).view_parts(), old(self).view_parts()) && forall|i: int| 0 <= i < final(self).view_parts().len()
                ==> rows_updated(#[trigger] final(self).view_parts()[i].1, old(self).view_parts()[i].1, row_view(values_to_update@), *condition),
    {
        if let Some(unknown) = first_unknown_column(&values_to_update, &self.columns) {
            return Err(TableError::UnknownColumn(unknown));
        }
        if sets_empty_key_exec(&values_to_update, &self.partition_key_columns) || sets_empty_key_exec(&values_to_update, &self.clustering_key_columns) {
            return Err(TableError::EmptyKey);
        }
        let ghost parts = self.view_parts();
        let mut new_parts: Vec<(Vec<String>, Partition)> = Vec::new();
        let mut i: usize = 0;
        while i < self.partitions.len()
            invariant
                i <= self.partitions@.len(),
                self.wf(),
                parts == self.view_parts(),
                new_parts@.len() == i,
                known_columns(row_view(values_to_update@), row_view(self.columns@)),
                !sets_empty_key(row_view(values_to_update@), self.pk_cols()),
                !sets_empty_key(row_view(values_to_update@), self.ck_cols()),
                forall|x: int| 0 <= x < i ==> evaluable(row_values(#[trigger] parts[x].1), *condition),
                forall|x: int| 0 <= x < i ==> {
                    &&& texts_of((#[trigger] new_parts@[x]).0@) == parts[x].0
                    &&& new_parts@[x].1.wf()
                    &&& texts_of(new_parts@[x].1.clustering_key_columns@) == self.ck_cols()
                    &&& rows_have(new_parts@[x].1.view_rows(), self.pk_cols())
                    &&& rows_updated(new_parts@[x].1.view_rows(), parts[x].1, row_view(values_to_update@), *condition)
                },
            decreases self.partitions@.len() - i,
        {
            assert(parts[i as int] == (texts_of(self.partitions@[i as int].0@), self.partitions@[i as int].1.view_rows()));
            assert(self.partitions@[i as int].1.wf());
            match self.partitions[i].1.with_updates(&values_to_update, condition) {
                Ok(p) => {
                    new_parts.push((clone_texts(&self.partitions[i].0), p));
                },
                Err(_) => {
                    proof {
                        assert(!evaluable(row_values(parts[i as int].1), *condition));
                    }
                    return Err(TableError::InvalidPredicate);
                },
            }
            i = i + 1;
        }
        assert(all_evaluable(parts, *condition)) by {
            assert forall|x: int| 0 <= x < parts.len() implies evaluable(row_values(#[trigger] parts[x].1), *condition) by {
            }
        }
        let ghost before = *self;
        self.partitions = new_parts;
        proof {
            assert forall|x: int| 0 <= x < self.view_parts().len() implies (#[trigger] self.view_parts()[x]).0 == parts[x].0 by {
                assert(self.view_parts()[x].0 == texts_of(self.partitions@[x].0@));
            }
            self.lemma_wf_rebuilt(before);
            assert forall|x: int| 0 <= x < self.view_parts().len() implies rows_updated(#[trigger] self.view_parts()[x].1, parts[x].1, row_view(values_to_update@), *condition) by {
                assert(self.view_parts()[x].1 == self.partitions@[x].1.view_rows());
            }
        }
        Ok(())
    }

    /// Removes every row that meets the predicate. A predicate that cannot be evaluated on
    /// some row leaves the table as it was.
    pub fn delete(&mut self, condition: &Expression) -> (r: Result<(), TableError>)
        requires
            old(self).wf(),
        ensures
            final(self).wf(),
            final(self).pk_cols() == old(self).pk_cols(),
            final(self).ck_cols() == old(self).ck_cols(),
            final(self).columns == old(self).columns,
            final(self).table_name == old(self).table_name,
            r is Ok <==> all_evaluable(old(self).view_parts(), *condition),
            r is Err ==> (r matches Err(TableError::InvalidPredicate)) && final(self).view_parts() == old(self).view_parts(),
            r is Ok ==> same_keys(final(self).view_parts(), old(self).view_parts()) && forall|i: int| 0 <= i < final(self).view_parts().len()
                ==> (#[trigger] final(self).view_parts()[i]).1 == rows_without(old(self).view_parts()[i].1, *condition),
    {
        let ghost parts = self.view_parts();
        let mut new_parts: Vec<(Vec<String>, Partition)> = Vec::new();
        let mut i: usize = 0;
        while i < self.partitions.len()
            invariant
                i <= self.partitions@.len(),
                self.wf(),
                parts == self.view_parts(),
                new_parts@.len() == i,
                forall|x: int| 0 <= x < i ==> evaluable(row_values(#[trigger] parts[x].1), *condition),
                forall|x: int| 0 <= x < i ==> {
                    &&& texts_of((#[trigger] new_parts@[x]).0@) == parts[x].0
                    &&& new_parts@[x].1.wf()
                    &&& texts_of(new_parts@[x].1.clustering_key_columns@) == self.ck_cols()
                    &&& rows_have(new_parts@[x].1.view_rows(), self.pk_cols())
                    &&& new_parts@[x].1.view_rows() == rows_without(parts[x].1, *condition)
                },
            decreases self.partitions@.len() - i,
        {
            assert(parts[i as int] == (texts_of(self.partitions@[i as int].0@), self.partitions@[i as int].1.view_rows()));
            assert(self.partitions@[i as int].1.wf());
            assert(rows_have(parts[i as int].1, self.pk_cols()));
            match self.partitions[i].1.without(condition) {
                Ok(p) => {
                    proof {
                        lemma_filter_has(parts[i as int].1, not_meeting(*condition), self.pk_cols());
                    }
                    new_parts.push((clone_texts(&self.partitions[i].0), p));
                },
                Err(_) => {
                    proof {
                        assert(!evaluable(row_values(parts[i as int].1), *condition));
                    }
                    return Err(TableError::InvalidPredicate);
                },
            }
            i = i + 1;
        }
        let ghost before = *self;
        self.partitions = new_parts;
        proof {
            assert forall|x: int| 0 <= x < self.view_parts().len() implies (#[trigger] self.view_parts()[x]).0 == parts[x].0 by {
                assert(self.view_parts()[x].0 == texts_of(self.partitions@[x].0@));
            }
            self.lemma_wf_rebuilt(before);
            assert forall|x: int| 0 <= x < self.view_parts().len() implies (#[trigger] self.view_parts()[x]).1 == rows_without(parts[x].1, *condition) by {
                assert(self.view_parts()[x].1 == self.partitions@[x].1.view_rows());
            }
        }
        Ok(())
    }

    /// The same as `delete`.
    pub fn delete_if(&mut self, condition: &Expression) -> (r: Result<(), TableError>)
        requires
            old(self).wf(),
        ensures
            final(self).wf(),
            final(self).pk_cols() == old(self).pk_cols(),
            final(self).ck_cols() == old(self).ck_cols(),
            final(self).columns == old(self).columns,
            final(self).table_name == old(self).table_name,
            r is Ok <==> all_evaluable(old(self).view_parts(), *condition),
            r is Err ==> final(self).view_parts() == old(self).view_parts(),
            r is Ok ==> same_keys(final(self).view_parts(), old(self).view_parts()) && forall|i: int| 0 <= i < final(self).view_parts().len()
                ==> (#[trigger] final(self).view_parts()[i]).1 == rows_without(old(self).view_parts()[i].1, *condition),
    {
        self.delete(condition)
    }

    /// Removes the partition with the given keys.
    pub fn delete_partition(&mut self, query_partition_keys: &Vec<String>) -> (r: Result<(), TableError>)
        requires
            old(self).wf(),
        ensures
            final(self).wf(),
            final(self).pk_cols() == old(self).pk_cols(),
            final(self).ck_cols() == old(self).ck_cols(),
            final(self).columns == old(self).columns,
            final(self).table_name == old(self).table_name,
            match part_index(old(self).view_parts(), texts_of(query_partition_keys@)) {
                Some(i) => r is Ok && final(self).view_parts() == old(self).view_parts().remove(i),
                None => r matches Err(TableError::PartitionNotFound) && final(self).view_parts() == old(self).view_parts(),
            },
    {
        match self.find_partition(query_partition_keys) {
            Some(i) => {
                let ghost before = self.partitions@;
                let ghost bp = self.view_parts();
                self.partitions.remove(i);
                proof {
                    assert(self.view_parts() =~= bp.remove(i as int));
                    assert forall|a: int, b: int| 0 <= a < b < self.partitions@.len() implies (#[trigger] self.view_parts()[a]).0 != (#[trigger] self.view_parts()[b]).0 by {
                        let a2 = if a < i { a } else { a + 1 };
                        let b2 = if b < i { b } else { b + 1 };
                        assert(self.view_parts()[a] == bp[a2]);
                        assert(self.view_parts()[b] == bp[b2]);
                    }
                    assert forall|a: int| 0 <= a < self.partitions@.len() implies {
                        &&& (#[trigger] self.partitions@[a]).1.wf()
                        &&& texts_of(self.partitions@[a].1.clustering_key_columns@) == self.ck_cols()
                        &&& rows_have(self.partitions@[a].1.view_rows(), self.pk_cols())
                    } by {
                        let a2 = if a < i { a } else { a + 1 };
                        assert(self.partitions@[a] == before[a2]);
                    }
                }
                Ok(())
            },
            None => Err(TableError::PartitionNotFound),
        }
    }
}

pub open spec fn meets_row(cond: Expression) -> spec_fn(RowView) -> bool {
    |r: RowView| eval(cond, r) == Some(true)
}

pub open spec fn matching_row(query: RowView) -> spec_fn(RowView) -> bool {
    |r: RowView| matches_query(r, query)
}

/// The values the query gives the columns of `cols` that it names, in column order.
pub open spec fn present_values(query: RowView, cols: KeyView) -> KeyView
    decreases cols.len(),
{
    if cols.len() == 0 {
        Seq::empty()
    } else {
        match row_lookup(query, cols.last()) {
            Some(v) => present_values(query, cols.drop_last()).push(v),
            None => present_values(query, cols.drop_last()),
        }
    }
}

pub open spec fn rows_views(rows: Seq<Vec<(String, String)>>) -> Seq<RowView> {
    rows.map_values(|r: Vec<(String, String)>| row_view(r@))
}

proof fn lemma_all_rows_step(parts: Seq<(KeyView, Seq<(KeyView, RowView)>)>, i: int)
    requires
        0 <= i < parts.len(),
    ensures
        all_rows(parts.take(i + 1)) == all_rows(parts.take(i)) + row_values(parts[i].1),
{
    assert(parts.take(i + 1).drop_last() =~= parts.take(i));
}

impl Partition {
    /// A copy of the partition.
    pub fn duplicate(&self) -> (r: Partition)
        ensures
            texts_of(r.clustering_key_columns@) == texts_of(self.clustering_key_columns@),
            r.view_rows() == self.view_rows(),
    {
        let mut rows: Vec<(Vec<String>, Vec<(String, String)>)> = Vec::new();
        let mut i: usize = 0;
        while i < self.rows.len()
            invariant
                i <= self.rows@.len(),
                rows_view(rows@) == self.view_rows().take(i as int),
            decreases self.rows@.len() - i,
        {
            let ghost prev = rows@;
            rows.push((clone_texts(&self.rows[i].0), crate::text::clone_pairs(&self.rows[i].1)));
            assert(rows_view(rows@) =~= rows_view(prev).push(self.view_rows()[i as int]));
            assert(rows_view(rows@) =~= self.view_rows().take(i + 1));
            i = i + 1;
        }
        assert(self.view_rows().take(i as int) =~= self.view_rows());
        Partition { clustering_key_columns: clone_texts(&self.clustering_key_columns), rows }
    }

    /// A copy of the partition without the rows that hold every pair of the query.
    fn without_matching(&self, query_values: &Vec<(String, String)>) -> (r: Partition)
        requires
            self.wf(),
        ensures
            r.view_rows() == rows_not_matching(self.view_rows(), row_view(query_values@)),
            r.clustering_key_columns@ == self.clustering_key_columns@,
            r.wf(),
    {
        let ghost rows = self.view_rows();
        let ghost pred = not_matching(row_view(query_values@));
        let mut kept: Vec<(Vec<String>, Vec<(String, String)>)> = Vec::new();
        let mut j: usize = 0;
        while j < self.rows.len()
            invariant
                j <= self.rows@.len(),
                rows == self.view_rows(),
                self.wf(),
                pred == not_matching(row_view(query_values@)),
                rows_view(kept@) == rows.take(j as int).filter(pred),
            decreases self.rows@.len() - j,
        {
            assert(rows[j as int] == (texts_of(self.rows@[j as int].0@), row_view(self.rows@[j as int].1@)));
            let m = row_matches_query(&self.rows[j].1, query_values);
            assert(rows.take(j + 1).drop_last() =~= rows.take(j as int));
            reveal(Seq::filter);
            if !m {
                let ghost prev = kept@;
                kept.push((clone_texts(&self.rows[j].0), crate::text::clone_pairs(&self.rows[j].1)));
                assert(rows_view(kept@) =~= rows_view(prev).push(rows[j as int]));
            }
            j = j + 1;
        }
        proof {
            assert(rows.take(j as int) =~= rows);
            lemma_filter_has(rows, pred, texts_of(self.clustering_key_columns@));
            lemma_filter_sorted(rows, pred);
        }
        let p = Partition { clustering_key_columns: clone_texts(&self.clustering_key_columns), rows: kept };
        assert(texts_of(p.clustering_key_columns@) == texts_of(self.clustering_key_columns@));
        p
    }
}

impl Table {
    /// Every row of the table, partition by partition, each in clustering-key order.
    pub fn get_vector_of_rows(&self) -> (r: Vec<Vec<(String, String)>>)
        ensures
            rows_views(r@) == all_rows(self.view_parts()),
    {
        let ghost parts = self.view_parts();
        let mut out: Vec<Vec<(String, String)>> = Vec::new();
        let mut i: usize = 0;
        while i < self.partitions.len()
            invariant
                i <= self.partitions@.len(),
                parts == self.view_parts(),
                rows_views(out@) == all_rows(parts.take(i as int)),
            decreases self.partitions@.len() - i,
        {
            assert(parts[i as int].1 == self.partitions@[i as int].1.view_rows());
            let rows = self.partitions[i].1.get_vector_of_rows();
            let ghost before = rows_views(out@);
            let mut j: usize = 0;
            while j < rows.len()
                invariant
                    j <= rows@.len(),
                    i < self.partitions@.len(),
                    rows@.len() == self.partitions@[i as int].1.rows@.len(),
                    parts == self.view_parts(),
                    parts[i as int].1 == self.partitions@[i as int].1.view_rows(),
                    row_values(parts[i as int].1).len() == rows@.len(),
                    forall|x: int| 0 <= x < rows@.len() ==> row_view(#[trigger] rows@[x]@) == self.partitions@[i as int].1.view_rows()[x].1,
                    rows_views(out@) == before + row_values(parts[i as int].1).take(j as int),
                decreases rows@.len() - j,
            {
                let ghost prev = out@;
                out.push(crate::text::clone_pairs(&rows[j]));
                assert(row_values(parts[i as int].1)[j as int] == parts[i as int].1[j as int].1);
                assert(rows_views(out@) =~= before + row_values(parts[i as int].1).take(j + 1)) by {
                    assert(rows_views(out@) =~= rows_views(prev).push(row_view(rows@[j as int]@)));
                }
                j = j + 1;
            }
            proof {
                lemma_all_rows_step(parts, i as int);
                assert(row_values(parts[i as int].1).take(j as int) =~= row_values(parts[i as int].1));
            }
            i = i + 1;
        }
        assert(parts.take(i as int) =~= parts);
        out
    }

    /// The number of rows of the table.
    pub fn len(&self) -> (r: usize)
        ensures
            r == all_rows(self.view_parts()).len(),
    {
        let rows = self.get_vector_of_rows();
        rows.len()
    }

    /// Whether some row of the table equals the given one, pair for pair.
    pub fn contains_row(&self, row: &Vec<(String, String)>) -> (r: bool)
        ensures
            r == all_rows(self.view_parts()).contains(row_view(row@)),
    {
        let rows = self.get_vector_of_rows();
        let ghost all = rows_views(rows@);
        let mut i: usize = 0;
        while i < rows.len()
            invariant
                i <= rows@.len(),
                all == rows_views(rows@),
                all == all_rows(self.view_parts()),
                forall|x: int| 0 <= x < i ==> (#[trigger] all[x]) != row_view(row@),
            decreases rows@.len() - i,
        {
            if rows_equal(&rows[i], row) {
                assert(all[i as int] == row_view(row@));
                return true;
            }
            i = i + 1;
        }
        false
    }

    /// The rows of the partition with the given keys, or none.
    pub fn get_rows_from_partition(&self, partition_keys: &Vec<String>) -> (r: Vec<Vec<(String, String)>>)
        requires
            self.wf(),
        ensures
            match part_index(self.view_parts(), texts_of(partition_keys@)) {
                Some(i) => rows_views(r@) == row_values(self.view_parts()[i].1),
                None => r@.len() == 0,
            },
    {
        match self.find_partition(partition_keys) {
            Some(i) => {
                let rows = self.partitions[i].1.get_vector_of_rows();
                proof {
                    assert(self.view_parts()[i as int].1 == self.partitions@[i as int].1.view_rows());
                    assert(rows_views(rows@) =~= row_values(self.view_parts()[i as int].1));
                }
                rows
            },
            None => Vec::new(),
        }
    }

    /// A copy of the partitions, with their keys.
    pub fn get_partitions(&self) -> (r: Vec<(Vec<String>, Partition)>)
        ensures
            parts_view(r@) == self.view_parts(),
    {
        let mut out: Vec<(Vec<String>, Partition)> = Vec::new();
        let mut i: usize = 0;
        while i < self.partitions.len()
            invariant
                i <= self.partitions@.len(),
                parts_view(out@) == self.view_parts().take(i as int),
            decreases self.partitions@.len() - i,
        {
            let p = self.partitions[i].1.duplicate();
            let k = clone_texts(&self.partitions[i].0);
            let ghost prev = out@;
            out.push((k, p));
            assert(parts_view(out@) =~= self.view_parts().take(i + 1)) by {
                assert(parts_view(out@) =~= parts_view(prev).push(self.view_parts()[i as int]));
            }
            i = i + 1;
        }
        assert(self.view_parts().take(i as int) =~= self.view_parts());
        out
    }

    /// The rows that meet the predicate; none if it cannot be evaluated on some row.
    pub fn select_if(&self, condition: &Expression) -> (r: Vec<Vec<(String, String)>>)
        ensures
            evaluable(all_rows(self.view_parts()), *condition) ==> rows_views(r@) == all_rows(self.view_parts()).filter(meets_row(*condition)),
            !evaluable(all_rows(self.view_parts()), *condition) ==> r@.len() == 0,
    {
        let rows = self.get_vector_of_rows();
        let ghost all = rows_views(rows@);
        let ghost pred = meets_row(*condition);
        let mut out: Vec<Vec<(String, String)>> = Vec::new();
        let mut i: usize = 0;
        while i < rows.len()
            invariant
                i <= rows@.len(),
                all == rows_views(rows@),
                all == all_rows(self.view_parts()),
                pred == meets_row(*condition),
                rows_views(out@) == all.take(i as int).filter(pred),
                forall|x: int| 0 <= x < i ==> (#[trigger] eval(*condition, all[x])) is Some,
            decreases rows@.len() - i,
        {
            assert(all[i as int] == row_view(rows@[i as int]@));
            let res = evaluate_expression(condition, &rows[i]);
            assert(all.take(i + 1).drop_last() =~= all.take(i as int));
            reveal(Seq::filter);
            match res {
                Ok(true) => {
                    let ghost prev = out@;
                    out.push(crate::text::clone_pairs(&rows[i]));
                    assert(rows_views(out@) =~= rows_views(prev).push(all[i as int]));
                },
                Ok(false) => {},
                Err(_) => {
                    return Vec::new();
                },
            }
            i = i + 1;
        }
        assert(all.take(i as int) =~= all);
        out
    }

    /// Rows that hold every pair of the query: those of the partition its partition-key
    /// values name, all of them when the query names nothing else.
    pub fn get_matching_rows(&self, query_values: Vec<(String, String)>) -> (r: Vec<Vec<(String, String)>>)
        requires
            self.wf(),
        ensures
            ({
                let q = row_view(query_values@);
                let pk = present_values(q, self.pk_cols());
                match part_index(self.view_parts(), pk) {
                    Some(i) => if pk.len() == q.len() {
                        rows_views(r@) == row_values(self.view_parts()[i].1)
                    } else {
                        rows_views(r@) == row_values(self.view_parts()[i].1).filter(matching_row(q))
                    },
                    None => r@.len() == 0,
                }
            }),
    {
        let pkeys = present_values_of(&query_values, &self.partition_key_columns);
        let rows = self.get_rows_from_partition(&pkeys);
        if pkeys.len() == query_values.len() {
            return rows;
        }
        let ghost all = rows_views(rows@);
        let ghost pred = matching_row(row_view(query_values@));
        let mut out: Vec<Vec<(String, String)>> = Vec::new();
        let mut i: usize = 0;
        while i < rows.len()
            invariant
                i <= rows@.len(),
                all == rows_views(rows@),
                pred == matching_row(row_view(query_values@)),
                rows_views(out@) == all.take(i as int).filter(pred),
            decreases rows@.len() - i,
        {
            assert(all[i as int] == row_view(rows@[i as int]@));
            let m = row_matches_query(&rows[i], &query_values);
            assert(all.take(i + 1).drop_last() =~= all.take(i as int));
            reveal(Seq::filter);
            if m {
                let ghost prev = out@;
                out.push(crate::text::clone_pairs(&rows[i]));
                assert(rows_views(out@) =~= rows_views(prev).push(all[i as int]));
            }
            i = i + 1;
        }
        assert(all.take(i as int) =~= all);
        proof {
            reveal(Seq::filter);
        }
        out
    }

    /// Removes every row that holds every pair of the query.
    pub fn delete_matching_rows(&mut self, query_values: &Vec<(String, String)>) -> (r: Result<(), TableError>)
        requires
            old(self).wf(),
        ensures
            r is Ok,
            final(self).wf(),
            final(self).pk_cols() == old(self).pk_cols(),
            final(self).ck_cols() == old(self).ck_cols(),
            final(self).columns == old(self).columns,
            final(self).table_name == old(self).table_name,
            same_keys(final(self).view_parts(), old(self).view_parts()),
            forall|i: int| 0 <= i < final(self).view_parts().len() ==> (#[trigger] final(self).view_parts()[i]).1
                == rows_not_matching(old(self).view_parts()[i].1, row_view(query_values@)),
    {
        let ghost parts = self.view_parts();
        let mut new_parts: Vec<(Vec<String>, Partition)> = Vec::new();
        let mut i: usize = 0;
        while i < self.partitions.len()
            invariant
                i <= self.partitions@.len(),
                self.wf(),
                parts == self.view_parts(),
                new_parts@.len() == i,
                forall|x: int| 0 <= x < i ==> {
                    &&& texts_of((#[trigger] new_parts@[x]).0@) == parts[x].0
                    &&& new_parts@[x].1.wf()
                    &&& texts_of(new_parts@[x].1.clustering_key_columns@) == self.ck_cols()
                    &&& rows_have(new_parts@[x].1.view_rows(), self.pk_cols())
                    &&& new_parts@[x].1.view_rows() == rows_not_matching(parts[x].1, row_view(query_values@))
                },
            decreases self.partitions@.len() - i,
        {
            assert(parts[i as int] == (texts_of(self.partitions@[i as int].0@), self.partitions@[i as int].1.view_rows()));
            assert(self.partitions@[i as int].1.wf());
            assert(rows_have(parts[i as int].1, self.pk_cols()));
            let p = self.partitions[i].1.without_matching(query_values);
            proof {
                lemma_filter_has(parts[i as int].1, not_matching(row_view(query_values@)), self.pk_cols());
            }
            new_parts.push((clone_texts(&self.partitions[i].0), p));
            i = i + 1;
        }
        let ghost before = *self;
        self.partitions = new_parts;
        proof {
            assert forall|x: int| 0 <= x < self.view_parts().len() implies (#[trigger] self.view_parts()[x]).0 == parts[x].0 by {
                assert(self.view_parts()[x].0 == texts_of(self.partitions@[x].0@));
            }
            self.lemma_wf_rebuilt(before);
            assert forall|x: int| 0 <= x < self.view_parts().len() implies (#[trigger] self.view_parts()[x]).1 == rows_not_matching(parts[x].1, row_view(query_values@)) by {
                assert(self.view_parts()[x].1 == self.partitions@[x].1.view_rows());
            }
        }
        Ok(())
    }
}

/// Whether two rows hold the same pairs in the same order.
pub fn rows_equal(a: &Vec<(String, String)>, b: &Vec<(String, String)>) -> (r: bool)
    ensures
        r == (row_view(a@) == row_view(b@)),
{
    if a.len() != b.len() {
        return false;
    }
    let mut i: usize = 0;
    while i < a.len()
        invariant
            i <= a@.len(),
            a@.len() == b@.len(),
            row_view(a@).take(i as int) == row_view(b@).take(i as int),
        decreases a@.len() - i,
    {
        assert(row_view(a@)[i as int] == (a@[i as int].0@, a@[i as int].1@));
        assert(row_view(b@)[i as int] == (b@[i as int].0@, b@[i as int].1@));
        if !str_eq(a[i].0.as_str(), b[i].0.as_str()) || !str_eq(a[i].1.as_str(), b[i].1.as_str()) {
            assert(row_view(a@)[i as int] != row_view(b@)[i as int]);
            return false;
        }
        assert(row_view(a@).take(i + 1) =~= row_view(a@).take(i as int).push(row_view(a@)[i as int]));
        assert(row_view(b@).take(i + 1) =~= row_view(b@).take(i as int).push(row_view(b@)[i as int]));
        i = i + 1;
    }
    assert(row_view(a@).take(i as int) =~= row_view(a@));
    assert(row_view(b@).take(i as int) =~= row_view(b@));
    true
}

/// The values the query gives the columns of `cols` that it names, in column order.
fn present_values_of(query: &Vec<(String, String)>, cols: &Vec<String>) -> (r: Vec<String>)
    ensures
        texts_of(r@) == present_values(row_view(query@), texts_of(cols@)),
{
    let mut out: Vec<String> = Vec::new();
    let mut i: usize = 0;
    while i < cols.len()
        invariant
            i <= cols@.len(),
            texts_of(out@) == present_values(row_view(query@), texts_of(cols@).take(i as int)),
        decreases cols@.len() - i,
    {
        assert(texts_of(cols@).take(i + 1).drop_last() =~= texts_of(cols@).take(i as int));
        match row_get(query, cols[i].as_str()) {
            Some(v) => {
                let ghost prev = out@;
                out.push(v);
                assert(texts_of(out@) =~= texts_of(prev).push(v@));
            },
            None => {},
        }
        i = i + 1;
    }
    assert(texts_of(cols@).take(i as int) =~= texts_of(cols@));
    out
}

/// Two partitions of a well-formed table have different keys.
pub proof fn lemma_part_keys_distinct(t: Table, p: int, q: int)
    requires
        t.wf(),
        0 <= p < t.view_parts().len(),
        0 <= q < t.view_parts().len(),
        p != q,
    ensures
        t.view_parts()[p].0 != t.view_parts()[q].0,
{
    if p < q {
        assert(t.view_parts()[p].0 != t.view_parts()[q].0);
    } else {
        assert(t.view_parts()[q].0 != t.view_parts()[p].0);
    }
}

/// A row holding the values of a list of columns holds each of them.
pub proof fn lemma_key_values_present(row: RowView, cols: KeyView, c: int)
    requires
        key_values(row, cols) is Some,
        0 <= c < cols.len(),
    ensures
        row_lookup(row, cols[c]) is Some,
        row_lookup(row, cols[c])->Some_0.len() > 0,
    decreases cols.len(),
{
    if c < cols.len() - 1 {
        assert(cols.drop_last()[c] == cols[c]);
        lemma_key_values_present(row, cols.drop_last(), c);
    }
}

/// Every row of a well-formed table holds every partition-key and clustering-key column
/// of its schema, and none of them is empty.
pub proof fn lemma_rows_hold_key_columns(t: Table, p: int, j: int, c: Seq<char>)
    requires
        t.wf(),
        0 <= p < t.view_parts().len(),
        0 <= j < t.view_parts()[p].1.len(),
        t.pk_cols().contains(c) || t.ck_cols().contains(c),
    ensures
        row_lookup(t.view_parts()[p].1[j].1, c) is Some,
        row_lookup(t.view_parts()[p].1[j].1, c)->Some_0.len() > 0,
{
    assert(t.view_parts()[p] == (texts_of(t.partitions@[p].0@), t.partitions@[p].1.view_rows()));
    assert(t.partitions@[p].1.wf());
    let row = t.view_parts()[p].1[j].1;
    assert(key_values(row, t.pk_cols()) is Some);
    assert(key_values(row, t.ck_cols()) is Some);
    if t.pk_cols().contains(c) {
        let x = choose|x: int| 0 <= x < t.pk_cols().len() && t.pk_cols()[x] == c;
        lemma_key_values_present(row, t.pk_cols(), x);
    } else {
        let x = choose|x: int| 0 <= x < t.ck_cols().len() && t.ck_cols()[x] == c;
        lemma_key_values_present(row, t.ck_cols(), x);
    }
}

/// The first column of the row that the table lacks.
fn first_unknown_column(row: &Vec<(String, String)>, columns: &Vec<(String, String)>) -> (r: Option<String>)
    ensures
        r is None <==> known_columns(row_view(row@), row_view(columns@)),
{
    let ghost rv = row_view(row@);
    let ghost cv = row_view(columns@);
    let mut i: usize = 0;
    while i < row.len()
        invariant
            i <= row@.len(),
            rv == row_view(row@),
            cv == row_view(columns@),
            forall|x: int| 0 <= x < i ==> column_known(cv, (#[trigger] rv[x]).0),
        decreases row@.len() - i,
    {
        let mut j: usize = 0;
        let mut found = false;
        assert(rv[i as int] == (row@[i as int].0@, row@[i as int].1@));
        while j < columns.len()
            invariant
                j <= columns@.len(),
                i < row@.len(),
                rv == row_view(row@),
                cv == row_view(columns@),
                rv[i as int].0 == row@[i as int].0@,
                found ==> column_known(cv, rv[i as int].0),
                !found ==> forall|y: int| 0 <= y < j ==> (#[trigger] cv[y]).0 != rv[i as int].0,
            decreases columns@.len() - j,
        {
            assert(cv[j as int] == (columns@[j as int].0@, columns@[j as int].1@));
            if str_eq(columns[j].0.as_str(), row[i].0.as_str()) {
                found = true;
            }
            j = j + 1;
        }
        if !found {
            proof {
                assert(!column_known(cv, rv[i as int].0));
            }
            return Some(row[i].0.clone());
        }
        i = i + 1;
    }
    None
}

} // verus!
