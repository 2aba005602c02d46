//! CQL statements built from stored data.
use vstd::prelude::*;
use crate::expression::row_view;
use crate::text::{push_char, push_text, texts_of};
use crate::replication_strategy::ReplicationStrategy;
use crate::table::Table;

verus! {

/// The column names of the row, separated by `, `.
pub open spec fn joined_columns(row: Seq<(Seq<char>, Seq<char>)>) -> Seq<char>
    decreases row.len(),
{
    if row.len() == 0 {
        Seq::empty()
    } else if row.len() == 1 {
        row[0].0
    } else {
        joined_columns(row.drop_last()) + ", "@ + row.last().0
    }
}

/// The values of the row, each in single quotes, separated by `, `.
pub open spec fn joined_values(row: Seq<(Seq<char>, Seq<char>)>) -> Seq<char>
    decreases row.len(),
{
    if row.len() == 0 {
        Seq::empty()
    } else if row.len() == 1 {
        seq!['\''] + row[0].1 + seq!['\'']
    } else {
        joined_values(row.drop_last()) + ", "@ + seq!['\''] + row.last().1 + seq!['\'']
    }
}

/// `INSERT INTO <table> (<columns>) VALUES ('<values>');` for a row, in its column order.
pub open spec fn insert_text(row: Seq<(Seq<char>, Seq<char>)>, table: Seq<char>) -> Seq<char> {
    "INSERT INTO "@ + table + " ("@ + joined_columns(row) + ") "@ + "VALUES ("@ + joined_values(row) + ");"@
}

/// `INSERT INTO <table> (<columns>) VALUES ('<values>');` for the row, in its column order.
pub fn insert_message_from_row_and_tablename(row: &Vec<(String, String)>, table_name: &str) -> (r: String)
    ensures
        r@ == insert_text(row_view(row@), table_name@),
{
    let ghost rv = row_view(row@);
    let mut insert_str = "INSERT INTO ".to_owned();
    push_text(&mut insert_str, table_name);
    push_text(&mut insert_str, " (");
    let ghost head = insert_str@;
    let mut values_str = "VALUES (".to_owned();
    let mut i: usize = 0;
    while i < row.len()
        invariant
            i <= row@.len(),
            rv == row_view(row@),
            insert_str@ == head + joined_columns(rv.take(i as int)),
            values_str@ == "VALUES ("@ + joined_values(rv.take(i as int)),
        decreases row@.len() - i,
    {
        assert(rv[i as int] == (row@[i as int].0@, row@[i as int].1@));
        assert(rv.take(i + 1).drop_last() =~= rv.take(i as int));
        if i > 0 {
            push_text(&mut insert_str, ", ");
            push_text(&mut values_str, ", ");
        }
        push_text(&mut insert_str, row[i].0.as_str());
        push_char(&mut values_str, '\'');
        push_text(&mut values_str, row[i].1.as_str());
        push_char(&mut values_str, '\'');
        i = i + 1;
        proof {
            if i == 1 {
                assert(rv.take(0) =~= Seq::<(Seq<char>, Seq<char>)>::empty());
            }
        }
        assert(insert_str@ =~= head + joined_columns(rv.take(i as int)));
        assert(values_str@ =~= "VALUES ("@ + joined_values(rv.take(i as int)));
    }
    assert(rv.take(i as int) =~= rv);
    push_text(&mut insert_str, ") ");
    push_text(&mut values_str, ");");
    push_text(&mut insert_str, values_str.as_str());
    insert_str
}

fn decimal(n: usize) -> (r: String)
    ensures
        r@ == crate::text::decimal_digits(n as nat),
{
    crate::text::decimal_text(n as u64)
}

/// `CREATE KEYSPACE <name> WITH REPLICATION = {'class': '<strategy>', 'replication_factor': <n>};`
pub fn create_keyspace_query(keyspace_name: &str, replication_strategy: ReplicationStrategy) -> (r: String)
    ensures
        r@ == "CREATE KEYSPACE "@ + keyspace_name@ + " WITH REPLICATION = {'class': '"@ + (match replication_strategy {
            ReplicationStrategy::SimpleStrategy { .. } => "SimpleStrategy"@,
            ReplicationStrategy::RandomStrategy { .. } => "RandomStrategy"@,
        }) + "', 'replication_factor': "@ + crate::text::decimal_digits(replication_strategy.factor() as nat) + "};"@,
{
    let mut q = "CREATE KEYSPACE ".to_owned();
    push_text(&mut q, keyspace_name);
    push_text(&mut q, " WITH REPLICATION = {'class': '");
    let name = replication_strategy.get_name();
    push_text(&mut q, name.as_str());
    push_text(&mut q, "', 'replication_factor': ");
    let rf = decimal(replication_strategy.get_replication_factor());
    push_text(&mut q, rf.as_str());
    push_text(&mut q, "};");
    q
}

/// A text after its first `.`, up to the next `.`.
pub open spec fn second_part(s: Seq<char>) -> Seq<char>
    decreases s.len(),
{
    if s.len() == 0 {
        s
    } else if s[0] == '.' {
        crate::encrypted_table::before_dot(s.drop_first())
    } else {
        second_part(s.drop_first())
    }
}

/// The names of `l`, each followed by `sep` but the last, which `last` follows.
pub open spec fn listed(l: Seq<Seq<char>>, sep: Seq<char>, last: Seq<char>) -> Seq<char>
    decreases l.len(),
{
    if l.len() == 0 {
        Seq::empty()
    } else if l.len() == 1 {
        l[0] + last
    } else {
        l[0] + sep + listed(l.drop_first(), sep, last)
    }
}

/// `<name> <type>,` for each column.
pub open spec fn column_defs(c: Seq<(Seq<char>, Seq<char>)>) -> Seq<char>
    decreases c.len(),
{
    if c.len() == 0 {
        Seq::empty()
    } else {
        column_defs(c.drop_last()) + c.last().0 + " "@ + c.last().1 + ","@
    }
}

/// Each name of `l` after `, `.
pub open spec fn prefixed(l: Seq<Seq<char>>) -> Seq<char>
    decreases l.len(),
{
    if l.len() == 0 {
        Seq::empty()
    } else {
        ", "@ + l[0] + prefixed(l.drop_first())
    }
}

fn push_prefixed(q: &mut String, l: &Vec<String>)
    ensures
        final(q)@ == old(q)@ + prefixed(texts_of(l@)),
{
    let ghost t = texts_of(l@);
    let ghost start = q@;
    let mut i: usize = 0;
    assert(t.skip(0) =~= t);
    while i < l.len()
        invariant
            i <= l@.len(),
            t == texts_of(l@),
            q@ + prefixed(t.skip(i as int)) == start + prefixed(t),
        decreases l@.len() - i,
    {
        assert(t.skip(i as int)[0] == l@[i as int]@);
        assert(t.skip(i as int).drop_first() =~= t.skip(i + 1));
        push_text(q, ", ");
        push_text(q, l[i].as_str());
        i = i + 1;
        assert(q@ + prefixed(t.skip(i as int)) =~= start + prefixed(t));
    }
    assert(t.skip(i as int) =~= Seq::<Seq<char>>::empty());
    assert(q@ =~= start + prefixed(t));
}

fn push_listed(q: &mut String, l: &Vec<String>, sep: &str, last: &str)
    ensures
        final(q)@ == old(q)@ + listed(texts_of(l@), sep@, last@),
{
    let ghost t = texts_of(l@);
    let ghost start = q@;
    let mut i: usize = 0;
    assert(t.skip(0) =~= t);
    while i < l.len()
        invariant
            i <= l@.len(),
            t == texts_of(l@),
            q@ + listed(t.skip(i as int), sep@, last@) == start + listed(t, sep@, last@),
        decreases l@.len() - i,
    {
        assert(t.skip(i as int)[0] == l@[i as int]@);
        assert(t.skip(i as int).drop_first() =~= t.skip(i + 1));
        push_text(q, l[i].as_str());
        if i + 1 < l.len() {
            push_text(q, sep);
        } else {
            push_text(q, last);
        }
        i = i + 1;
        proof {
            if i == l@.len() {
                assert(t.skip(i as int) =~= Seq::<Seq<char>>::empty());
            }
        }
        assert(q@ + listed(t.skip(i as int), sep@, last@) =~= start + listed(t, sep@, last@));
    }
    assert(t.skip(i as int) =~= Seq::<Seq<char>>::empty());
    assert(q@ =~= start + listed(t, sep@, last@));
}

/// The statement that creates the table on another node: its name after the keyspace,
/// its columns with their types, then `PRIMARY KEY ((<pk>, …), <ck>, …)`.
pub fn create_table_query(table: &Table) -> (r: String)
    ensures
        r@ == "CREATE TABLE "@ + second_part(table.table_name@) + " ("@ + column_defs(row_view(table.columns@))
            + " PRIMARY KEY (("@ + listed(texts_of(table.partition_key_columns@), ", "@, ")"@)
            + prefixed(texts_of(table.clustering_key_columns@)) + "));"@,
{
    let cs = crate::text::chars_vec(table.table_name.as_str());
    let mut i: usize = 0;
    assert(cs@.skip(0) =~= cs@);
    while i < cs.len() && cs[i] != '.'
        invariant
            i <= cs@.len(),
            second_part(cs@) == second_part(cs@.skip(i as int)),
        decreases cs@.len() - i,
    {
        assert(cs@.skip(i as int).drop_first() =~= cs@.skip(i + 1));
        i = i + 1;
    }
    let mut name: Vec<char> = Vec::new();
    let mut j: usize = if i < cs.len() { i + 1 } else { i };
    let ghost from = j as int;
    while j < cs.len() && cs[j] != '.'
        invariant
            from <= j <= cs@.len(),
            0 <= from <= cs@.len(),
            name@ == cs@.subrange(from, j as int),
            forall|x: int| from <= x < j ==> cs@[x] != '.',
        decreases cs@.len() - j,
    {
        name.push(cs[j]);
        j = j + 1;
        assert(name@ =~= cs@.subrange(from, j as int));
    }
    proof {
        assert(cs@ == table.table_name@);
        if i < cs@.len() {
            assert(cs@.skip(i as int).drop_first() =~= cs@.skip(from));
            crate::encrypted_table::lemma_before_dot_public(cs@.skip(from), j - from);
            assert(cs@.skip(from).take(j - from) =~= cs@.subrange(from, j as int));
        } else {
            assert(cs@.skip(i as int) =~= Seq::<char>::empty());
            assert(name@ =~= Seq::<char>::empty());
        }
    }
    let mut q = "CREATE TABLE ".to_owned();
    push_text(&mut q, crate::text::string_of_chars(&name).as_str());
    push_text(&mut q, " (");
    let ghost head = q@;
    let cols = table.get_columns();
    let mut k: usize = 0;
    while k < cols.len()
        invariant
            k <= cols@.len(),
            q@ == head + column_defs(row_view(cols@).take(k as int)),
        decreases cols@.len() - k,
    {
        assert(row_view(cols@).take(k + 1).drop_last() =~= row_view(cols@).take(k as int));
        assert(row_view(cols@)[k as int] == (cols@[k as int].0@, cols@[k as int].1@));
        push_text(&mut q, cols[k].0.as_str());
        push_text(&mut q, " ");
        push_text(&mut q, cols[k].1.as_str());
        push_text(&mut q, ",");
        k = k + 1;
        assert(q@ =~= head + column_defs(row_view(cols@).take(k as int)));
    }
    assert(row_view(cols@).take(k as int) =~= row_view(cols@));
    push_text(&mut q, " PRIMARY KEY ((");
    push_listed(&mut q, &table.partition_key_columns, ", ", ")");
    push_prefixed(&mut q, &table.clustering_key_columns);
    push_text(&mut q, "));");
    q
}

} // verus!
