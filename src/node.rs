//! A node's own state: its identity, gossip table, keyspaces and tables.
use vstd::prelude::*;
use crate::encrypted_table::{fits, EncryptedTable, insert_outcome, update_outcome, delete_outcome};
use crate::expression::{row_view, Expression};
use crate::gossip::{GossipInformation, sorted_ids};
use crate::replication_strategy::{factor_of_text, ReplicationStrategy};
use crate::serde_table::{table_view, table_fits, TableView};
use crate::table::{key_values, values_of, Table, TableError};
use crate::consistent_hashing::{keys_hash, ConsistentHash};
use crate::expression::{extract_value_supposing_column_equals_value, extracted_value};
use crate::replication_strategy::{min_nat, simple_replicas};
use crate::gossip::{ids_of, live_entries, get_live_nodes};
use crate::text::texts_of;
use crate::text::{push_text, str_eq};

verus! {

/// Relies on chrono's `Utc::now().timestamp()`: the current time, in seconds since the epoch.
#[verifier::external_body]
fn now_seconds() -> (r: i64) {
    chrono::Utc::now().timestamp()
}

/// The decimal form of a port.
fn port_text(v: u16) -> (r: String)
    ensures
        r@ == crate::text::decimal_digits(v as nat),
{
    crate::text::decimal_text(v as u64)
}

/// What a node holds.
#[derive(Debug)]
pub struct Node {
    pub id: String,
    pub ip: String,
    pub port_native_protocol: u16,
    pub port_gossip_query: u16,
    pub gossip_table: Vec<GossipInformation>,
    pub keyspaces: Vec<(String, ReplicationStrategy)>,
    pub data: Vec<(String, EncryptedTable)>,
    /// The key the tables are stored under.
    pub key: u64,
}

/// The contents of a new table `keyspace.table`: its schema with `_timestamp` added, and no
/// partitions.
pub open spec fn new_table_view(ks: Seq<char>, t: Seq<char>, pk: Seq<String>, ck: Seq<String>, columns: Seq<(String, String)>) -> TableView {
    TableView {
        name: qualified(ks, t),
        pk: texts_of(pk),
        ck: texts_of(ck),
        columns: row_view(columns).push(("_timestamp"@, "String"@)),
        parts: Seq::empty(),
    }
}

/// `i` is the first table named `name`.
pub open spec fn first_table(data: Seq<(String, EncryptedTable)>, name: Seq<char>, i: int) -> bool {
    0 <= i < data.len() && data[i].0@ == name && forall|j: int| 0 <= j < i ==> (#[trigger] data[j]).0@ != name
}

pub proof fn lemma_first_table_unique(data: Seq<(String, EncryptedTable)>, name: Seq<char>, i: int, j: int)
    requires
        first_table(data, name, i),
        first_table(data, name, j),
    ensures
        i == j,
{
    if i < j {
        assert(data[i].0@ == name);
    } else if j < i {
        assert(data[j].0@ == name);
    }
}

pub proof fn lemma_first_keyspace_unique(ks: Seq<(String, ReplicationStrategy)>, name: Seq<char>, i: int, j: int)
    requires
        first_keyspace(ks, name, i),
        first_keyspace(ks, name, j),
    ensures
        i == j,
{
    if i < j {
        assert(ks[i].0@ == name);
    } else if j < i {
        assert(ks[j].0@ == name);
    }
}

/// `i` is the first keyspace named `name`.
pub open spec fn first_keyspace(ks: Seq<(String, ReplicationStrategy)>, name: Seq<char>, i: int) -> bool {
    0 <= i < ks.len() && ks[i].0@ == name && forall|j: int| 0 <= j < i ==> (#[trigger] ks[j]).0@ != name
}

/// `new` is `old` with the table at `i` replaced; everything else stays.
pub open spec fn only_table_changed(old: Node, new: Node, i: int) -> bool {
    &&& new.data@.len() == old.data@.len()
    &&& new.data@[i].0 == old.data@[i].0
    &&& forall|j: int| 0 <= j < old.data@.len() && j != i ==> new.data@[j] == old.data@[j]
    &&& new.gossip_table == old.gossip_table
    &&& new.keyspaces == old.keyspaces
    &&& new.key == old.key
}

/// The Simple strategy's replicas of the given partition-key values over the Live nodes.
pub open spec fn live_simple_replicas(gossip: Seq<GossipInformation>, k: usize, keys: Seq<Seq<char>>) -> Seq<Seq<char>> {
    simple_replicas(keys_hash(keys), ids_of(live_entries(gossip)), min_nat(k as nat, live_entries(gossip).len()))
}

/// `keyspace.table`.
pub open spec fn qualified(keyspace: Seq<char>, table: Seq<char>) -> Seq<char> {
    keyspace + "."@ + table
}

fn qualified_name(keyspace: &str, table: &str) -> (r: String)
    ensures
        r@ == qualified(keyspace@, table@),
{
    let mut s = keyspace.to_owned();
    push_text(&mut s, ".");
    push_text(&mut s, table);
    s
}

impl Node {
    pub open spec fn wf(&self) -> bool {
        &&& sorted_ids(self.gossip_table@)
        &&& forall|i: int| 0 <= i < self.data@.len() ==> (#[trigger] self.data@[i]).1.wf()
    }

    /// A node that knows only itself, as live now, and has no keyspace or table.
    pub fn new(id: &str, ip: &str, port_native_protocol: u16, port_gossip_query: u16) -> (r: Self)
        ensures
            r.wf(),
            r.id@ == id@,
            r.ip@ == ip@,
            r.port_native_protocol == port_native_protocol,
            r.port_gossip_query == port_gossip_query,
            r.gossip_table@.len() == 1,
            r.gossip_table@[0].node_id@ == id@,
            r.gossip_table@[0].status@ == "Live"@,
            r.keyspaces@.len() == 0,
            r.data@.len() == 0,
    {
        let info = GossipInformation {
            node_id: id.to_owned(),
            ip: ip.to_owned(),
            port_native_protocol: port_text(port_native_protocol),
            port_gossip_query: port_text(port_gossip_query),
            last_heartbeat: now_seconds(),
            status: "Live".to_owned(),
        };
        Node {
            id: id.to_owned(),
            ip: ip.to_owned(),
            port_native_protocol,
            port_gossip_query,
            gossip_table: vec![info],
            keyspaces: Vec::new(),
            data: Vec::new(),
            key: 0,
        }
    }

    /// The same node, storing its tables under `key`.
    pub fn with_key(self, key: u64) -> (r: Self)
        requires
            self.data@.len() == 0,
            self.wf(),
        ensures
            r.key == key,
            r.wf(),
            r.id == self.id,
    {
        Node { key, ..self }
    }

    pub fn get_port_gossip_query(&self) -> (r: u16)
        ensures
            r == self.port_gossip_query,
    {
        self.port_gossip_query
    }

    pub fn get_port_native_protocol(&self) -> (r: u16)
        ensures
            r == self.port_native_protocol,
    {
        self.port_native_protocol
    }

    pub fn get_ip(&self) -> (r: &str)
        ensures
            r@ == self.ip@,
    {
        self.ip.as_str()
    }

    pub fn get_id(&self) -> (r: &str)
        ensures
            r@ == self.id@,
    {
        self.id.as_str()
    }

    /// A copy of the gossip table.
    pub fn get_gossip_table(&self) -> (r: Result<Vec<GossipInformation>, String>)
        ensures
            r is Ok && r->Ok_0@ == self.gossip_table@,
    {
        let mut out: Vec<GossipInformation> = Vec::new();
        let mut i: usize = 0;
        while i < self.gossip_table.len()
            invariant
                i <= self.gossip_table@.len(),
                out@ == self.gossip_table@.take(i as int),
            decreases self.gossip_table@.len() - i,
        {
            out.push(self.gossip_table[i].duplicate());
            assert(out@ =~= self.gossip_table@.take(i + 1));
            i = i + 1;
        }
        assert(self.gossip_table@.take(i as int) =~= self.gossip_table@);
        Ok(out)
    }

    /// Records a keyspace; only the Simple strategy is accepted.
    pub fn create_keyspace(&mut self, keyspace_name: &str, replication_strategy: &str, replication_factor: &str) -> (r: Result<(), String>)
        requires
            old(self).wf(),
        ensures
            final(self).wf(),
            r is Ok <==> replication_strategy@ == "SimpleStrategy"@,
            r is Ok ==> final(self).keyspaces@ == old(self).keyspaces@.push(final(self).keyspaces@.last())
                && final(self).keyspaces@.last().0@ == keyspace_name@
                && final(self).keyspaces@.last().1 == (ReplicationStrategy::SimpleStrategy {
                    replication_factor: factor_of_text(replication_factor@),
                }),
            r is Err ==> final(self).keyspaces@ == old(self).keyspaces@,
    {
        if !str_eq(replication_strategy, "SimpleStrategy") {
            return Err("Invalid replication strategy".to_owned());
        }
        let strategy = ReplicationStrategy::new_simple(replication_factor.to_owned());
        self.keyspaces.push((keyspace_name.to_owned(), strategy));
        Ok(())
    }

    /// Whether a keyspace of that name exists.
    pub fn keyspace_exists(&self, keyspace_name: &str) -> (r: bool)
        ensures
            r == exists|i: int| 0 <= i < self.keyspaces@.len() && (#[trigger] self.keyspaces@[i]).0@ == keyspace_name@,
    {
        let mut i: usize = 0;
        while i < self.keyspaces.len()
            invariant
                i <= self.keyspaces@.len(),
                forall|j: int| 0 <= j < i ==> (#[trigger] self.keyspaces@[j]).0@ != keyspace_name@,
            decreases self.keyspaces@.len() - i,
        {
            if str_eq(self.keyspaces[i].0.as_str(), keyspace_name) {
                return true;
            }
            i = i + 1;
        }
        false
    }

    fn find_table(&self, name: &str) -> (r: Option<usize>)
        ensures
            match r {
                Some(i) => first_table(self.data@, name@, i as int),
                None => forall|j: int| 0 <= j < self.data@.len() ==> (#[trigger] self.data@[j]).0@ != name@,
            },
    {
        let mut i: usize = 0;
        while i < self.data.len()
            invariant
                i <= self.data@.len(),
                forall|j: int| 0 <= j < i ==> (#[trigger] self.data@[j]).0@ != name@,
            decreases self.data@.len() - i,
        {
            if str_eq(self.data[i].0.as_str(), name) {
                return Some(i);
            }
            i = i + 1;
        }
        None
    }

    /// Creates an empty table `keyspace.table`; a schema whose names are too long for the
    /// table's binary form is not created.
    pub fn create_encrypted_table(
        &mut self,
        keyspace_name: &str,
        table_name: &str,
        partition_key_columns: Vec<String>,
        clustering_key_columns: Vec<String>,
        columns: Vec<(String, String)>,
    ) -> (r: bool)
        requires
            old(self).wf(),
        ensures
            final(self).wf(),
            r <==> table_fits(new_table_view(keyspace_name@, table_name@, partition_key_columns@, clustering_key_columns@, columns@)),
            r ==> final(self).data@.len() == old(self).data@.len() + 1 && final(self).data@.drop_last() == old(self).data@
                && final(self).data@.last().0@ == qualified(keyspace_name@, table_name@)
                && final(self).data@.last().1.content() == new_table_view(keyspace_name@, table_name@, partition_key_columns@, clustering_key_columns@, columns@),
            !r ==> final(self).data@ == old(self).data@,
            final(self).gossip_table == old(self).gossip_table,
            final(self).keyspaces == old(self).keyspaces,
    {
        let name = qualified_name(keyspace_name, table_name);
        let ghost pk0 = partition_key_columns@;
        let ghost ck0 = clustering_key_columns@;
        let ghost cols0 = columns@;
        let table = Table::new(name.clone(), partition_key_columns, clustering_key_columns, columns);
        proof {
            let tv = table_view(table);
            let nv = new_table_view(keyspace_name@, table_name@, pk0, ck0, cols0);
            assert(tv.parts =~= nv.parts);
            assert(tv.pk == nv.pk && tv.ck == nv.ck && tv.columns == nv.columns && tv.name == nv.name);
            assert(tv == nv);
        }
        if !fits(&table) {
            return false;
        }
        let encrypted = EncryptedTable::new(table, self.key);
        let ghost before = self.data@;
        self.data.push((name, encrypted));
        assert forall|i: int| 0 <= i < self.data@.len() implies (#[trigger] self.data@[i]).1.wf() by {
            if i < before.len() {
                assert(self.data@[i] == before[i]);
            }
        }
        true
    }

    /// Inserts a row into `keyspace.table`.
    #[verifier::spinoff_prover]
    pub fn insert_row(&mut self, keyspace_name: &str, table_name: &str, values: Vec<(String, String)>) -> (r: Result<(), TableError>)
        requires
            old(self).wf(),
        ensures
            final(self).wf(),
            (forall|j: int| 0 <= j < old(self).data@.len() ==> (#[trigger] old(self).data@[j]).0@ != qualified(keyspace_name@, table_name@))
                ==> r == Err::<(), TableError>(TableError::TableNotFound) && *final(self) == *old(self),
            forall|i: int| #[trigger] first_table(old(self).data@, qualified(keyspace_name@, table_name@), i) ==> only_table_changed(*old(self), *final(self), i)
                && insert_outcome(old(self).data@[i].1, final(self).data@[i].1, row_view(values@), r),
    {
        let name = qualified_name(keyspace_name, table_name);
        match self.find_table(name.as_str()) {
            Some(i) => {
                let ghost before = self.data@;
                assert(before[i as int].1.wf());
                let ghost old_node = *self;
                let r = self.data[i].1.insert(values);
                proof {
                    self.lemma_data_wf(before, i as int);
                    assert forall|i2: int| #[trigger] first_table(before, name@, i2) implies i2 == i by {
                        if i2 < i {
                            assert(before[i2].0@ == name@);
                        } else if i2 > i {
                            assert(before[i as int].0@ == name@);
                        }
                    }
                    assert(self.data@ == before.update(i as int, self.data@[i as int]));
                }
                r
            },
            None => Err(TableError::TableNotFound),
        }
    }

    /// Updates the rows of `keyspace.table` that meet the predicate.
    #[verifier::spinoff_prover]
    pub fn update_row(&mut self, keyspace_name: &str, table_name: &str, values_to_update: Vec<(String, String)>, condition: &Expression) -> (r: Result<(), TableError>)
        requires
            old(self).wf(),
        ensures
            final(self).wf(),
            (forall|j: int| 0 <= j < old(self).data@.len() ==> (#[trigger] old(self).data@[j]).0@ != qualified(keyspace_name@, table_name@))
                ==> r == Err::<(), TableError>(TableError::TableNotFound) && *final(self) == *old(self),
            forall|i: int| #[trigger] first_table(old(self).data@, qualified(keyspace_name@, table_name@), i) ==> only_table_changed(*old(self), *final(self), i)
                && update_outcome(old(self).data@[i].1, final(self).data@[i].1, row_view(values_to_update@), *condition, r),
    {
        let name = qualified_name(keyspace_name, table_name);
        match self.find_table(name.as_str()) {
            Some(i) => {
                let ghost before = self.data@;
                assert(before[i as int].1.wf());
                let ghost old_node = *self;
                let r = self.data[i].1.update(values_to_update, condition);
                proof {
                    self.lemma_data_wf(before, i as int);
                    assert forall|i2: int| #[trigger] first_table(before, name@, i2) implies i2 == i by {
                        if i2 < i {
                            assert(before[i2].0@ == name@);
                        } else if i2 > i {
                            assert(before[i as int].0@ == name@);
                        }
                    }
                    assert(self.data@ == before.update(i as int, self.data@[i as int]));
                }
                r
            },
            None => Err(TableError::TableNotFound),
        }
    }

    /// Removes the rows of `keyspace.table` that meet the predicate.
    #[verifier::spinoff_prover]
    pub fn delete_row(&mut self, keyspace_name: &str, table_name: &str, condition: &Expression) -> (r: Result<(), TableError>)
        requires
            old(self).wf(),
        ensures
            final(self).wf(),
            (forall|j: int| 0 <= j < old(self).data@.len() ==> (#[trigger] old(self).data@[j]).0@ != qualified(keyspace_name@, table_name@))
                ==> r == Err::<(), TableError>(TableError::TableNotFound) && *final(self) == *old(self),
            forall|i: int| #[trigger] first_table(old(self).data@, qualified(keyspace_name@, table_name@), i) ==> only_table_changed(*old(self), *final(self), i)
                && delete_outcome(old(self).data@[i].1, final(self).data@[i].1, *condition, r),
    {
        let name = qualified_name(keyspace_name, table_name);
        match self.find_table(name.as_str()) {
            Some(i) => {
                let ghost before = self.data@;
                assert(before[i as int].1.wf());
                let ghost old_node = *self;
                let r = self.data[i].1.delete(condition);
                proof {
                    self.lemma_data_wf(before, i as int);
                    assert forall|i2: int| #[trigger] first_table(before, name@, i2) implies i2 == i by {
                        if i2 < i {
                            assert(before[i2].0@ == name@);
                        } else if i2 > i {
                            assert(before[i as int].0@ == name@);
                        }
                    }
                    assert(self.data@ == before.update(i as int, self.data@[i as int]));
                }
                r
            },
            None => Err(TableError::TableNotFound),
        }
    }

    /// The table `keyspace.table`, decrypted.
    pub fn get_table(&self, keyspace_name: &str, table_name: &str) -> (r: Option<Table>)
        requires
            self.wf(),
        ensures
            match r {
                Some(t) => t.wf() && exists|j: int| #[trigger] first_table(self.data@, qualified(keyspace_name@, table_name@), j)
                    && table_view(t) == self.data@[j].1.content(),
                None => forall|j: int| 0 <= j < self.data@.len() ==> (#[trigger] self.data@[j]).0@ != qualified(keyspace_name@, table_name@),
            },
    {
        let name = qualified_name(keyspace_name, table_name);
        match self.find_table(name.as_str()) {
            Some(i) => {
                assert(self.data@[i as int].1.wf());
                Some(self.data[i].1.get_table())
            },
            None => None,
        }
    }

    /// The ids of the live nodes.
    pub fn get_all_nodes(&self) -> (r: Vec<String>)
        ensures
            texts_of(r@) == ids_of(live_entries(self.gossip_table@)),
    {
        let live = get_live_nodes(self.gossip_table.as_slice());
        let mut out: Vec<String> = Vec::new();
        let mut i: usize = 0;
        while i < live.len()
            invariant
                i <= live@.len(),
                texts_of(out@) == ids_of(live@.take(i as int)),
            decreases live@.len() - i,
        {
            let ghost prev = out@;
            out.push(live[i].node_id.clone());
            assert(texts_of(out@) =~= ids_of(live@.take(i + 1))) by {
                assert(texts_of(out@) =~= texts_of(prev).push(live@[i as int].node_id@));
            }
            i = i + 1;
        }
        assert(live@.take(i as int) =~= live@);
        out
    }

    /// The replication strategy of a keyspace.
    pub fn find_keyspace(&self, keyspace_name: &str) -> (r: Option<ReplicationStrategy>)
        ensures
            match r {
                Some(s) => exists|i: int| #[trigger] first_keyspace(self.keyspaces@, keyspace_name@, i) && self.keyspaces@[i].1 == s,
                None => forall|i: int| 0 <= i < self.keyspaces@.len() ==> (#[trigger] self.keyspaces@[i]).0@ != keyspace_name@,
            },
    {
        let mut i: usize = 0;
        while i < self.keyspaces.len()
            invariant
                i <= self.keyspaces@.len(),
                forall|j: int| 0 <= j < i ==> (#[trigger] self.keyspaces@[j]).0@ != keyspace_name@,
            decreases self.keyspaces@.len() - i,
        {
            if str_eq(self.keyspaces[i].0.as_str(), keyspace_name) {
                assert(first_keyspace(self.keyspaces@, keyspace_name@, i as int));
                return Some(self.keyspaces[i].1);
            }
            i = i + 1;
        }
        None
    }

    /// The replicas of the partition a predicate `pk = v [AND …]` names, over the live
    /// nodes; none when the predicate has another shape or the keyspace is unknown.
    pub fn get_nodes_for_condition(&self, keyspace_name: &str, condition: &Expression) -> (r: Vec<String>)
        ensures
            extracted_value(*condition) is None ==> r@.len() == 0,
            (forall|i: int| 0 <= i < self.keyspaces@.len() ==> (#[trigger] self.keyspaces@[i]).0@ != keyspace_name@) ==> r@.len() == 0,
            forall|k: int| #[trigger] first_keyspace(self.keyspaces@, keyspace_name@, k) && extracted_value(*condition) is Some
                && self.keyspaces@[k].1 is SimpleStrategy ==> texts_of(r@) == live_simple_replicas(
                self.gossip_table@,
                self.keyspaces@[k].1.factor(),
                seq![extracted_value(*condition)->Some_0],
            ),
            forall|i: int| 0 <= i < r@.len() ==> ids_of(live_entries(self.gossip_table@)).contains(#[trigger] r@[i]@),
    {
        let value = match extract_value_supposing_column_equals_value(condition) {
            Some(v) => v,
            None => return Vec::new(),
        };
        let strategy = match self.find_keyspace(keyspace_name) {
            Some(s) => s,
            None => return Vec::new(),
        };
        let keys = vec![value];
        proof {
            assert(texts_of(keys@) =~= seq![extracted_value(*condition)->Some_0]);
            assert forall|k: int| #[trigger] first_keyspace(self.keyspaces@, keyspace_name@, k) implies self.keyspaces@[k].1 == strategy by {
                let k0 = choose|k0: int| #[trigger] first_keyspace(self.keyspaces@, keyspace_name@, k0) && self.keyspaces@[k0].1 == strategy;
                lemma_first_keyspace_unique(self.keyspaces@, keyspace_name@, k, k0);
            }
        }
        strategy.get_replica_nodes(&keys, self.gossip_table.as_slice(), &ConsistentHash::new())
    }

    /// The replicas of the partition a row belongs to in `keyspace.table`, over the live
    /// nodes: for the Simple strategy, the owner of the row's partition-key values and its
    /// successors. None when the table or keyspace is unknown or the row lacks a key.
    #[verifier::spinoff_prover]
    #[verifier::rlimit(60)]
    pub fn get_nodes_for_insert(&self, keyspace_name: &str, table_name: &str, row_values: &Vec<(String, String)>) -> (r: Vec<String>)
        requires
            self.wf(),
        ensures
            forall|i: int| 0 <= i < r@.len() ==> ids_of(live_entries(self.gossip_table@)).contains(#[trigger] r@[i]@),
            (forall|j: int| 0 <= j < self.data@.len() ==> (#[trigger] self.data@[j]).0@ != qualified(keyspace_name@, table_name@))
                ==> r@.len() == 0,
            forall|i: int, k: int| #[trigger] first_table(self.data@, qualified(keyspace_name@, table_name@), i)
                && #[trigger] first_keyspace(self.keyspaces@, keyspace_name@, k) && self.keyspaces@[k].1 is SimpleStrategy
                && key_values(row_view(row_values@), self.data@[i].1.content().pk) is Some ==> texts_of(r@) == live_simple_replicas(
                self.gossip_table@,
                self.keyspaces@[k].1.factor(),
                key_values(row_view(row_values@), self.data@[i].1.content().pk)->Some_0,
            ),
    {
        let table = match self.get_table(keyspace_name, table_name) {
            Some(t) => t,
            None => return Vec::new(),
        };
        let ghost pkv = table_view(table).pk;
        assert(pkv == texts_of(table.partition_key_columns@));
        let keys = match values_of(row_values, &table.partition_key_columns) {
            Ok(k) => k,
            Err(_) => {
                proof {
                    assert forall|i: int| #[trigger] first_table(self.data@, qualified(keyspace_name@, table_name@), i)
                        implies self.data@[i].1.content().pk == pkv by {
                        let i0 = choose|j: int| #[trigger] first_table(self.data@, qualified(keyspace_name@, table_name@), j) && table_view(table) == self.data@[j].1.content();
                        lemma_first_table_unique(self.data@, qualified(keyspace_name@, table_name@), i, i0);
                    }
                }
                return Vec::new();
            },
        };
        let strategy = match self.find_keyspace(keyspace_name) {
            Some(s) => s,
            None => return Vec::new(),
        };
        proof {
            assert forall|i: int, k: int| #[trigger] first_table(self.data@, qualified(keyspace_name@, table_name@), i)
                && #[trigger] first_keyspace(self.keyspaces@, keyspace_name@, k) implies self.keyspaces@[k].1 == strategy
                && self.data@[i].1.content() == table_view(table) by {
                let k0 = choose|k0: int| #[trigger] first_keyspace(self.keyspaces@, keyspace_name@, k0) && self.keyspaces@[k0].1 == strategy;
                lemma_first_keyspace_unique(self.keyspaces@, keyspace_name@, k, k0);
                let i0 = choose|j: int| #[trigger] first_table(self.data@, qualified(keyspace_name@, table_name@), j) && table_view(table) == self.data@[j].1.content();
                lemma_first_table_unique(self.data@, qualified(keyspace_name@, table_name@), i, i0);
            }
        }
        strategy.get_replica_nodes(&keys, self.gossip_table.as_slice(), &ConsistentHash::new())
    }

    proof fn lemma_data_wf(&self, before: Seq<(String, EncryptedTable)>, i: int)
        requires
            0 <= i < before.len(),
            self.data@ == before.update(i, self.data@[i]),
            self.data@[i].1.wf(),
            forall|j: int| 0 <= j < before.len() ==> (#[trigger] before[j]).1.wf(),
        ensures
            forall|j: int| 0 <= j < self.data@.len() ==> (#[trigger] self.data@[j]).1.wf(),
    {
        assert forall|j: int| 0 <= j < self.data@.len() implies (#[trigger] self.data@[j]).1.wf() by {
            if j != i {
                assert(self.data@[j] == before[j]);
            }
        }
    }
}

} // verus!
