//! What a node hands over when new nodes join: the partitions it no longer replicates,
//! and the INSERTs that carry their rows to the new nodes that now do.
use vstd::prelude::*;
use crate::consistent_hashing::{keys_hash, ConsistentHash};
use crate::coordinator::has_send;
use crate::expression::row_view;
use crate::gossip::{ids_of, live_entries, GossipInformation};
use crate::query_builder::{insert_message_from_row_and_tablename, insert_text};
use crate::replication_strategy::{min_nat, simple_replicas, ReplicationStrategy};
use crate::table::{KeyView, RowView, Table};
use crate::text::{clone_texts, str_eq, texts_of};

verus! {

/// The Live replicas of a partition under the Simple strategy at factor `k`.
pub open spec fn replicas_of(gossip: Seq<GossipInformation>, k: usize, keys: KeyView) -> Seq<Seq<char>> {
    simple_replicas(keys_hash(keys), ids_of(live_entries(gossip)), min_nat(k as nat, live_entries(gossip).len()))
}

/// The partition keys of a list, as texts.
pub open spec fn keys_of(v: Seq<Vec<String>>) -> Seq<KeyView> {
    v.map_values(|x: Vec<String>| texts_of(x@))
}

/// Whether `id` is among the texts.
fn holds(ids: &Vec<String>, id: &str) -> (r: bool)
    ensures
        r == texts_of(ids@).contains(id@),
{
    let mut i: usize = 0;
    while i < ids.len()
        invariant
            i <= ids@.len(),
            forall|j: int| 0 <= j < i ==> texts_of(ids@)[j] != id@,
        decreases ids@.len() - i,
    {
        if str_eq(ids[i].as_str(), id) {
            assert(texts_of(ids@)[i as int] == id@);
            return true;
        }
        i = i + 1;
    }
    false
}

/// Whether the send `e` moves a row of a handed-over partition to a new replica of it.
pub open spec fn handover_send(
    e: (String, String),
    parts: Seq<(KeyView, Seq<(KeyView, RowView)>)>,
    gossip: Seq<GossipInformation>,
    k: usize,
    own_id: Seq<char>,
    new_ids: Seq<Seq<char>>,
    table_name: Seq<char>,
) -> bool {
    exists|p: int, j: int| 0 <= p < parts.len() && 0 <= j < parts[p].1.len() && !replicas_of(gossip, k, parts[p].0).contains(own_id)
        && new_ids.contains(e.0@) && replicas_of(gossip, k, parts[p].0).contains(e.0@) && e.1@ == insert_text(parts[p].1[j].1, table_name)
}

/// The handover of one table under the Simple strategy at factor `k`: the keys of every
/// partition whose Live replicas no longer include `own_id`, in table order, and for each
/// of their rows an INSERT to every new node among those replicas.
pub fn plan_handover(
    table: &Table,
    table_name: &str,
    replication_factor: usize,
    gossip_table: &[GossipInformation],
    own_id: &str,
    new_ids: &Vec<String>,
) -> (r: (Vec<Vec<String>>, Vec<(String, String)>))
    requires
        table.wf(),
    ensures
        ({
            let parts = table.view_parts();
            let k = replication_factor;
            &&& forall|p: int| 0 <= p < parts.len() ==> (!replicas_of(gossip_table@, k, (#[trigger] parts[p]).0).contains(own_id@)
                <==> keys_of(r.0@).contains(parts[p].0))
            &&& forall|p: int, j: int, n: int| 0 <= p < parts.len() && 0 <= j < parts[p].1.len() && 0 <= n < new_ids@.len()
                && !replicas_of(gossip_table@, k, parts[p].0).contains(own_id@) && replicas_of(gossip_table@, k, parts[p].0).contains(new_ids@[n]@)
                ==> #[trigger] has_send(r.1@, new_ids@[n]@, insert_text((#[trigger] parts[p]).1[j].1, table_name@))
            &&& forall|e: int| 0 <= e < r.1@.len() ==> #[trigger] handover_send(r.1@[e], parts, gossip_table@, k, own_id@, texts_of(new_ids@), table_name@)
        }),
{
    let ghost parts = table.view_parts();
    let ghost k = replication_factor;
    let strategy = ReplicationStrategy::SimpleStrategy { replication_factor };
    let hash = ConsistentHash::new();
    let mut moved: Vec<Vec<String>> = Vec::new();
    let mut sends: Vec<(String, String)> = Vec::new();
    let mut pi: usize = 0;
    while pi < table.partitions.len()
        invariant
            pi <= table.partitions@.len(),
            parts == table.view_parts(),
            strategy == (ReplicationStrategy::SimpleStrategy { replication_factor }),
            forall|p: int| 0 <= p < pi ==> (!replicas_of(gossip_table@, k, (#[trigger] parts[p]).0).contains(own_id@)
                <==> keys_of(moved@).contains(parts[p].0)),
            forall|x: int| 0 <= x < moved@.len() ==> exists|p: int| 0 <= p < pi && parts[p].0 == texts_of((#[trigger] moved@[x])@),
            forall|p: int, j: int, n: int| 0 <= p < pi && 0 <= j < parts[p].1.len() && 0 <= n < new_ids@.len()
                && !replicas_of(gossip_table@, k, parts[p].0).contains(own_id@) && replicas_of(gossip_table@, k, parts[p].0).contains(new_ids@[n]@)
                ==> #[trigger] has_send(sends@, new_ids@[n]@, insert_text((#[trigger] parts[p]).1[j].1, table_name@)),
            forall|e: int| 0 <= e < sends@.len() ==> #[trigger] handover_send(sends@[e], parts, gossip_table@, k, own_id@, texts_of(new_ids@), table_name@),
            k == replication_factor,
            table.wf(),
        decreases table.partitions@.len() - pi,
    {
        let keys = &table.partitions[pi].0;
        assert(parts[pi as int] == (texts_of(keys@), table.partitions@[pi as int].1.view_rows()));
        let replicas = strategy.get_replica_nodes(keys, gossip_table, &hash);
        let ghost rep = replicas_of(gossip_table@, k, parts[pi as int].0);
        assert(texts_of(replicas@) == rep);
        let ghost moved0 = moved@;
        if !holds(&replicas, own_id) {
            moved.push(clone_texts(keys));
            proof {
                assert(keys_of(moved@) =~= keys_of(moved0).push(parts[pi as int].0));
            }
            let rows = &table.partitions[pi].1.rows;
            let mut j: usize = 0;
            while j < rows.len()
                invariant
                    j <= rows@.len(),
                    pi < table.partitions@.len(),
                    *rows == table.partitions@[pi as int].1.rows,
                    parts == table.view_parts(),
                    parts[pi as int].1 == crate::table::rows_view(rows@),
                    texts_of(replicas@) == rep,
                    rep == replicas_of(gossip_table@, k, parts[pi as int].0),
                    !rep.contains(own_id@),
                    forall|p: int, jj: int, n: int| 0 <= p < pi && 0 <= jj < parts[p].1.len() && 0 <= n < new_ids@.len()
                        && !replicas_of(gossip_table@, k, parts[p].0).contains(own_id@) && replicas_of(gossip_table@, k, parts[p].0).contains(new_ids@[n]@)
                        ==> #[trigger] has_send(sends@, new_ids@[n]@, insert_text((#[trigger] parts[p]).1[jj].1, table_name@)),
                    forall|jj: int, n: int| 0 <= jj < j && 0 <= n < new_ids@.len() && rep.contains(new_ids@[n]@)
                        ==> #[trigger] has_send(sends@, new_ids@[n]@, insert_text(parts[pi as int].1[jj].1, table_name@)),
                    forall|e: int| 0 <= e < sends@.len() ==> #[trigger] handover_send(sends@[e], parts, gossip_table@, k, own_id@, texts_of(new_ids@), table_name@),
                decreases rows@.len() - j,
            {
                let stmt = insert_message_from_row_and_tablename(&rows[j].1, table_name);
                assert(parts[pi as int].1[j as int].1 == row_view(rows@[j as int].1@));
                let mut n: usize = 0;
                while n < new_ids.len()
                    invariant
                        n <= new_ids@.len(),
                        j < rows@.len(),
                        pi < table.partitions@.len(),
                        parts == table.view_parts(),
                        parts[pi as int].1 == crate::table::rows_view(rows@),
                        stmt@ == insert_text(parts[pi as int].1[j as int].1, table_name@),
                        texts_of(replicas@) == rep,
                        rep == replicas_of(gossip_table@, k, parts[pi as int].0),
                        !rep.contains(own_id@),
                        forall|p: int, jj: int, m: int| 0 <= p < pi && 0 <= jj < parts[p].1.len() && 0 <= m < new_ids@.len()
                            && !replicas_of(gossip_table@, k, parts[p].0).contains(own_id@) && replicas_of(gossip_table@, k, parts[p].0).contains(new_ids@[m]@)
                            ==> #[trigger] has_send(sends@, new_ids@[m]@, insert_text((#[trigger] parts[p]).1[jj].1, table_name@)),
                        forall|jj: int, m: int| 0 <= jj < j && 0 <= m < new_ids@.len() && rep.contains(new_ids@[m]@)
                            ==> #[trigger] has_send(sends@, new_ids@[m]@, insert_text(parts[pi as int].1[jj].1, table_name@)),
                        forall|m: int| 0 <= m < n && rep.contains(new_ids@[m]@)
                            ==> #[trigger] has_send(sends@, new_ids@[m]@, insert_text(parts[pi as int].1[j as int].1, table_name@)),
                        forall|e: int| 0 <= e < sends@.len() ==> #[trigger] handover_send(sends@[e], parts, gossip_table@, k, own_id@, texts_of(new_ids@), table_name@),
                    decreases new_ids@.len() - n,
                {
                    if holds(&replicas, new_ids[n].as_str()) {
                        let ghost prev = sends@;
                        let e = (new_ids[n].clone(), stmt.clone());
                        let ghost ge = e;
                        sends.push(e);
                        proof {
                            
                            assert(texts_of(new_ids@)[n as int] == new_ids@[n as int]@);
                            assert(texts_of(new_ids@).contains(ge.0@));
                            assert(rep.contains(ge.0@));
                            assert(parts[pi as int].1.len() == rows@.len());
                            assert(ge.1@ == insert_text(parts[pi as int].1[j as int].1, table_name@));
                            assert(parts.len() == table.partitions@.len());
                            assert(0 <= pi < parts.len() && 0 <= j < parts[pi as int].1.len()
                                && !replicas_of(gossip_table@, k, parts[pi as int].0).contains(own_id@)
                                && texts_of(new_ids@).contains(ge.0@) && replicas_of(gossip_table@, k, parts[pi as int].0).contains(ge.0@)
                                && ge.1@ == insert_text(parts[pi as int].1[j as int].1, table_name@));
                            assert(handover_send(ge, parts, gossip_table@, k, own_id@, texts_of(new_ids@), table_name@));
                            assert forall|e2: int| 0 <= e2 < sends@.len() implies #[trigger] handover_send(sends@[e2], parts, gossip_table@, k, own_id@, texts_of(new_ids@), table_name@) by {
                                if e2 < prev.len() {
                                    assert(sends@[e2] == prev[e2]);
                                }
                            }
                            assert(sends@[prev.len() as int] == ge);
                            assert forall|p: int, jj: int, m: int| 0 <= p < pi && 0 <= jj < parts[p].1.len() && 0 <= m < new_ids@.len()
                                && !replicas_of(gossip_table@, k, parts[p].0).contains(own_id@) && replicas_of(gossip_table@, k, parts[p].0).contains(new_ids@[m]@)
                                implies #[trigger] has_send(sends@, new_ids@[m]@, insert_text((#[trigger] parts[p]).1[jj].1, table_name@)) by {
                                crate::coordinator::lemma_send_kept(prev, ge, new_ids@[m]@, insert_text(parts[p].1[jj].1, table_name@));
                            }
                            assert forall|jj: int, m: int| 0 <= jj < j && 0 <= m < new_ids@.len() && rep.contains(new_ids@[m]@)
                                implies #[trigger] has_send(sends@, new_ids@[m]@, insert_text(parts[pi as int].1[jj].1, table_name@)) by {
                                crate::coordinator::lemma_send_kept(prev, ge, new_ids@[m]@, insert_text(parts[pi as int].1[jj].1, table_name@));
                            }
                            assert forall|m: int| 0 <= m < n + 1 && rep.contains(new_ids@[m]@)
                                implies #[trigger] has_send(sends@, new_ids@[m]@, insert_text(parts[pi as int].1[j as int].1, table_name@)) by {
                                if m < n {
                                    crate::coordinator::lemma_send_kept(prev, ge, new_ids@[m]@, insert_text(parts[pi as int].1[j as int].1, table_name@));
                                }
                            }
                        }
                    }
                    n = n + 1;
                }
                j = j + 1;
            }
        }
        proof {
            assert forall|p: int| 0 <= p < pi + 1 implies (!replicas_of(gossip_table@, k, (#[trigger] parts[p]).0).contains(own_id@)
                <==> keys_of(moved@).contains(parts[p].0)) by {
                if p < pi {
                    if keys_of(moved0).contains(parts[p].0) {
                        let w = choose|w: int| 0 <= w < moved0.len() && keys_of(moved0)[w] == parts[p].0;
                        assert(moved@[w] == moved0[w]);
                        assert(keys_of(moved@)[w] == parts[p].0);
                    }
                    if keys_of(moved@).contains(parts[p].0) {
                        let w = choose|w: int| 0 <= w < moved@.len() && keys_of(moved@)[w] == parts[p].0;
                        if w < moved0.len() {
                            assert(moved@[w] == moved0[w]);
                            assert(keys_of(moved0)[w] == parts[p].0);
                        } else {
                            crate::table::lemma_part_keys_distinct(*table, p, pi as int);
                        }
                    }
                } else {
                    if moved@.len() > moved0.len() {
                        assert(keys_of(moved@)[moved0.len() as int] == parts[p].0);
                    } else {
                        assert(moved@ == moved0);
                        if keys_of(moved0).contains(parts[p].0) {
                            let w = choose|w: int| 0 <= w < moved0.len() && keys_of(moved0)[w] == parts[p].0;
                            let q = choose|q: int| 0 <= q < pi && parts[q].0 == texts_of(moved0[w]@);
                            crate::table::lemma_part_keys_distinct(*table, q, p);
                        }
                    }
                }
            }
            assert forall|x: int| 0 <= x < moved@.len() implies exists|p: int| 0 <= p < pi + 1 && parts[p].0 == texts_of((#[trigger] moved@[x])@) by {
                if x < moved0.len() {
                    assert(moved@[x] == moved0[x]);
                    let q = choose|q: int| 0 <= q < pi && parts[q].0 == texts_of(moved0[x]@);
                } else {
                    assert(parts[pi as int].0 == texts_of(moved@[x]@));
                }
            }
        }
        pi = pi + 1;
    }
    (moved, sends)
}

} // verus!
