//! Gossip entries and the merge of a received gossip table into the local one.
use vstd::prelude::*;
use crate::text::{str_eq, str_lt, text_lt, lemma_text_lt_total, lemma_text_lt_transitive, lemma_text_lt_irreflexive};

verus! {

/// What a node knows of one member of the cluster.
#[derive(Debug, Clone, PartialEq)]
pub struct GossipInformation {
    pub node_id: String,
    pub ip: String,
    pub port_native_protocol: String,
    pub port_gossip_query: String,
    /// Seconds since the epoch of the member's last heartbeat.
    pub last_heartbeat: i64,
    /// `Live` or `Dead`.
    pub status: String,
}

impl GossipInformation {
    /// A copy of the entry.
    pub fn duplicate(&self) -> (r: GossipInformation)
        ensures
            r == *self,
    {
        GossipInformation {
            node_id: self.node_id.clone(),
            ip: self.ip.clone(),
            port_native_protocol: self.port_native_protocol.clone(),
            port_gossip_query: self.port_gossip_query.clone(),
            last_heartbeat: self.last_heartbeat,
            status: self.status.clone(),
        }
    }
}

/// The live entries of a gossip table, in order.
pub open spec fn live_entries(t: Seq<GossipInformation>) -> Seq<GossipInformation> {
    t.filter(|g: GossipInformation| g.status@ == "Live"@)
}

/// The live entries of a gossip table, in order.
pub fn get_live_nodes(gossip_table: &[GossipInformation]) -> (r: Vec<GossipInformation>)
    ensures
        r@ == live_entries(gossip_table@),
{
    let mut out: Vec<GossipInformation> = Vec::new();
    let mut i: usize = 0;
    while i < gossip_table.len()
        invariant
            i <= gossip_table@.len(),
            out@ == live_entries(gossip_table@.take(i as int)),
        decreases gossip_table@.len() - i,
    {
        assert(gossip_table@.take(i + 1).drop_last() =~= gossip_table@.take(i as int));
        reveal(Seq::filter);
        if str_eq(gossip_table[i].status.as_str(), "Live") {
            out.push(gossip_table[i].duplicate());
        }
        i = i + 1;
    }
    assert(gossip_table@.take(i as int) =~= gossip_table@);
    out
}

pub open spec fn ids_of(t: Seq<GossipInformation>) -> Seq<Seq<char>> {
    t.map_values(|g: GossipInformation| g.node_id@)
}

/// Entries ordered strictly by node id: in particular, no id twice.
pub open spec fn sorted_ids(t: Seq<GossipInformation>) -> bool {
    forall|i: int, j: int| 0 <= i < j < t.len() ==> text_lt((#[trigger] t[i]).node_id@, (#[trigger] t[j]).node_id@)
}

/// No id twice.
pub open spec fn unique_ids(t: Seq<GossipInformation>) -> bool {
    forall|i: int, j: int| 0 <= i < j < t.len() ==> (#[trigger] t[i]).node_id@ != (#[trigger] t[j]).node_id@
}

pub open spec fn has_id(t: Seq<GossipInformation>, id: Seq<char>) -> bool {
    exists|j: int| 0 <= j < t.len() && (#[trigger] t[j]).node_id@ == id
}

/// An ordered table holds each node id once.
pub proof fn lemma_sorted_unique(t: Seq<GossipInformation>)
    requires
        sorted_ids(t),
    ensures
        unique_ids(t),
{
    assert forall|i: int, j: int| 0 <= i < j < t.len() implies (#[trigger] t[i]).node_id@ != (#[trigger] t[j]).node_id@ by {
        if t[i].node_id@ == t[j].node_id@ {
            lemma_text_lt_irreflexive(t[i].node_id@);
        }
    }
}

/// The entry of `id`, if the table has one.
pub open spec fn entry_of(t: Seq<GossipInformation>, id: Seq<char>) -> Option<GossipInformation> {
    if has_id(t, id) {
        Some(t[choose|j: int| 0 <= j < t.len() && (#[trigger] t[j]).node_id@ == id])
    } else {
        None
    }
}

/// The local entry after a received one: a newer heartbeat brings its heartbeat and status.
pub open spec fn merged_entry(l: Option<GossipInformation>, g: Option<GossipInformation>) -> Option<GossipInformation> {
    match (l, g) {
        (Some(a), Some(b)) => if a.last_heartbeat < b.last_heartbeat {
            Some(GossipInformation { last_heartbeat: b.last_heartbeat, status: b.status, ..a })
        } else {
            Some(a)
        },
        (Some(a), None) => Some(a),
        (None, g) => g,
    }
}

/// What a merge found.
pub struct MergeOutcome {
    /// Received entries of nodes the local table lacked.
    pub new_nodes: Vec<GossipInformation>,
    /// Received entries that bring a node from `Dead` back to `Live`.
    pub revived: Vec<GossipInformation>,
}

pub open spec fn is_revival(l: GossipInformation, g: GossipInformation) -> bool {
    l.last_heartbeat < g.last_heartbeat && l.status@ == "Dead"@ && g.status@ == "Live"@
}

proof fn lemma_sorted_entry(t: Seq<GossipInformation>, j: int)
    requires
        sorted_ids(t),
        0 <= j < t.len(),
    ensures
        entry_of(t, t[j].node_id@) == Some(t[j]),
{
    let id = t[j].node_id@;
    assert(has_id(t, id));
    let c = choose|x: int| 0 <= x < t.len() && (#[trigger] t[x]).node_id@ == id;
    lemma_text_lt_irreflexive(id);
    if c < j {
        assert(text_lt(t[c].node_id@, t[j].node_id@));
    } else if c > j {
        assert(text_lt(t[j].node_id@, t[c].node_id@));
    }
}

proof fn lemma_entry_absent(t: Seq<GossipInformation>, id: Seq<char>)
    requires
        !has_id(t, id),
    ensures
        entry_of(t, id) is None,
{
}

/// In an ordered table, the entry of an id is the one that holds it.
proof fn lemma_entry_at(t: Seq<GossipInformation>, j: int, id: Seq<char>)
    requires
        sorted_ids(t),
        0 <= j < t.len(),
        t[j].node_id@ == id,
    ensures
        entry_of(t, id) == Some(t[j]),
{
    lemma_sorted_entry(t, j);
}

/// Inserting an entry with another id leaves the entries of the other ids as they were.
proof fn lemma_entry_insert(t: Seq<GossipInformation>, i: int, g: GossipInformation, id: Seq<char>)
    requires
        sorted_ids(t),
        sorted_ids(t.insert(i, g)),
        0 <= i <= t.len(),
    ensures
        entry_of(t.insert(i, g), id) == if id == g.node_id@ { Some(g) } else { entry_of(t, id) },
{
    let u = t.insert(i, g);
    if id == g.node_id@ {
        assert(u[i] == g);
        lemma_entry_at(u, i, id);
    } else if has_id(t, id) {
        let j = choose|j: int| 0 <= j < t.len() && (#[trigger] t[j]).node_id@ == id;
        lemma_entry_at(t, j, id);
        if j < i {
            assert(u[j] == t[j]);
            lemma_entry_at(u, j, id);
        } else {
            assert(u[j + 1] == t[j]);
            lemma_entry_at(u, j + 1, id);
        }
    } else {
        if has_id(u, id) {
            let j = choose|j: int| 0 <= j < u.len() && (#[trigger] u[j]).node_id@ == id;
            if j < i {
                assert(t[j] == u[j]);
            } else if j > i {
                assert(t[j - 1] == u[j]);
            }
        }
    }
}

/// Replacing an entry by one with the same id changes that id's entry alone.
proof fn lemma_entry_update(t: Seq<GossipInformation>, i: int, e: GossipInformation, id: Seq<char>)
    requires
        sorted_ids(t),
        0 <= i < t.len(),
        e.node_id@ == t[i].node_id@,
    ensures
        sorted_ids(t.update(i, e)),
        entry_of(t.update(i, e), id) == if id == e.node_id@ { Some(e) } else { entry_of(t, id) },
{
    let u = t.update(i, e);
    assert forall|a: int, b: int| 0 <= a < b < u.len() implies text_lt((#[trigger] u[a]).node_id@, (#[trigger] u[b]).node_id@) by {
        assert(u[a].node_id@ == t[a].node_id@ && u[b].node_id@ == t[b].node_id@);
    }
    if id == e.node_id@ {
        lemma_entry_at(u, i, id);
    } else if has_id(t, id) {
        let j = choose|j: int| 0 <= j < t.len() && (#[trigger] t[j]).node_id@ == id;
        lemma_entry_at(t, j, id);
        assert(u[j] == t[j]);
        lemma_entry_at(u, j, id);
    } else {
        if has_id(u, id) {
            let j = choose|j: int| 0 <= j < u.len() && (#[trigger] u[j]).node_id@ == id;
            assert(j != i);
            assert(t[j] == u[j]);
        }
    }
}

/// The entry of `id` after the received entries `rs` are merged one after another into
/// `l`: each newer heartbeat brings its heartbeat and status, and an unknown node's entry
/// is taken as it comes.
pub open spec fn merged_all(l: Option<GossipInformation>, rs: Seq<GossipInformation>, id: Seq<char>) -> Option<GossipInformation>
    decreases rs.len(),
{
    if rs.len() == 0 {
        l
    } else {
        let prev = merged_all(l, rs.drop_last(), id);
        if rs.last().node_id@ == id {
            merged_entry(prev, Some(rs.last()))
        } else {
            prev
        }
    }
}

proof fn lemma_merged_all_some(l: Option<GossipInformation>, rs: Seq<GossipInformation>, id: Seq<char>)
    requires
        l is Some,
    ensures
        merged_all(l, rs, id) is Some,
    decreases rs.len(),
{
    if rs.len() > 0 {
        lemma_merged_all_some(l, rs.drop_last(), id);
    }
}

proof fn lemma_merged_all_absent(l: Option<GossipInformation>, rs: Seq<GossipInformation>, id: Seq<char>)
    requires
        forall|j: int| 0 <= j < rs.len() ==> (#[trigger] rs[j]).node_id@ != id,
    ensures
        merged_all(l, rs, id) == l,
    decreases rs.len(),
{
    if rs.len() > 0 {
        assert forall|j: int| 0 <= j < rs.drop_last().len() implies (#[trigger] rs.drop_last()[j]).node_id@ != id by {
            assert(rs.drop_last()[j] == rs[j]);
        }
        lemma_merged_all_absent(l, rs.drop_last(), id);
        assert(rs[rs.len() - 1] == rs.last());
    }
}

proof fn lemma_merged_all_origin(rs: Seq<GossipInformation>, id: Seq<char>)
    requires
        merged_all(None, rs, id) is Some,
    ensures
        exists|j: int| 0 <= j < rs.len() && (#[trigger] rs[j]).node_id@ == id,
    decreases rs.len(),
{
    if rs.last().node_id@ == id {
        assert(rs[rs.len() - 1] == rs.last());
    } else {
        lemma_merged_all_origin(rs.drop_last(), id);
        let j = choose|j: int| 0 <= j < rs.drop_last().len() && (#[trigger] rs.drop_last()[j]).node_id@ == id;
        assert(rs[j] == rs.drop_last()[j]);
    }
}

/// Merges a received gossip table into the local one, entry after entry. For every node id
/// the local entry takes a received heartbeat and status when they are newer, and an unknown
/// node's entry is added; the table stays ordered by node id, so no id appears twice, also
/// when the received table repeats an id. Each new node and each peer coming back from
/// `Dead` to `Live` is reported once.
pub fn merge_gossip_tables(local: &mut Vec<GossipInformation>, received: &[GossipInformation]) -> (r: MergeOutcome)
    requires
        sorted_ids(old(local)@),
    ensures
        sorted_ids(final(local)@),
        forall|id: Seq<char>| #[trigger] entry_of(final(local)@, id) == merged_all(entry_of(old(local)@, id), received@, id),
        forall|i: int| 0 <= i < r.new_nodes@.len() ==> received@.contains(#[trigger] r.new_nodes@[i]) && !has_id(old(local)@, r.new_nodes@[i].node_id@),
        forall|i: int| 0 <= i < received@.len() && !has_id(old(local)@, (#[trigger] received@[i]).node_id@)
            ==> has_id(r.new_nodes@, received@[i].node_id@),
        forall|i: int| 0 <= i < r.revived@.len() ==> received@.contains(#[trigger] r.revived@[i]),
        forall|i: int, j: int| 0 <= i < j < r.revived@.len() ==> (#[trigger] r.revived@[i]).node_id@ != (#[trigger] r.revived@[j]).node_id@,
        unique_ids(received@) ==> forall|i: int| 0 <= i < r.revived@.len() ==> entry_of(old(local)@, (#[trigger] r.revived@[i]).node_id@) is Some
            && is_revival(entry_of(old(local)@, r.revived@[i].node_id@)->Some_0, r.revived@[i]),
        unique_ids(received@) ==> forall|i: int| 0 <= i < received@.len() && has_id(old(local)@, (#[trigger] received@[i]).node_id@)
            && is_revival(entry_of(old(local)@, received@[i].node_id@)->Some_0, received@[i]) ==> r.revived@.contains(received@[i]),
{
    let ghost start = local@;
    let mut new_nodes: Vec<GossipInformation> = Vec::new();
    let mut revived: Vec<GossipInformation> = Vec::new();
    let mut k: usize = 0;
    assert(received@.take(0) =~= Seq::<GossipInformation>::empty());
    while k < received.len()
        invariant
            k <= received@.len(),
            sorted_ids(local@),
            forall|id: Seq<char>| #[trigger] entry_of(local@, id) == merged_all(entry_of(start, id), received@.take(k as int), id),
            forall|i: int| 0 <= i < new_nodes@.len() ==> received@.contains(#[trigger] new_nodes@[i]) && !has_id(start, new_nodes@[i].node_id@),
            forall|i: int| 0 <= i < k && !has_id(start, (#[trigger] received@[i]).node_id@) ==> has_id(new_nodes@, received@[i].node_id@),
            forall|i: int| 0 <= i < revived@.len() ==> exists|j: int| 0 <= j < k && received@[j] == #[trigger] revived@[i],
            forall|i: int, j: int| 0 <= i < j < revived@.len() ==> (#[trigger] revived@[i]).node_id@ != (#[trigger] revived@[j]).node_id@,
            unique_ids(received@) ==> forall|i: int| 0 <= i < revived@.len() ==> entry_of(start, (#[trigger] revived@[i]).node_id@) is Some
                && is_revival(entry_of(start, revived@[i].node_id@)->Some_0, revived@[i]),
            unique_ids(received@) ==> forall|i: int| 0 <= i < k && has_id(start, (#[trigger] received@[i]).node_id@)
                && is_revival(entry_of(start, received@[i].node_id@)->Some_0, received@[i]) ==> revived@.contains(received@[i]),
        decreases received@.len() - k,
    {
        let g = &received[k];
        let gid = g.node_id.as_str();
        let ghost before = local@;
        let ghost id0 = g.node_id@;
        let ghost gv = *g;
        proof {
            assert(received@.take(k + 1).drop_last() =~= received@.take(k as int));
            assert(received@.take(k + 1).last() == gv);
            if unique_ids(received@) {
                assert forall|j: int| 0 <= j < received@.take(k as int).len() implies (#[trigger] received@.take(k as int)[j]).node_id@ != id0 by {
                    assert(received@.take(k as int)[j] == received@[j]);
                }
                lemma_merged_all_absent(entry_of(start, id0), received@.take(k as int), id0);
            }
        }
        let mut i: usize = 0;
        while i < local.len()
            invariant
                i <= local@.len(),
                local@ == before,
                sorted_ids(local@),
                gid@ == id0,
                forall|j: int| 0 <= j < i ==> text_lt((#[trigger] local@[j]).node_id@, id0),
            ensures
                i <= local@.len(),
                local@ == before,
                forall|j: int| 0 <= j < i ==> text_lt((#[trigger] local@[j]).node_id@, id0),
                i < local@.len() ==> !text_lt(local@[i as int].node_id@, id0),
            decreases local@.len() - i,
        {
            if !str_lt(local[i].node_id.as_str(), gid) {
                break;
            }
            i = i + 1;
        }
        let found = i < local.len() && str_eq(local[i].node_id.as_str(), gid);
        if found {
            let l = &local[i];
            proof {
                lemma_entry_at(before, i as int, id0);
                if !has_id(start, id0) {
                    lemma_merged_all_origin(received@.take(k as int), id0);
                    let j = choose|j: int| 0 <= j < received@.take(k as int).len() && (#[trigger] received@.take(k as int)[j]).node_id@ == id0;
                    assert(received@.take(k as int)[j] == received@[j]);
                    assert(has_id(new_nodes@, received@[j].node_id@));
                }
            }
            if l.last_heartbeat < g.last_heartbeat {
                let dead = str_eq(l.status.as_str(), "Dead");
                let live = str_eq(g.status.as_str(), "Live");
                let mut listed = false;
                let mut w: usize = 0;
                while w < revived.len()
                    invariant
                        w <= revived@.len(),
                        listed <==> exists|v: int| 0 <= v < w && (#[trigger] revived@[v]).node_id@ == id0,
                        gid@ == id0,
                    decreases revived@.len() - w,
                {
                    if str_eq(revived[w].node_id.as_str(), gid) {
                        listed = true;
                    }
                    w = w + 1;
                }
                if dead && live && !listed {
                    let x = g.duplicate();
                    let ghost rv0 = revived@;
                    revived.push(x);
                    proof {
                        assert(received@[k as int] == x);
                        assert(revived@[revived@.len() - 1] == x);
                        assert forall|y: GossipInformation| rv0.contains(y) implies revived@.contains(y) by {
                            let w2 = choose|w2: int| 0 <= w2 < rv0.len() && rv0[w2] == y;
                            assert(revived@[w2] == y);
                        }
                        assert forall|a: int| 0 <= a < revived@.len() implies exists|j: int| 0 <= j < k + 1 && received@[j] == #[trigger] revived@[a] by {
                            if a < rv0.len() {
                                assert(revived@[a] == rv0[a]);
                            } else {
                                assert(received@[k as int] == revived@[a]);
                            }
                        }
                        assert forall|a: int, b: int| 0 <= a < b < revived@.len() implies (#[trigger] revived@[a]).node_id@ != (#[trigger] revived@[b]).node_id@ by {
                            if b < rv0.len() {
                                assert(revived@[a] == rv0[a] && revived@[b] == rv0[b]);
                            } else {
                                assert(revived@[a] == rv0[a]);
                            }
                        }
                    }
                } else {
                    proof {
                        if unique_ids(received@) && dead && live {
                            let v = choose|v: int| 0 <= v < revived@.len() && (#[trigger] revived@[v]).node_id@ == id0;
                            let j = choose|j: int| 0 <= j < k && received@[j] == #[trigger] revived@[v];
                            assert(received@[j].node_id@ != received@[k as int].node_id@);
                        }
                    }
                }
                let e = GossipInformation {
                    node_id: l.node_id.clone(),
                    ip: l.ip.clone(),
                    port_native_protocol: l.port_native_protocol.clone(),
                    port_gossip_query: l.port_gossip_query.clone(),
                    last_heartbeat: g.last_heartbeat,
                    status: g.status.clone(),
                };
                let ghost ev = e;
                local.set(i, e);
                proof {
                    assert forall|id: Seq<char>| #[trigger] entry_of(local@, id) == merged_all(entry_of(start, id), received@.take(k + 1), id) by {
                        lemma_entry_update(before, i as int, ev, id);
                    }
                }
            } else {
                proof {
                    assert forall|id: Seq<char>| #[trigger] entry_of(local@, id) == merged_all(entry_of(start, id), received@.take(k + 1), id) by {
                    }
                }
            }
        } else {
            proof {
                if i < before.len() {
                    lemma_text_lt_total(before[i as int].node_id@, id0);
                }
                assert(!has_id(before, id0)) by {
                    if has_id(before, id0) {
                        let j = choose|j: int| 0 <= j < before.len() && (#[trigger] before[j]).node_id@ == id0;
                        lemma_text_lt_irreflexive(id0);
                        if j > i {
                            assert(text_lt(before[i as int].node_id@, before[j].node_id@));
                            lemma_text_lt_total(before[i as int].node_id@, id0);
                            if text_lt(id0, before[i as int].node_id@) {
                                lemma_text_lt_transitive(id0, before[i as int].node_id@, id0);
                            }
                        }
                    }
                }
                lemma_entry_absent(before, id0);
                assert(!has_id(start, id0)) by {
                    if has_id(start, id0) {
                        assert(entry_of(start, id0) is Some);
                        lemma_merged_all_some(entry_of(start, id0), received@.take(k as int), id0);
                    }
                }
            }
            let x = g.duplicate();
            let ghost nn0 = new_nodes@;
            new_nodes.push(x);
            proof {
                assert(received@[k as int] == x);
                assert(new_nodes@[new_nodes@.len() - 1] == x);
                assert(has_id(new_nodes@, id0));
                assert forall|y: Seq<char>| has_id(nn0, y) implies has_id(new_nodes@, y) by {
                    let w2 = choose|w2: int| 0 <= w2 < nn0.len() && (#[trigger] nn0[w2]).node_id@ == y;
                    assert(new_nodes@[w2] == nn0[w2]);
                }
                assert forall|a: int| 0 <= a < new_nodes@.len() implies received@.contains(#[trigger] new_nodes@[a]) && !has_id(start, new_nodes@[a].node_id@) by {
                    if a < nn0.len() {
                        assert(new_nodes@[a] == nn0[a]);
                    }
                }
            }
            local.insert(i, GossipInformation {
                node_id: g.node_id.clone(),
                ip: g.ip.clone(),
                port_native_protocol: g.port_native_protocol.clone(),
                port_gossip_query: g.port_gossip_query.clone(),
                last_heartbeat: g.last_heartbeat,
                status: g.status.clone(),
            });
            proof {
                assert(local@ == before.insert(i as int, gv));
                assert forall|a: int, b: int| 0 <= a < b < local@.len() implies text_lt((#[trigger] local@[a]).node_id@, (#[trigger] local@[b]).node_id@) by {
                    if b < i {
                        assert(local@[a] == before[a] && local@[b] == before[b]);
                    } else if b == i {
                        assert(local@[a] == before[a]);
                    } else if a == i {
                        assert(local@[b] == before[b - 1]);
                        lemma_text_lt_total(before[i as int].node_id@, id0);
                        if b - 1 > i {
                            lemma_text_lt_transitive(id0, before[i as int].node_id@, before[b - 1].node_id@);
                        }
                    } else if a < i {
                        assert(local@[a] == before[a] && local@[b] == before[b - 1]);
                    } else {
                        assert(local@[a] == before[a - 1] && local@[b] == before[b - 1]);
                    }
                }
                assert forall|id: Seq<char>| #[trigger] entry_of(local@, id) == merged_all(entry_of(start, id), received@.take(k + 1), id) by {
                    lemma_entry_insert(before, i as int, gv, id);
                }
            }
        }
        k = k + 1;
    }
    assert(received@.take(k as int) =~= received@);
    proof {
        assert forall|a: int| 0 <= a < revived@.len() implies received@.contains(#[trigger] revived@[a]) by {
            let j = choose|j: int| 0 <= j < k && received@[j] == #[trigger] revived@[a];
        }
    }
    MergeOutcome { new_nodes, revived }
}

/// An entry after a gossip tick at time `now`: the node's own entry is Live with a fresh
/// heartbeat; a Live peer silent for more than `dead_after` seconds becomes Dead.
pub open spec fn tick_status_ok(old: GossipInformation, new: GossipInformation, own_id: Seq<char>, now: i64, dead_after: i64) -> bool {
    &&& new.node_id == old.node_id
    &&& new.ip == old.ip
    &&& new.port_native_protocol == old.port_native_protocol
    &&& new.port_gossip_query == old.port_gossip_query
    &&& if old.node_id@ == own_id {
        new.last_heartbeat == now && new.status@ == "Live"@
    } else if old.status@ == "Live"@ && (now as int) - (old.last_heartbeat as int) > dead_after as int {
        new.last_heartbeat == old.last_heartbeat && new.status@ == "Dead"@
    } else {
        new == old
    }
}

/// Whether the entry is a Live peer other than the node itself.
pub open spec fn gossip_target(g: GossipInformation, own_id: Seq<char>) -> bool {
    g.node_id@ != own_id && g.status@ == "Live"@
}

/// One gossip tick: refreshes the node's own entry, marks silent peers Dead, and picks
/// at random a Live peer other than the node to send the table to, if there is one.
pub fn gossip_tick(table: &mut Vec<GossipInformation>, own_id: &str, now: i64, dead_after: i64) -> (r: Option<GossipInformation>)
    requires
        sorted_ids(old(table)@),
    ensures
        sorted_ids(final(table)@),
        final(table)@.len() == old(table)@.len(),
        forall|i: int| 0 <= i < old(table)@.len() ==> tick_status_ok(#[trigger] old(table)@[i], final(table)@[i], own_id@, now, dead_after),
        match r {
            Some(t) => gossip_target(t, own_id@) && final(table)@.contains(t),
            None => forall|i: int| 0 <= i < final(table)@.len() ==> !gossip_target(#[trigger] final(table)@[i], own_id@),
        },
{
    let ghost start = table@;
    let mut i: usize = 0;
    while i < table.len()
        invariant
            i <= table@.len(),
            table@.len() == start.len(),
            forall|j: int| 0 <= j < i ==> tick_status_ok(#[trigger] start[j], table@[j], own_id@, now, dead_after),
            forall|j: int| i <= j < table@.len() ==> table@[j] == start[j],
        decreases table@.len() - i,
    {
        let g = table[i].duplicate();
        if str_eq(g.node_id.as_str(), own_id) {
            let e = GossipInformation { last_heartbeat: now, status: "Live".to_owned(), ..g };
            table.set(i, e);
        } else if str_eq(g.status.as_str(), "Live") && (now as i128) - (g.last_heartbeat as i128) > dead_after as i128 {
            let e = GossipInformation { status: "Dead".to_owned(), ..g };
            table.set(i, e);
        }
        i = i + 1;
    }
    proof {
        assert forall|a: int, b: int| 0 <= a < b < table@.len() implies text_lt((#[trigger] table@[a]).node_id@, (#[trigger] table@[b]).node_id@) by {
            assert(tick_status_ok(start[a], table@[a], own_id@, now, dead_after));
            assert(tick_status_ok(start[b], table@[b], own_id@, now, dead_after));
        }
    }
    let mut candidates: Vec<usize> = Vec::new();
    let mut j: usize = 0;
    while j < table.len()
        invariant
            j <= table@.len(),
            forall|x: int| 0 <= x < candidates@.len() ==> (#[trigger] candidates@[x]) < table@.len() && gossip_target(table@[candidates@[x] as int], own_id@),
            forall|y: int| 0 <= y < j && gossip_target(#[trigger] table@[y], own_id@) ==> candidates@.len() > 0,
        decreases table@.len() - j,
    {
        if !str_eq(table[j].node_id.as_str(), own_id) && str_eq(table[j].status.as_str(), "Live") {
            candidates.push(j);
        }
        j = j + 1;
    }
    if candidates.len() == 0 {
        return None;
    }
    let pick = crate::replication_strategy::random_below(candidates.len());
    let t = table[candidates[pick]].duplicate();
    assert(table@[candidates@[pick as int] as int] == t);
    Some(t)
}

} // verus!
