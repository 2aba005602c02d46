//! The coordinator's decisions: which replicas a mutation goes to, and which reply a
//! read repair spreads.
use vstd::prelude::*;
use crate::consistent_hashing::ConsistentHash;
use crate::expression::{extract_value_supposing_column_equals_value, extracted_value, row_lookup, row_get, row_view, Expression};
use crate::gossip::{GossipInformation, ids_of, live_entries};
use crate::consistent_hashing::keys_hash;
use crate::replication_strategy::{min_nat, simple_replicas, ReplicationStrategy};
use crate::text::texts_of;
use crate::query_builder::insert_text;

verus! {

/// Why the coordinator refused a statement.
#[derive(Debug, Clone, Copy, PartialEq, Eq, Structural)]
pub enum CoordinatorError {
    /// The statement cannot be routed: its predicate names no partition key value.
    Invalid,
}

/// The replicas an UPDATE or DELETE goes to: those of the partition key its predicate
/// fixes, on the ring of Live nodes. A predicate not of the shape `pk = v [AND …]` is
/// refused as invalid, and then no replica is sent anything.
pub fn plan_mutation(
    strategy: &ReplicationStrategy,
    condition: &Expression,
    gossip_table: &[GossipInformation],
    hash: &ConsistentHash,
) -> (r: Result<Vec<String>, CoordinatorError>)
    ensures
        r is Err <==> extracted_value(*condition) is None,
        r is Err ==> r == Err::<Vec<String>, CoordinatorError>(CoordinatorError::Invalid),
        r is Ok ==> r->Ok_0@.len() == min_nat(strategy.factor() as nat, live_entries(gossip_table@).len()),
        r is Ok && strategy is SimpleStrategy ==> texts_of(r->Ok_0@) == simple_replicas(
            keys_hash(seq![extracted_value(*condition)->Some_0]),
            ids_of(live_entries(gossip_table@)),
            min_nat(strategy.factor() as nat, live_entries(gossip_table@).len()),
        ),
        r is Ok ==> forall|i: int| 0 <= i < r->Ok_0@.len() ==> ids_of(live_entries(gossip_table@)).contains(#[trigger] r->Ok_0@[i]@),
{
    match extract_value_supposing_column_equals_value(condition) {
        Some(value) => {
            let keys = vec![value];
            assert(texts_of(keys@) =~= seq![extracted_value(*condition)->Some_0]);
            Ok(strategy.get_replica_nodes(&keys, gossip_table, hash))
        },
        None => Err(CoordinatorError::Invalid),
    }
}

/// What chrono reads as a UTC time in `%Y-%m-%d %H:%M:%S`, in seconds since the epoch.
pub uninterp spec fn stamp_of(s: Seq<char>) -> Option<i64>;

/// Relies on chrono's `NaiveDateTime::parse_from_str` with `%Y-%m-%d %H:%M:%S`, then
/// `Utc.from_utc_datetime(..).timestamp()`: the result depends on the text alone.
#[verifier::external_body]
fn parse_timestamp(s: &str) -> (r: Option<i64>)
    ensures
        r == stamp_of(s@),
{
    chrono::NaiveDateTime::parse_from_str(s, "%Y-%m-%d %H:%M:%S").ok().map(
        |dt| chrono::TimeZone::from_utc_datetime(&chrono::Utc, &dt).timestamp(),
    )
}

/// The timestamps of a reply's rows, in order, skipping rows without `_timestamp`.
pub open spec fn reply_stamps(rows: Seq<Seq<(Seq<char>, Seq<char>)>>) -> Seq<Option<i64>>
    decreases rows.len(),
{
    if rows.len() == 0 {
        Seq::empty()
    } else {
        match row_lookup(rows.last(), "_timestamp"@) {
            Some(t) => reply_stamps(rows.drop_last()).push(stamp_of(t)),
            None => reply_stamps(rows.drop_last()),
        }
    }
}

pub open spec fn reply_view(rows: Seq<Vec<(String, String)>>) -> Seq<Seq<(Seq<char>, Seq<char>)>> {
    rows.map_values(|r: Vec<(String, String)>| row_view(r@))
}

/// The outcome of comparing the replies of a read.
pub struct RepairChoice {
    /// The reply to return, and to spread when repairing.
    pub index: usize,
    /// The newest timestamp read, if any was.
    pub newest: Option<i64>,
    /// Whether to repair: every timestamp was readable, and some reply lacks the newest.
    pub repair: bool,
}

/// Whether some reply holds a `_timestamp` that cannot be read.
pub open spec fn unreadable(replies: Seq<Seq<Option<i64>>>) -> bool {
    exists|j: int, k: int| 0 <= j < replies.len() && 0 <= k < replies[j].len() && (#[trigger] replies[j][k]) is None
}

pub open spec fn all_stamps(replies: Seq<Vec<Vec<(String, String)>>>) -> Seq<Seq<Option<i64>>> {
    replies.map_values(|rows: Vec<Vec<(String, String)>>| reply_stamps(reply_view(rows@)))
}

/// The timestamps of a reply's rows, in order.
fn reply_timestamps(rows: &Vec<Vec<(String, String)>>) -> (r: Vec<Option<i64>>)
    ensures
        r@ == reply_stamps(reply_view(rows@)),
{
    let ghost rv = reply_view(rows@);
    let mut out: Vec<Option<i64>> = Vec::new();
    let mut i: usize = 0;
    assert(rv.take(0) =~= Seq::<Seq<(Seq<char>, Seq<char>)>>::empty());
    while i < rows.len()
        invariant
            i <= rows@.len(),
            rv == reply_view(rows@),
            out@ == reply_stamps(rv.take(i as int)),
        decreases rows@.len() - i,
    {
        assert(rv.take(i + 1).drop_last() =~= rv.take(i as int));
        assert(rv[i as int] == row_view(rows@[i as int]@));
        match row_get(&rows[i], "_timestamp") {
            Some(text) => out.push(parse_timestamp(text.as_str())),
            None => {},
        }
        i = i + 1;
    }
    assert(rv.take(i as int) =~= rv);
    out
}

pub open spec fn stamp_views(v: Seq<Vec<Option<i64>>>) -> Seq<Seq<Option<i64>>> {
    v.map_values(|x: Vec<Option<i64>>| x@)
}

/// Picks the reply to return after a read: the first one holding the newest readable
/// `_timestamp` (the first reply when none has one). It is spread to the replicas only
/// when every timestamp could be read and some reply lacks that newest one.
pub fn choose_newest(replies: &Vec<Vec<Vec<(String, String)>>>) -> (r: RepairChoice)
    ensures
        ({
            let s = all_stamps(replies@);
            &&& (replies@.len() > 0 ==> r.index < replies@.len())
            &&& match r.newest {
                Some(m) => {
                    &&& forall|j: int, k: int| 0 <= j < s.len() && 0 <= k < s[j].len() && (#[trigger] s[j][k]) is Some ==> s[j][k]->Some_0 <= m
                    &&& s[r.index as int].contains(Some(m))
                    &&& forall|j: int| 0 <= j < r.index ==> !(#[trigger] s[j]).contains(Some(m))
                },
                None => r.index == 0 && forall|j: int, k: int| 0 <= j < s.len() && 0 <= k < s[j].len() ==> (#[trigger] s[j][k]) is None,
            }
            &&& r.repair <==> !unreadable(s) && r.newest is Some && exists|j: int| 0 <= j < s.len() && !(#[trigger] s[j]).contains(r.newest)
        }),
{
    let ghost s = all_stamps(replies@);
    let mut st: Vec<Vec<Option<i64>>> = Vec::new();
    let mut q: usize = 0;
    while q < replies.len()
        invariant
            q <= replies@.len(),
            s == all_stamps(replies@),
            stamp_views(st@) == s.take(q as int),
        decreases replies@.len() - q,
    {
        let t = reply_timestamps(&replies[q]);
        let ghost prev = st@;
        st.push(t);
        assert(stamp_views(st@) =~= s.take(q + 1)) by {
            assert(stamp_views(st@) =~= stamp_views(prev).push(s[q as int]));
        }
        q = q + 1;
    }
    assert(s.take(q as int) =~= s);
    assert(st@.len() == s.len());
    let mut newest: Option<i64> = None;
    let mut index: usize = 0;
    let mut bad = false;
    let mut j: usize = 0;
    while j < st.len()
        invariant
            j <= st@.len(),
            st@.len() == s.len(),
            stamp_views(st@) == s,
            (s.len() > 0 ==> index < s.len()),
            bad <==> exists|a: int, k: int| 0 <= a < j && 0 <= k < s[a].len() && (#[trigger] s[a][k]) is None,
            match newest {
                Some(m) => {
                    &&& forall|a: int, k: int| 0 <= a < j && 0 <= k < s[a].len() && (#[trigger] s[a][k]) is Some ==> s[a][k]->Some_0 <= m
                    &&& index < j && s[index as int].contains(Some(m))
                    &&& forall|a: int| 0 <= a < index ==> !(#[trigger] s[a]).contains(Some(m))
                },
                None => index == 0 && forall|a: int, k: int| 0 <= a < j && 0 <= k < s[a].len() ==> (#[trigger] s[a][k]) is None,
            },
        decreases st@.len() - j,
    {
        assert(s[j as int] == st@[j as int]@);
        let mut i: usize = 0;
        while i < st[j].len()
            invariant
                j < st@.len(),
                i <= st@[j as int]@.len(),
                st@.len() == s.len(),
                stamp_views(st@) == s,
                s[j as int] == st@[j as int]@,
                (s.len() > 0 ==> index < s.len()),
                bad <==> (exists|a: int, k: int| 0 <= a < j && 0 <= k < s[a].len() && (#[trigger] s[a][k]) is None)
                    || (exists|k: int| 0 <= k < i && (#[trigger] s[j as int][k]) is None),
                match newest {
                    Some(m) => {
                        &&& forall|a: int, k: int| 0 <= a < j && 0 <= k < s[a].len() && (#[trigger] s[a][k]) is Some ==> s[a][k]->Some_0 <= m
                        &&& forall|k: int| 0 <= k < i && (#[trigger] s[j as int][k]) is Some ==> s[j as int][k]->Some_0 <= m
                        &&& index <= j
                        &&& s[index as int].contains(Some(m)) || (index == j && exists|k: int| 0 <= k < i && s[j as int][k] == Some(m))
                        &&& forall|a: int| 0 <= a < index ==> !(#[trigger] s[a]).contains(Some(m))
                    },
                    None => index == 0 && (forall|a: int, k: int| 0 <= a < j && 0 <= k < s[a].len() ==> (#[trigger] s[a][k]) is None)
                        && forall|k: int| 0 <= k < i ==> (#[trigger] s[j as int][k]) is None,
                },
            decreases st@[j as int]@.len() - i,
        {
            let x = st[j][i];
            assert(x == s[j as int][i as int]);
            match x {
                Some(ts) => {
                    let better = match newest {
                        Some(m) => ts > m,
                        None => true,
                    };
                    if better {
                        proof {
                            assert forall|a: int| 0 <= a < j implies !(#[trigger] s[a]).contains(Some(ts)) by {
                                if s[a].contains(Some(ts)) {
                                    let k = choose|k: int| 0 <= k < s[a].len() && s[a][k] == Some(ts);
                                    assert(s[a][k] is Some);
                                }
                            }
                        }
                        newest = Some(ts);
                        index = j;
                    }
                },
                None => {
                    bad = true;
                },
            }
            i = i + 1;
        }
        proof {
            if let Some(m) = newest {
                if !s[index as int].contains(Some(m)) {
                    let k = choose|k: int| 0 <= k < i && s[j as int][k] == Some(m);
                    assert(s[j as int].contains(Some(m)));
                }
            }
        }
        j = j + 1;
    }
    let mut repair = false;
    if !bad {
        if let Some(m) = newest {
            let mut a: usize = 0;
            while a < st.len()
                invariant
                    a <= st@.len(),
                    stamp_views(st@) == s,
                    st@.len() == s.len(),
                    repair <==> exists|b: int| 0 <= b < a && !(#[trigger] s[b]).contains(Some(m)),
                decreases st@.len() - a,
            {
                assert(s[a as int] == st@[a as int]@);
                let mut hit = false;
                let mut k: usize = 0;
                while k < st[a].len()
                    invariant
                        a < st@.len(),
                        k <= st@[a as int]@.len(),
                        s[a as int] == st@[a as int]@,
                        hit <==> exists|c: int| 0 <= c < k && s[a as int][c] == Some(m),
                    decreases st@[a as int]@.len() - k,
                {
                    if st[a][k] == Some(m) {
                        hit = true;
                    }
                    k = k + 1;
                }
                if !hit {
                    repair = true;
                }
                a = a + 1;
            }
        }
    }
    RepairChoice { index, newest, repair }
}

/// Whether `out` sends `statement` to `node`.
pub open spec fn has_send(out: Seq<(String, String)>, node: Seq<char>, statement: Seq<char>) -> bool {
    exists|k: int| 0 <= k < out.len() && out[k].0@ == node && out[k].1@ == statement
}

/// Whether the send `e` is the INSERT of some row of `rows` to some replica.
pub open spec fn repair_send(e: (String, String), rows: Seq<Vec<(String, String)>>, replicas: Seq<String>, table: Seq<char>) -> bool {
    exists|x: int, c: int| 0 <= x < rows.len() && 0 <= c < replicas.len() && e.0@ == replicas[c]@ && e.1@ == insert_text(row_view(rows[x]@), table)
}

pub proof fn lemma_send_kept(out: Seq<(String, String)>, e: (String, String), node: Seq<char>, statement: Seq<char>)
    requires
        has_send(out, node, statement),
    ensures
        has_send(out.push(e), node, statement),
{
    let k = choose|k: int| 0 <= k < out.len() && out[k].0@ == node && out[k].1@ == statement;
    assert(out.push(e)[k] == out[k]);
}

/// The writes of a read repair: when `choice` asks for a repair, every row of the chosen
/// reply, with its `_timestamp`, goes as an INSERT to every replica; otherwise nothing.
pub fn plan_read_repair(
    replies: &Vec<Vec<Vec<(String, String)>>>,
    choice: &RepairChoice,
    table_name: &str,
    replicas: &Vec<String>,
) -> (r: Vec<(String, String)>)
    ensures
        !choice.repair || choice.index >= replies@.len() ==> r@.len() == 0,
        choice.repair && choice.index < replies@.len() ==> {
            let rows = replies@[choice.index as int]@;
            &&& forall|a: int, b: int| 0 <= a < rows.len() && 0 <= b < replicas@.len()
                ==> #[trigger] has_send(r@, replicas@[b]@, insert_text(row_view(rows[a]@), table_name@))
            &&& forall|k: int| 0 <= k < r@.len() ==> #[trigger] repair_send(r@[k], rows, replicas@, table_name@)
        },
{
    let mut out: Vec<(String, String)> = Vec::new();
    if !choice.repair || choice.index >= replies.len() {
        return out;
    }
    let rows = &replies[choice.index];
    let mut a: usize = 0;
    while a < rows.len()
        invariant
            a <= rows@.len(),
            forall|x: int, b: int| 0 <= x < a && 0 <= b < replicas@.len()
                ==> #[trigger] has_send(out@, replicas@[b]@, insert_text(row_view(rows@[x]@), table_name@)),
            forall|k: int| 0 <= k < out@.len() ==> #[trigger] repair_send(out@[k], rows@, replicas@, table_name@),
        decreases rows@.len() - a,
    {
        let statement = crate::query_builder::insert_message_from_row_and_tablename(&rows[a], table_name);
        let mut b: usize = 0;
        while b < replicas.len()
            invariant
                a < rows@.len(),
                b <= replicas@.len(),
                statement@ == insert_text(row_view(rows@[a as int]@), table_name@),
                forall|x: int, c: int| 0 <= x < a && 0 <= c < replicas@.len()
                    ==> #[trigger] has_send(out@, replicas@[c]@, insert_text(row_view(rows@[x]@), table_name@)),
                forall|c: int| 0 <= c < b ==> #[trigger] has_send(out@, replicas@[c]@, insert_text(row_view(rows@[a as int]@), table_name@)),
                forall|k: int| 0 <= k < out@.len() ==> #[trigger] repair_send(out@[k], rows@, replicas@, table_name@),
            decreases replicas@.len() - b,
        {
            let ghost prev = out@;
            let e = (replicas[b].clone(), statement.clone());
            let ghost ge = e;
            out.push(e);
            proof {
                let n = prev.len() as int;
                assert(out@ == prev.push(ge));
                assert(repair_send(ge, rows@, replicas@, table_name@));
                assert forall|k: int| 0 <= k < out@.len() implies #[trigger] repair_send(out@[k], rows@, replicas@, table_name@) by {
                    if k < n {
                        assert(out@[k] == prev[k]);
                    }
                }
                assert forall|x: int, c: int| 0 <= x < a && 0 <= c < replicas@.len()
                    implies #[trigger] has_send(out@, replicas@[c]@, insert_text(row_view(rows@[x]@), table_name@)) by {
                    lemma_send_kept(prev, ge, replicas@[c]@, insert_text(row_view(rows@[x]@), table_name@));
                }
                assert forall|c: int| 0 <= c < b + 1
                    implies #[trigger] has_send(out@, replicas@[c]@, insert_text(row_view(rows@[a as int]@), table_name@)) by {
                    if c < b {
                        lemma_send_kept(prev, ge, replicas@[c]@, insert_text(row_view(rows@[a as int]@), table_name@));
                    } else {
                        assert(out@[n] == ge);
                    }
                }
            }
            b = b + 1;
        }
        a = a + 1;
    }
    out
}

} // verus!
