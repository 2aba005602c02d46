//! Replica placement: the owner of a partition plus further nodes of the ring.
use vstd::prelude::*;
use crate::consistent_hashing::{ConsistentHash, keys_hash, ring_node};
use crate::gossip::{GossipInformation, ids_of, live_entries, get_live_nodes};
use crate::text::{str_eq, texts_of};

verus! {

#[derive(Debug, Clone, Copy, PartialEq, Eq, Structural)]
pub enum ReplicationStrategy {
    /// The owner and the nodes that follow it on the ring.
    SimpleStrategy { replication_factor: usize },
    /// The owner and nodes at random distinct offsets from it.
    RandomStrategy { replication_factor: usize },
}

/// The replication factor a text names: a digit or an English word from one to eight;
/// anything else stands for one.
pub open spec fn factor_of_text(s: Seq<char>) -> usize {
    if s == "2"@ || s == "TWO"@ {
        2
    } else if s == "3"@ || s == "THREE"@ {
        3
    } else if s == "4"@ || s == "FOUR"@ {
        4
    } else if s == "5"@ || s == "FIVE"@ {
        5
    } else if s == "6"@ || s == "SIX"@ {
        6
    } else if s == "7"@ || s == "SEVEN"@ {
        7
    } else if s == "8"@ || s == "EIGHT"@ {
        8
    } else {
        1
    }
}

pub fn replication_factor_string_to_usize(replication_factor: &str) -> (r: usize)
    ensures
        r == factor_of_text(replication_factor@),
        1 <= r <= 8,
{
    let s = replication_factor;
    if str_eq(s, "2") || str_eq(s, "TWO") {
        2
    } else if str_eq(s, "3") || str_eq(s, "THREE") {
        3
    } else if str_eq(s, "4") || str_eq(s, "FOUR") {
        4
    } else if str_eq(s, "5") || str_eq(s, "FIVE") {
        5
    } else if str_eq(s, "6") || str_eq(s, "SIX") {
        6
    } else if str_eq(s, "7") || str_eq(s, "SEVEN") {
        7
    } else if str_eq(s, "8") || str_eq(s, "EIGHT") {
        8
    } else {
        1
    }
}

/// Relies on rand's `Rng::random_range` over `0..n`: some index below `n`.
#[verifier::external_body]
pub(crate) fn random_below(n: usize) -> (r: usize)
    requires
        n > 0,
    ensures
        r < n,
{
    rand::Rng::random_range(&mut rand::rng(), 0..n)
}

pub open spec fn min_nat(a: nat, b: nat) -> nat {
    if a < b {
        a
    } else {
        b
    }
}

/// The Simple strategy's replicas: the nodes at offsets `0..count` from the owner.
pub open spec fn simple_replicas(h: u64, ids: Seq<Seq<char>>, count: nat) -> Seq<Seq<char>> {
    Seq::new(count, |i: int| ids[ring_node(h, ids.len(), i as nat) as int])
}

impl ReplicationStrategy {
    pub fn new_simple(replication_factor: String) -> (r: Self)
        ensures
            r == (ReplicationStrategy::SimpleStrategy {
                replication_factor: factor_of_text(replication_factor@),
            }),
    {
        ReplicationStrategy::SimpleStrategy {
            replication_factor: replication_factor_string_to_usize(replication_factor.as_str()),
        }
    }

    pub fn new_random(replication_factor: String) -> (r: Self)
        ensures
            r == (ReplicationStrategy::RandomStrategy {
                replication_factor: factor_of_text(replication_factor@),
            }),
    {
        ReplicationStrategy::RandomStrategy {
            replication_factor: replication_factor_string_to_usize(replication_factor.as_str()),
        }
    }

    pub open spec fn factor(&self) -> usize {
        match self {
            ReplicationStrategy::SimpleStrategy { replication_factor } => *replication_factor,
            ReplicationStrategy::RandomStrategy { replication_factor } => *replication_factor,
        }
    }

    /// The strategy's name.
    pub fn get_name(&self) -> (r: String)
        ensures
            r@ == (match self {
                ReplicationStrategy::SimpleStrategy { .. } => "SimpleStrategy"@,
                ReplicationStrategy::RandomStrategy { .. } => "RandomStrategy"@,
            }),
    {
        broadcast use vstd::string::group_string_axioms;

        match self {
            Self::SimpleStrategy { .. } => "SimpleStrategy".to_string(),
            Self::RandomStrategy { .. } => "RandomStrategy".to_string(),
        }
    }

    pub fn get_replication_factor(&self) -> (r: usize)
        ensures
            r == self.factor(),
    {
        match self {
            Self::SimpleStrategy { replication_factor } => *replication_factor,
            Self::RandomStrategy { replication_factor } => *replication_factor,
        }
    }

    /// The replicas under the Simple strategy: `min(k, N)` nodes, the owner first, then
    /// its successors around the ring.
    fn get_simple_replicas(
        partition_keys: &Vec<String>,
        gossip_table: &[GossipInformation],
        hash: &ConsistentHash,
        replication_factor: usize,
    ) -> (r: Vec<String>)
        ensures
            texts_of(r@) == simple_replicas(
                keys_hash(texts_of(partition_keys@)),
                ids_of(gossip_table@),
                min_nat(replication_factor as nat, gossip_table@.len()),
            ),
    {
        let count = if replication_factor < gossip_table.len() {
            replication_factor
        } else {
            gossip_table.len()
        };
        let ghost h = keys_hash(texts_of(partition_keys@));
        let ghost ids = ids_of(gossip_table@);
        let mut nodes: Vec<String> = Vec::new();
        let mut i: usize = 0;
        while i < count
            invariant
                i <= count,
                count <= gossip_table@.len(),
                count == min_nat(replication_factor as nat, gossip_table@.len()),
                ids == ids_of(gossip_table@),
                h == keys_hash(texts_of(partition_keys@)),
                nodes@.len() == i,
                texts_of(nodes@) == simple_replicas(h, ids, i as nat),
            decreases count - i,
        {
            let id = match hash.get_node_id(partition_keys, gossip_table, i) {
                Ok(id) => id,
                Err(_) => String::new(),
            };
            let ghost prev = nodes@;
            assert(id@ == ids[ring_node(h, ids.len(), i as nat) as int]);
            nodes.push(id);
            assert forall|j: int| 0 <= j < i + 1 implies #[trigger] texts_of(nodes@)[j]
                == simple_replicas(h, ids, (i + 1) as nat)[j] by {
                if j < i {
                    assert(nodes@[j] == prev[j]);
                    assert(texts_of(prev)[j] == simple_replicas(h, ids, i as nat)[j]);
                }
            }
            assert(texts_of(nodes@) =~= simple_replicas(h, ids, (i + 1) as nat));
            i = i + 1;
        }
        nodes
    }

    /// The nodes a statement on the given partition keys goes to, chosen on the ring of
    /// the table's Live entries: `min(k, live nodes)` of them, the owner first.
    pub fn get_replica_nodes(
        &self,
        partition_keys: &Vec<String>,
        gossip_table: &[GossipInformation],
        hash: &ConsistentHash,
    ) -> (r: Vec<String>)
        ensures
            r@.len() == min_nat(self.factor() as nat, live_entries(gossip_table@).len()),
            self is SimpleStrategy ==> texts_of(r@) == simple_replicas(
                keys_hash(texts_of(partition_keys@)),
                ids_of(live_entries(gossip_table@)),
                min_nat(self.factor() as nat, live_entries(gossip_table@).len()),
            ),
            r@.len() > 0 ==> r@[0]@ == ids_of(live_entries(gossip_table@))[ring_node(
                keys_hash(texts_of(partition_keys@)),
                live_entries(gossip_table@).len(),
                0,
            ) as int],
            forall|i: int| 0 <= i < r@.len() ==> ids_of(live_entries(gossip_table@)).contains(#[trigger] r@[i]@),
    {
        let live = get_live_nodes(gossip_table);
        self.replicas_over(partition_keys, live.as_slice(), hash)
    }

    fn replicas_over(
        &self,
        partition_keys: &Vec<String>,
        gossip_table: &[GossipInformation],
        hash: &ConsistentHash,
    ) -> (r: Vec<String>)
        ensures
            r@.len() == min_nat(self.factor() as nat, gossip_table@.len()),
            self is SimpleStrategy ==> texts_of(r@) == simple_replicas(
                keys_hash(texts_of(partition_keys@)),
                ids_of(gossip_table@),
                min_nat(self.factor() as nat, gossip_table@.len()),
            ),
            r@.len() > 0 ==> r@[0]@ == ids_of(gossip_table@)[ring_node(
                keys_hash(texts_of(partition_keys@)),
                gossip_table@.len(),
                0,
            ) as int],
            forall|i: int| 0 <= i < r@.len() ==> ids_of(gossip_table@).contains(#[trigger] r@[i]@),
    {
        let ghost h = keys_hash(texts_of(partition_keys@));
        let ghost ids = ids_of(gossip_table@);
        match self {
            Self::SimpleStrategy { replication_factor } => {
                let r = Self::get_simple_replicas(partition_keys, gossip_table, hash, *replication_factor);
                proof {
                    let count = min_nat(self.factor() as nat, gossip_table@.len());
                    assert(texts_of(r@).len() == count);
                    assert forall|i: int| 0 <= i < r@.len() implies ids.contains(#[trigger] r@[i]@) by {
                        assert(texts_of(r@)[i] == r@[i]@);
                        let k = ring_node(h, ids.len(), i as nat) as int;
                        assert(0 <= k < ids.len());
                        assert(ids[k] == r@[i]@);
                    }
                    if r@.len() > 0 {
                        assert(texts_of(r@)[0] == r@[0]@);
                    }
                }
                r
            },
            Self::RandomStrategy { replication_factor } => {
                let n = gossip_table.len();
                let count = if *replication_factor < n {
                    *replication_factor
                } else {
                    n
                };
                if count == *replication_factor && count < n && count > 0 {
                    // the owner, then distinct offsets drawn from 1..n
                    let mut candidates: Vec<usize> = Vec::new();
                    let mut o: usize = 1;
                    while o < n
                        invariant
                            1 <= o <= n,
                            candidates@.len() == o - 1,
                            forall|j: int| 0 <= j < candidates@.len() ==> 1 <= #[trigger] candidates@[j] < n,
                        decreases n - o,
                    {
                        candidates.push(o);
                        o = o + 1;
                    }
                    let mut nodes: Vec<String> = Vec::new();
                    let first = match hash.get_node_id(partition_keys, gossip_table, 0) {
                        Ok(id) => id,
                        Err(_) => String::new(),
                    };
                    nodes.push(first);
                    while nodes.len() < count
                        invariant
                            1 <= nodes@.len() <= count,
                            count < n,
                            n == gossip_table@.len(),
                            ids == ids_of(gossip_table@),
                            h == keys_hash(texts_of(partition_keys@)),
                            candidates@.len() == n - nodes@.len(),
                            forall|j: int| 0 <= j < candidates@.len() ==> 1 <= #[trigger] candidates@[j] < n,
                            nodes@[0]@ == ids[ring_node(h, n as nat, 0) as int],
                            forall|i: int| 0 <= i < nodes@.len() ==> ids.contains(#[trigger] nodes@[i]@),
                        decreases count - nodes@.len(),
                    {
                        let pick = random_below(candidates.len());
                        let offset = candidates.remove(pick);
                        let id = match hash.get_node_id(partition_keys, gossip_table, offset) {
                            Ok(id) => id,
                            Err(_) => String::new(),
                        };
                        proof {
                            let k = ring_node(h, n as nat, offset as nat) as int;
                            assert(ids[k] == id@);
                        }
                        nodes.push(id);
                    }
                    nodes
                } else {
                    Self::get_simple_replicas_all(partition_keys, gossip_table, hash, count)
                }
            },
        }
    }

    fn get_simple_replicas_all(
        partition_keys: &Vec<String>,
        gossip_table: &[GossipInformation],
        hash: &ConsistentHash,
        count: usize,
    ) -> (r: Vec<String>)
        requires
            count <= gossip_table@.len(),
        ensures
            r@.len() == count,
            r@.len() > 0 ==> r@[0]@ == ids_of(gossip_table@)[ring_node(
                keys_hash(texts_of(partition_keys@)),
                gossip_table@.len(),
                0,
            ) as int],
            forall|i: int| 0 <= i < r@.len() ==> ids_of(gossip_table@).contains(#[trigger] r@[i]@),
    {
        let r = Self::get_simple_replicas(partition_keys, gossip_table, hash, count);
        let ghost h = keys_hash(texts_of(partition_keys@));
        let ghost ids = ids_of(gossip_table@);
        proof {
            assert(texts_of(r@).len() == count);
            assert forall|i: int| 0 <= i < r@.len() implies ids.contains(#[trigger] r@[i]@) by {
                assert(texts_of(r@)[i] == r@[i]@);
                let k = ring_node(h, ids.len(), i as nat) as int;
                assert(ids[k] == r@[i]@);
            }
            if r@.len() > 0 {
                assert(texts_of(r@)[0] == r@[0]@);
            }
        }
        r
    }
}

/// For every partition key and live table, the Simple strategy at factor `k` returns
/// `min(k, N)` replicas and the first is the node whose ring range holds the key's hash.
pub proof fn lemma_simple_replica_set(h: u64, ids: Seq<Seq<char>>, k: nat)
    ensures
        simple_replicas(h, ids, min_nat(k, ids.len())).len() == min_nat(k, ids.len()),
        min_nat(k, ids.len()) > 0 ==> simple_replicas(h, ids, min_nat(k, ids.len()))[0] == ids[ring_node(
            h,
            ids.len(),
            0,
        ) as int],
{
}

} // verus!
