//! The ring: a 64-bit hash space cut into equal ranges, one per live node in table order.
use vstd::prelude::*;
use crate::gossip::{GossipInformation, ids_of};
use crate::text::texts_of;
use std::hash::{Hash, Hasher};

verus! {

/// What std's `DefaultHasher` gives for the debug form of a partition-key vector.
pub uninterp spec fn keys_hash(keys: Seq<Seq<char>>) -> u64;

/// Relies on std's `DefaultHasher` (fixed keys) over the `{:?}` form of the keys: the
/// result depends on the keys alone.
#[verifier::external_body]
fn hash_keys(keys: &Vec<String>) -> (r: u64)
    ensures
        r == keys_hash(texts_of(keys@)),
{
    let mut hasher = std::collections::hash_map::DefaultHasher::new();
    format!("{:?}", keys).hash(&mut hasher);
    hasher.finish()
}

/// Width of each node's range when the ring holds `n` nodes.
pub open spec fn range_width(n: nat) -> nat {
    0x1_0000_0000_0000_0000nat / n
}

/// Index of the node whose range holds `h`; the few values past the last full range
/// belong to the last node.
pub open spec fn owner_index(h: u64, n: nat) -> nat {
    if n == 0 {
        0
    } else if (h as nat) / range_width(n) < n as int {
        (h as nat) / range_width(n)
    } else {
        (n - 1) as nat
    }
}

/// The node `offset` places after the owner of `h`, around the ring.
pub open spec fn ring_node(h: u64, n: nat, offset: nat) -> nat {
    ((owner_index(h, n) + offset) as int % (n as int)) as nat
}

#[derive(Debug, Clone, Copy)]
pub struct ConsistentHash;

impl ConsistentHash {
    pub fn new() -> (r: Self) {
        ConsistentHash
    }

    /// Hashes a vector of partition keys.
    pub fn hash_vector(&self, partition_keys: &Vec<String>) -> (r: u64)
        ensures
            r == keys_hash(texts_of(partition_keys@)),
    {
        hash_keys(partition_keys)
    }

    /// The id of the node `offset` places after the owner of the keys' hash.
    pub fn get_node_id(
        &self,
        partition_keys: &Vec<String>,
        gossip_table: &[GossipInformation],
        offset: usize,
    ) -> (r: Result<String, String>)
        requires
            gossip_table@.len() > 0,
        ensures
            r is Ok,
            r->Ok_0@ == ids_of(gossip_table@)[ring_node(
                keys_hash(texts_of(partition_keys@)),
                gossip_table@.len(),
                offset as nat,
            ) as int],
    {
        let n = gossip_table.len();
        let hashed = self.hash_vector(partition_keys);
        let width: u128 = 0x1_0000_0000_0000_0000u128 / (n as u128);
        assert(width >= 1) by {
            let ni = n as int;
            assert(0x1_0000_0000_0000_0000int / ni >= 1) by (nonlinear_arith)
                requires
                    1 <= ni <= 0xffff_ffff_ffff_ffffint,
            ;
        }
        let q: u128 = (hashed as u128) / width;
        let owner: usize = if q < n as u128 {
            q as usize
        } else {
            n - 1
        };
        let idx: usize = ((owner as u128 + offset as u128) % (n as u128)) as usize;
        assert(idx < n);
        Ok(gossip_table[idx].node_id.clone())
    }
}

impl Default for ConsistentHash {
    fn default() -> (r: Self) {
        Self::new()
    }
}

} // verus!
