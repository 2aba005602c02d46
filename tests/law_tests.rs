use cassandra_node::consistency::Consistency;
use cassandra_node::consistency_level::ConsistencyLevel;
use cassandra_node::consistent_hashing::ConsistentHash;
use cassandra_node::coordinator::{choose_newest, plan_mutation, plan_read_repair, CoordinatorError};
use cassandra_node::encrypted_table::EncryptedTable;
use cassandra_node::expression::{evaluate_expression, extract_value_supposing_column_equals_value, Expression, Operand};
use cassandra_node::gossip::{gossip_tick, merge_gossip_tables, GossipInformation};
use cassandra_node::internal_protocol::{add_hint, record_delivery, remove_delivered, InternalMessage};
use cassandra_node::node::Node;
use cassandra_node::notation::{read_string, write_string, ByteReader};
use cassandra_node::replication_strategy::ReplicationStrategy;
use cassandra_node::security::{decrypt, encrypt, mod_exp, EncryptionHandler};
use cassandra_node::table::Table;
use cassandra_node::reassignment::plan_handover;

fn entry(id: &str, beat: i64, status: &str) -> GossipInformation {
    GossipInformation {
        node_id: id.to_string(),
        ip: "127.0.0.1".to_string(),
        port_native_protocol: "9042".to_string(),
        port_gossip_query: "7000".to_string(),
        last_heartbeat: beat,
        status: status.to_string(),
    }
}

fn sample_table() -> Table {
    let mut t = Table::new(
        "ks.t".to_string(),
        vec!["id".to_string()],
        vec!["c".to_string()],
        vec![("id".to_string(), "int".to_string()), ("c".to_string(), "int".to_string()), ("v".to_string(), "text".to_string())],
    );
    t.insert(vec![("id".to_string(), "1".to_string()), ("c".to_string(), "2".to_string()), ("v".to_string(), "x".to_string())]).unwrap();
    t.insert(vec![("id".to_string(), "1".to_string()), ("c".to_string(), "1".to_string()), ("v".to_string(), "y".to_string())]).unwrap();
    t.insert(vec![("id".to_string(), "2".to_string()), ("c".to_string(), "1".to_string()), ("v".to_string(), "z".to_string())]).unwrap();
    t
}

#[test]
fn table_bytes_round_trip() {
    let t = sample_table();
    let bytes = t.to_bytes();
    let back = Table::from_bytes(&bytes).unwrap();
    assert_eq!(back.table_name, t.table_name);
    assert_eq!(back.columns, t.columns);
    assert_eq!(back.get_vector_of_rows(), t.get_vector_of_rows());
    assert_eq!(bytes[0..2], [0, 4]);
}

#[test]
fn table_bytes_truncated_is_refused() {
    let t = sample_table();
    let bytes = t.to_bytes();
    assert!(Table::from_bytes(&bytes[..bytes.len() - 1]).is_err());
}

#[test]
fn encrypted_table_keeps_rows() {
    let t = sample_table();
    let rows = t.get_vector_of_rows();
    let mut e = EncryptedTable::new(t, 12345);
    assert_eq!(e.get_table().get_vector_of_rows(), rows);
    assert_eq!(e.get_keyspace_name(), "ks");
    e.insert(vec![("id".to_string(), "3".to_string()), ("c".to_string(), "1".to_string())]).unwrap();
    assert_eq!(e.get_table().len(), 4);
}

#[test]
fn cipher_round_trip_and_changes_bytes() {
    let data = b"hello table".to_vec();
    let enc = encrypt(&data, 0x1234_5677);
    assert_ne!(enc, data);
    assert_eq!(decrypt(&enc, 0x1234_5677), data);
    assert_eq!(encrypt(&[0u8], 0), vec![0xFF]);
}

#[test]
fn modular_power() {
    assert_eq!(mod_exp(5, 3, 13), 8);
    assert_eq!(mod_exp(2, 10, 1000), 24);
    assert_eq!(mod_exp(7, 0, 5), 1);
}

#[test]
fn handshake_agrees_on_key() {
    let mut server = EncryptionHandler::new(23, 5);
    let (server_public, prime, base) = server.get_dh_params();
    assert_eq!((prime, base), (23, 5));
    let (_client, client_public, shared) = EncryptionHandler::new_initialized(prime, base, server_public);
    assert!(server.attempt_initialize(client_public, shared));
    assert!(server.private_key >= 1 && server.private_key < 100_000);
}

#[test]
fn simple_replicas_count_and_owner() {
    let table = vec![entry("a", 1, "Live"), entry("b", 1, "Live"), entry("c", 1, "Live")];
    let hash = ConsistentHash::new();
    let keys = vec!["10".to_string()];
    let s = ReplicationStrategy::new_simple("2".to_string());
    let replicas = s.get_replica_nodes(&keys, &table, &hash);
    assert_eq!(replicas.len(), 2);
    assert_eq!(replicas[0], hash.get_node_id(&keys, &table, 0).unwrap());
    assert_ne!(replicas[0], replicas[1]);
    let big = ReplicationStrategy::new_simple("EIGHT".to_string());
    assert_eq!(big.get_replica_nodes(&keys, &table, &hash).len(), 3);
    assert_eq!(hash.hash_vector(&keys), hash.hash_vector(&keys));
    assert_ne!(hash.hash_vector(&keys), hash.hash_vector(&vec!["11".to_string()]));
}

#[test]
fn random_replicas_are_distinct() {
    let table = vec![entry("a", 1, "Live"), entry("b", 1, "Live"), entry("c", 1, "Live"), entry("d", 1, "Live")];
    let hash = ConsistentHash::new();
    let keys = vec!["7".to_string()];
    let s = ReplicationStrategy::new_random("3".to_string());
    let replicas = s.get_replica_nodes(&keys, &table, &hash);
    assert_eq!(replicas.len(), 3);
    assert_eq!(replicas[0], hash.get_node_id(&keys, &table, 0).unwrap());
    assert!(replicas[0] != replicas[1] && replicas[1] != replicas[2] && replicas[0] != replicas[2]);
}

#[test]
fn quorum_needs_majority() {
    let q = Consistency::from_consistency_level(ConsistencyLevel::Quorum);
    assert_eq!(q.required_nodes(3), 2);
    assert_eq!(q.required_nodes(4), 3);
    let replies = vec![Ok("a\0".to_string()), Err("down".to_string()), Ok("b".to_string())];
    assert_eq!(q.check_consistency_level(&replies, 3), Ok(vec!["a".to_string(), "b".to_string()]));
    let replies = vec![Ok("a".to_string()), Err("down".to_string()), Err("down".to_string())];
    assert!(q.check_consistency_level(&replies, 3).is_err());
    let all = Consistency::from_consistency_level(ConsistencyLevel::All);
    assert_eq!(all.required_nodes(3), 3);
    assert_eq!(Consistency::from_consistency_level(ConsistencyLevel::Two), Consistency::One);
}

#[test]
fn level_names_in_any_case() {
    assert_eq!(ConsistencyLevel::from_str_to_enum("QUORUM"), ConsistencyLevel::Quorum);
    assert_eq!(ConsistencyLevel::from_str_to_enum("LocalOne"), ConsistencyLevel::LocalOne);
    assert_eq!(ConsistencyLevel::from_str_to_enum("nope"), ConsistencyLevel::Any);
    assert_eq!(ConsistencyLevel::from_value(5), ConsistencyLevel::All);
    assert_eq!(ConsistencyLevel::All.value(), 5);
}

#[test]
fn gossip_merge_keeps_ids_sorted_and_unique() {
    let mut local = vec![entry("b", 10, "Dead"), entry("d", 10, "Live")];
    let received = vec![entry("c", 5, "Live"), entry("b", 20, "Live"), entry("a", 1, "Live"), entry("d", 3, "Dead")];
    let outcome = merge_gossip_tables(&mut local, &received);
    let ids: Vec<&str> = local.iter().map(|g| g.node_id.as_str()).collect();
    assert_eq!(ids, vec!["a", "b", "c", "d"]);
    assert_eq!(local[1].last_heartbeat, 20);
    assert_eq!(local[1].status, "Live");
    assert_eq!(local[3].last_heartbeat, 10);
    assert_eq!(outcome.new_nodes.len(), 2);
    assert_eq!(outcome.revived.len(), 1);
    assert_eq!(outcome.revived[0].node_id, "b");
}

#[test]
fn hints_drained_once_delivered_removed() {
    let mut hints = Vec::new();
    let m1 = InternalMessage::Query { opcode: 2, body: "INSERT 1".to_string(), keyspace_name: "ks".to_string() };
    let m2 = InternalMessage::Query { opcode: 2, body: "INSERT 2".to_string(), keyspace_name: "ks".to_string() };
    let other = InternalMessage::Query { opcode: 2, body: "INSERT 3".to_string(), keyspace_name: "ks".to_string() };
    add_hint(&mut hints, "B", m1.clone());
    add_hint(&mut hints, "C", other.clone());
    add_hint(&mut hints, "B", m2.clone());
    remove_delivered(&mut hints, "B", &vec![true, false]);
    let for_b: Vec<&InternalMessage> = hints.iter().filter(|(p, _)| p == "B").flat_map(|(_, v)| v.iter()).collect();
    assert_eq!(for_b, vec![&m2]);
    let for_c: Vec<&InternalMessage> = hints.iter().filter(|(p, _)| p == "C").flat_map(|(_, v)| v.iter()).collect();
    assert_eq!(for_c, vec![&other]);
    remove_delivered(&mut hints, "B", &vec![true]);
    assert!(hints.iter().filter(|(p, _)| p == "B").all(|(_, v)| v.is_empty()));
}

#[test]
fn peer_frame_round_trip() {
    let m = InternalMessage::Query { opcode: 3, body: "SELECT * FROM t;".to_string(), keyspace_name: "ks".to_string() };
    let bytes = m.to_bytes();
    assert_eq!(bytes[0], 1);
    assert_eq!(&bytes[2..6], &[0, 0, 0, 16]);
    assert_eq!(InternalMessage::from_bytes(&bytes).unwrap(), m);
    let g = InternalMessage::Gossip { opcode: 0, body: "[]".to_string() };
    assert_eq!(InternalMessage::from_bytes(&g.to_bytes()).unwrap(), g);
}

#[test]
fn unroutable_mutation_is_invalid() {
    let table = vec![entry("a", 1, "Live")];
    let hash = ConsistentHash::new();
    let s = ReplicationStrategy::new_simple("1".to_string());
    let cond = Expression::Comparison {
        left: Operand::Column("id".to_string()),
        operator: ">".to_string(),
        right: Operand::Integer("3".to_string()),
    };
    assert_eq!(plan_mutation(&s, &cond, &table, &hash), Err(CoordinatorError::Invalid));
    let ok = Expression::And {
        left: Box::new(Expression::Comparison {
            left: Operand::Column("id".to_string()),
            operator: "=".to_string(),
            right: Operand::Integer("3".to_string()),
        }),
        right: Box::new(Expression::True),
    };
    assert_eq!(extract_value_supposing_column_equals_value(&ok), Some("3".to_string()));
    assert_eq!(plan_mutation(&s, &ok, &table, &hash).unwrap(), vec!["a".to_string()]);
}

#[test]
fn read_repair_picks_newest() {
    let row = |v: &str, ts: &str| vec![("v".to_string(), v.to_string()), ("_timestamp".to_string(), ts.to_string())];
    let replies = vec![
        vec![row("a", "2024-01-01 00:00:00")],
        vec![row("b", "2030-01-01 12:00:00")],
        vec![row("b", "2030-01-01 12:00:00")],
    ];
    let c = choose_newest(&replies);
    assert_eq!(c.index, 1);
    assert_eq!(c.newest, Some(1893499200));
    assert!(c.repair);
    let replicas = vec!["A".to_string(), "B".to_string(), "C".to_string()];
    let plan = plan_read_repair(&replies, &c, "t", &replicas);
    assert_eq!(plan.len(), 3);
    assert!(plan.iter().all(|(_, s)| s == "INSERT INTO t (v, _timestamp) VALUES ('b', '2030-01-01 12:00:00');"));
    let same = vec![vec![row("a", "2024-01-01 00:00:00")], vec![row("a", "2024-01-01 00:00:00")]];
    let c = choose_newest(&same);
    assert!(!c.repair);
    assert!(plan_read_repair(&same, &c, "t", &replicas).is_empty());
    let bad = vec![vec![row("a", "2024-01-01 00:00:00")], vec![row("z", "yesterday")]];
    let c = choose_newest(&bad);
    assert_eq!(c.index, 0);
    assert!(!c.repair);
}

#[test]
fn empty_key_is_refused() {
    let mut t = sample_table();
    assert!(t.insert(vec![("id".to_string(), "".to_string()), ("c".to_string(), "1".to_string())]).is_err());
    assert!(t.insert(vec![("id".to_string(), "5".to_string()), ("c".to_string(), "".to_string())]).is_err());
    let all = Expression::True;
    assert!(t.update(vec![("id".to_string(), "".to_string())], &all).is_err());
    assert_eq!(t.len(), 3);
}

#[test]
fn replicas_skip_dead_entries() {
    let table = vec![entry("a", 1, "Live"), entry("b", 1, "Dead")];
    let hash = ConsistentHash::new();
    let s = ReplicationStrategy::new_simple("2".to_string());
    assert_eq!(s.get_replica_nodes(&vec!["1".to_string()], &table, &hash), vec!["a".to_string()]);
}

#[test]
fn tick_marks_silent_peers_dead() {
    let mut table = vec![entry("a", 100, "Live"), entry("b", 10, "Live"), entry("c", 95, "Live")];
    let target = gossip_tick(&mut table, "a", 100, 30);
    assert_eq!(table[0].last_heartbeat, 100);
    assert_eq!(table[1].status, "Dead");
    assert_eq!(table[2].status, "Live");
    assert_eq!(target.unwrap().node_id, "c");
    let mut alone = vec![entry("a", 1, "Dead")];
    assert!(gossip_tick(&mut alone, "a", 5, 30).is_none());
    assert_eq!(alone[0].status, "Live");
}

#[test]
fn failed_writes_become_hints() {
    let mut hints = Vec::new();
    let write = InternalMessage::Query { opcode: 2, body: "INSERT".to_string(), keyspace_name: "ks".to_string() };
    let read = InternalMessage::Query { opcode: 3, body: "SELECT".to_string(), keyspace_name: "ks".to_string() };
    record_delivery(&mut hints, "B", write.clone(), false);
    record_delivery(&mut hints, "B", read, false);
    record_delivery(&mut hints, "B", write.clone(), true);
    let for_b: Vec<&InternalMessage> = hints.iter().filter(|(p, _)| p == "B").flat_map(|(_, v)| v.iter()).collect();
    assert_eq!(for_b, vec![&write]);
}

#[test]
fn numbers_compare_as_numbers() {
    let row = vec![("n".to_string(), "10".to_string())];
    let e = Expression::Comparison {
        left: Operand::Column("n".to_string()),
        operator: ">".to_string(),
        right: Operand::Integer("9".to_string()),
    };
    assert!(evaluate_expression(&e, &row).unwrap());
    let bad = Expression::Comparison {
        left: Operand::Column("missing".to_string()),
        operator: "=".to_string(),
        right: Operand::Integer("9".to_string()),
    };
    assert!(evaluate_expression(&bad, &row).is_err());
}

#[test]
fn text_round_trip_and_node_identity() {
    let mut buf = Vec::new();
    write_string(&mut buf, "héllo");
    assert_eq!(buf[..2], [0, 6]);
    assert_eq!(read_string(&mut ByteReader::new(&buf)).unwrap(), "héllo");
    assert!(read_string(&mut ByteReader::new(&[0, 1, 0xFF])).is_err());
    let node = Node::new("n1", "10.0.0.1", 9042, 7000);
    let table = node.get_gossip_table().unwrap();
    assert_eq!(table[0].port_native_protocol, "9042");
    assert!(table[0].last_heartbeat > 0);
    assert_eq!(node.get_id(), "n1");
}

#[test]
fn missing_table_and_unknown_column() {
    let mut node = Node::new("n1", "10.0.0.1", 9042, 7000);
    assert!(node.insert_row("ks", "none", vec![]).is_err());
    let mut t = sample_table();
    assert!(t.insert(vec![("id".to_string(), "1".to_string()), ("c".to_string(), "1".to_string()), ("zzz".to_string(), "q".to_string())]).is_err());
    assert!(t.delete_partition(&vec!["9".to_string()]).is_err());
    assert!(t.delete_partition(&vec!["2".to_string()]).is_ok());
    assert_eq!(t.len(), 2);
}

#[test]
fn handover_moves_foreign_partitions() {
    let t = sample_table();
    let gossip = vec![entry("n1", 1, "Live"), entry("n2", 1, "Live")];
    let new_ids = vec!["n2".to_string()];
    let (moved, sends) = plan_handover(&t, "t", 1, &gossip, "n1", &new_ids);
    let hash = ConsistentHash::new();
    let s = ReplicationStrategy::new_simple("1".to_string());
    let mut expected_moved = Vec::new();
    let mut expected_sends = 0;
    for (keys, p) in &t.partitions {
        let owners = s.get_replica_nodes(keys, &gossip, &hash);
        if !owners.contains(&"n1".to_string()) {
            expected_moved.push(keys.clone());
            expected_sends += p.rows.len();
        }
    }
    assert_eq!(moved, expected_moved);
    assert_eq!(sends.len(), expected_sends);
    assert!(sends.iter().all(|(n, s)| n == "n2" && s.starts_with("INSERT INTO t (")));
}

#[test]
fn integer_texts() {
    use_parse();
}

fn use_parse() {
    assert_eq!(cassandra_node::expression::parse_i32("-2147483648"), Some(i32::MIN));
    assert_eq!(cassandra_node::expression::parse_i32("+42"), Some(42));
    assert_eq!(cassandra_node::expression::parse_i32("2147483648"), None);
    assert_eq!(cassandra_node::expression::parse_i32("value1"), None);
    assert_eq!(cassandra_node::expression::parse_i32("-"), None);
    assert_eq!(cassandra_node::expression::parse_i32(""), None);
    assert_eq!(cassandra_node::expression::parse_i32("00012"), Some(12));
}
