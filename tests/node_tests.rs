use cassandra_node::node::Node;
use cassandra_node::query_builder::insert_message_from_row_and_tablename;

#[test]
fn test_create_keyspace() {
    let mut node = Node::new("node1", "localhost", 9042, 7000);
    node.create_keyspace("test_keyspace", "SimpleStrategy", "3").unwrap();
    assert!(node.keyspace_exists("test_keyspace"));
}

#[test]
fn test_insert_row() {
    let mut node = Node::new("node1", "localhost", 9042, 7000);
    let _ = node.create_keyspace("test_keyspace", "SimpleStrategy", "3");
    node.create_encrypted_table(
        "test_keyspace",
        "test_table",
        vec!["id".to_string()],
        vec!["name".to_string()],
        vec![
            ("id".to_string(), "int".to_string()),
            ("name".to_string(), "text".to_string()),
        ],
    );
    let values = vec![
        ("id".to_string(), "1".to_string()),
        ("name".to_string(), "Alice".to_string()),
    ];
    let result = node.insert_row("test_keyspace", "test_table", values);
    assert!(result.is_ok());
}

#[test]
fn test_insert_message_from_row_and_tablename() {
    let row = vec![
        ("id".to_string(), "1".to_string()),
        ("name".to_string(), "Franco".to_string()),
        ("age".to_string(), "30".to_string()),
    ];

    let table_name = "users";

    let expected = "INSERT INTO users (id, name, age) VALUES ('1', 'Franco', '30');";
    let result = insert_message_from_row_and_tablename(&row, table_name);

    assert_eq!(result, expected);
}

use cassandra_node::query_builder::{create_keyspace_query, create_table_query};
use cassandra_node::replication_strategy::ReplicationStrategy;
use cassandra_node::table::Table;

#[test]
fn keyspace_statement_text() {
    let q = create_keyspace_query("ks", ReplicationStrategy::new_simple("3".to_string()));
    assert_eq!(q, "CREATE KEYSPACE ks WITH REPLICATION = {'class': 'SimpleStrategy', 'replication_factor': 3};");
}

#[test]
fn table_statement_text() {
    let t = Table::new(
        "ks.users".to_string(),
        vec!["id".to_string()],
        vec!["name".to_string()],
        vec![("id".to_string(), "int".to_string()), ("name".to_string(), "text".to_string())],
    );
    assert_eq!(
        create_table_query(&t),
        "CREATE TABLE users (id int,name text,_timestamp String, PRIMARY KEY ((id), name));"
    );
}

use cassandra_node::expression::{Expression, Operand};
use cassandra_node::gossip::GossipInformation;
use cassandra_node::gossip::get_live_nodes;

fn member(id: &str, status: &str) -> GossipInformation {
    GossipInformation {
        node_id: id.to_string(),
        ip: "127.0.0.1".to_string(),
        port_native_protocol: "9042".to_string(),
        port_gossip_query: "7000".to_string(),
        last_heartbeat: 1,
        status: status.to_string(),
    }
}

#[test]
fn replicas_come_from_live_nodes() {
    let mut node = Node::new("a", "127.0.0.1", 9042, 7000);
    node.gossip_table = vec![member("a", "Live"), member("b", "Dead"), member("c", "Live")];
    assert_eq!(get_live_nodes(&node.gossip_table).len(), 2);
    assert_eq!(node.get_all_nodes(), vec!["a".to_string(), "c".to_string()]);
    node.create_keyspace("ks", "SimpleStrategy", "2").unwrap();
    assert!(node.create_keyspace("ks2", "NetworkTopologyStrategy", "2").is_err());
    node.create_encrypted_table("ks", "t", vec!["id".to_string()], vec![], vec![("id".to_string(), "int".to_string())]);
    let row = vec![("id".to_string(), "5".to_string())];
    let mut replicas = node.get_nodes_for_insert("ks", "t", &row);
    replicas.sort();
    assert_eq!(replicas, vec!["a".to_string(), "c".to_string()]);
    assert!(node.get_nodes_for_insert("ks", "missing", &row).is_empty());
    let cond = Expression::Comparison {
        left: Operand::Column("id".to_string()),
        operator: "=".to_string(),
        right: Operand::Integer("5".to_string()),
    };
    assert_eq!(node.get_nodes_for_condition("ks", &cond).len(), 2);
    let range = Expression::Comparison {
        left: Operand::Column("id".to_string()),
        operator: "<".to_string(),
        right: Operand::Integer("5".to_string()),
    };
    assert!(node.get_nodes_for_condition("ks", &range).is_empty());
}

use cassandra_node::data_parser::{parse_columns, parse_columns_with_types, split_text};

#[test]
fn schema_lines() {
    assert_eq!(parse_columns(" id , name ,v").unwrap(), vec!["id".to_string(), "name".to_string(), "v".to_string()]);
    assert_eq!(split_text("a,,b", ','), vec!["a".to_string(), "".to_string(), "b".to_string()]);
    assert_eq!(
        parse_columns_with_types("id:int, name:text").unwrap(),
        vec![("id".to_string(), "int".to_string()), ("name".to_string(), "text".to_string())]
    );
    assert!(parse_columns_with_types("id:int, name").is_err());
    assert!(parse_columns_with_types("id:int:x").is_err());
}
