use cassandra_node::expression::{evaluate_expression, Expression, Operand};
use cassandra_node::table::{Partition, Table};

fn create_table(partition_key_columns: Vec<String>, clustering_key_columns: Vec<String>) -> Table {
    Table::new(
        "table_name".to_string(),
        partition_key_columns,
        clustering_key_columns,
        vec![
            ("id".to_string(), "String".to_string()),
            ("order".to_string(), "String".to_string()),
            ("data".to_string(), "String".to_string()),
        ],
    )
}

fn create_row(id: &str, order: &str, data: &str) -> Vec<(String, String)> {
    vec![
        ("id".to_string(), id.to_string()),
        ("order".to_string(), order.to_string()),
        ("data".to_string(), data.to_string()),
    ]
}

fn insert_into_table(table: &mut Table, id: &str, order: &str, data: &str) -> Result<(), cassandra_node::table::TableError> {
    let row = create_row(id, order, data);
    table.insert(row)
}

fn partition<'a>(table: &'a Table, keys: &Vec<String>) -> Option<&'a Partition> {
    table.partitions.iter().find(|(k, _)| k == keys).map(|(_, p)| p)
}

fn lookup<'a>(row: &'a Vec<(String, String)>, column: &str) -> Option<&'a String> {
    row.iter().find(|(c, _)| c == column).map(|(_, v)| v)
}

#[test]
fn test_insert_into_new_partition() {
    let mut table = create_table(vec!["id".to_string()], vec!["order".to_string()]);

    let result = insert_into_table(&mut table, "111", "1", "data");
    assert!(result.is_ok());

    let partition_keys = vec!["111".to_string()];
    assert!(partition(&table, &partition_keys).is_some());

    let partition = partition(&table, &partition_keys).unwrap();
    let clustering_keys = vec!["1".to_string()];
    assert!(partition.rows.iter().any(|(k, _)| k == &clustering_keys));

    let inserted_row = &partition.rows.iter().find(|(k, _)| k == &clustering_keys).unwrap().1;
    assert_eq!(lookup(inserted_row, "data").unwrap(), "data");
}

#[test]
fn test_when_inserting_rows_with_same_partition_keys_rows_get_inserted_ordered_by_clustering_keys() {
    let mut table = create_table(vec!["id".to_string()], vec!["order".to_string()]);
    let first_entry_row = create_row("111", "2", "first_entry");
    let second_entry_row = create_row("111", "1", "second_entry");

    let result = insert_into_table(&mut table, "111", "2", "first_entry");
    assert!(result.is_ok());
    let result = insert_into_table(&mut table, "111", "1", "second_entry");
    assert!(result.is_ok());

    let partition_keys = vec!["111".to_string()];
    let partition = partition(&table, &partition_keys).unwrap();
    let values: Vec<_> = partition.rows.iter().map(|(_, r)| r).collect();
    assert_eq!(values, vec![&second_entry_row, &first_entry_row]);
}

#[test]
fn test_missing_partition_key() {
    let mut table = create_table(vec!["id".to_string()], vec!["order".to_string()]);
    let incomplete_row = vec![
        ("order".to_string(), "1".to_string()),
        ("data".to_string(), "data".to_string()),
    ];

    let result = table.insert(incomplete_row);

    assert!(result.is_err());
}

#[test]
fn test_missing_clustering_key() {
    let mut table = create_table(vec!["id".to_string()], vec!["order".to_string()]);
    let row_missing_clustering_key = vec![
        ("id".to_string(), "1".to_string()),
        ("data".to_string(), "data".to_string()),
    ];

    let result = table.insert(row_missing_clustering_key);

    assert!(result.is_err());
}

#[test]
fn test_delete_matching_rows() {
    let mut table = create_table(vec!["id".to_string()], vec!["order".to_string()]);
    let row1 = create_row("111", "1", "data1");
    let row2 = create_row("111", "2", "data2");
    let row3 = create_row("111", "3", "data3");

    let _ = table.insert(row1.clone());
    let _ = table.insert(row2.clone());
    let _ = table.insert(row3.clone());

    let query_values = vec![("order".to_string(), "2".to_string())];
    let result = table.delete_matching_rows(&query_values);

    assert!(result.is_ok());
    assert!(table.get_vector_of_rows().contains(&row1));
    assert!(!table.get_vector_of_rows().contains(&row2));
    assert!(table.get_vector_of_rows().contains(&row3));
}

#[test]
fn test_get_vector_of_rows() {
    let mut table = create_table(vec!["id".to_string()], vec!["order".to_string()]);
    let row1 = create_row("111", "1", "data1");
    let row2 = create_row("111", "2", "data2");
    let row3 = create_row("111", "3", "data3");

    let _ = table.insert(row1.clone());
    let _ = table.insert(row2.clone());
    let _ = table.insert(row3.clone());

    let rows = table.get_vector_of_rows();
    assert_eq!(rows.len(), 3);
    assert!(rows.contains(&row1));
    assert!(rows.contains(&row2));
    assert!(rows.contains(&row3));
}

#[test]
fn table_test_update() {
    let mut table = create_table(vec!["id".to_string()], vec!["order".to_string()]);
    let row1 = create_row("111", "1", "data1");
    let row2 = create_row("111", "2", "data2");
    let row3 = create_row("111", "3", "data3");

    let _ = table.insert(row1.clone());
    let _ = table.insert(row2.clone());
    let _ = table.insert(row3.clone());

    let values_to_update = vec![("data".to_string(), "updated_data".to_string())];
    let condition = Expression::Comparison {
        left: Operand::Column("order".to_string()),
        operator: ">".to_string(),
        right: Operand::String("1".to_string()),
    };
    let result = table.update(values_to_update, &condition);

    assert!(result.is_ok());
    let updated_row1 = create_row("111", "1", "data1");
    let updated_row2 = create_row("111", "2", "updated_data");
    let updated_row3 = create_row("111", "3", "updated_data");

    assert!(table.get_vector_of_rows().contains(&updated_row1));
    assert!(table.get_vector_of_rows().contains(&updated_row2));
    assert!(table.get_vector_of_rows().contains(&updated_row3));
}

#[test]
fn table_test_delete() {
    let mut table = create_table(vec!["id".to_string()], vec!["order".to_string()]);
    let row1 = create_row("111", "1", "data1");
    let row2 = create_row("111", "2", "data2");
    let row3 = create_row("111", "3", "data3");

    let _ = table.insert(row1.clone());
    let _ = table.insert(row2.clone());
    let _ = table.insert(row3.clone());

    let condition = Expression::Comparison {
        left: Operand::Column("order".to_string()),
        operator: ">".to_string(),
        right: Operand::String("1".to_string()),
    };
    let result = table.delete(&condition);

    assert!(result.is_ok());
    assert_eq!(table.get_vector_of_rows().len(), 1);
    assert!(table.get_vector_of_rows().contains(&row1));
}

#[test]
fn test_contains_row() {
    let mut table = create_table(vec!["id".to_string()], vec!["order".to_string()]);
    let row1 = create_row("111", "1", "data1");
    let row2 = create_row("111", "2", "data2");
    let row3 = create_row("111", "3", "data3");

    let _ = table.insert(row1.clone());
    let _ = table.insert(row2.clone());
    let _ = table.insert(row3.clone());

    assert!(table.contains_row(&row1));
    assert!(table.contains_row(&row2));
    assert!(table.contains_row(&row3));
    assert!(!table.contains_row(&create_row("111", "4", "data4")));
}

#[test]
fn test_evaluate_expression() {
    let row = vec![
        ("column1".to_string(), "value1".to_string()),
        ("column2".to_string(), "value2".to_string()),
    ];

    let expression = Expression::Comparison {
        left: Operand::Column("column1".to_string()),
        operator: "=".to_string(),
        right: Operand::String("value1".to_string()),
    };
    assert!(evaluate_expression(&expression, &row).unwrap());

    let expression = Expression::Comparison {
        left: Operand::Column("column1".to_string()),
        operator: "=".to_string(),
        right: Operand::String("value2".to_string()),
    };
    assert!(!evaluate_expression(&expression, &row).unwrap());

    let expression = Expression::Comparison {
        left: Operand::Column("column1".to_string()),
        operator: ">".to_string(),
        right: Operand::String("value2".to_string()),
    };
    assert!(!evaluate_expression(&expression, &row).unwrap());

    let expression = Expression::Comparison {
        left: Operand::Column("column1".to_string()),
        operator: ">=".to_string(),
        right: Operand::String("value2".to_string()),
    };
    assert!(!evaluate_expression(&expression, &row).unwrap());

    let expression = Expression::Comparison {
        left: Operand::Column("column1".to_string()),
        operator: ">=".to_string(),
        right: Operand::String("value1".to_string()),
    };
    assert!(evaluate_expression(&expression, &row).unwrap());

    let expression = Expression::Comparison {
        left: Operand::Column("column1".to_string()),
        operator: "<".to_string(),
        right: Operand::String("value2".to_string()),
    };
    assert!(evaluate_expression(&expression, &row).unwrap());
}
