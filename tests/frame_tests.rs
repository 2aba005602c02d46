use cassandra_node::notation::{write_bytes, ByteReader};
use cassandra_node::row::Row;
use cassandra_node::startup_options::{
    default_startup, default_supported, validate_options, COMPRESSION_KEY, COMPRESSION_VALUE, CQL_VERSION_KEY,
    CQL_VERSION_VALUE,
};

#[test]
fn test_deserialize() {
    let mut data = Vec::new();
    write_bytes(&mut data, b"val1".as_slice());
    write_bytes(&mut data, b"val2".as_slice());
    let row = Row::deserialize(2, &mut ByteReader::new(&data)).unwrap();

    assert_eq!(row.values.len(), 2);
    assert_eq!(row.values[0], b"val1".to_vec());
    assert_eq!(row.values[1], b"val2".to_vec());
}

#[test]
fn test_serialize() {
    let row = Row {
        values: vec![b"val1".to_vec(), b"val2".to_vec()],
    };

    let mut buffer = Vec::new();
    row.serialize(&mut buffer);

    let expected = vec![
        0, 0, 0, 4, b'v', b'a', b'l', b'1', 0, 0, 0, 4, b'v', b'a', b'l', b'2',
    ];

    assert_eq!(buffer, expected);
}

#[test]
fn test_empty_row() {
    let row = Row { values: vec![] };

    let mut buffer = Vec::new();
    row.serialize(&mut buffer);

    assert_eq!(buffer.len(), 0);
}

#[test]
fn test_default_startup() {
    let startup_options = default_startup();
    assert_eq!(startup_options.len(), 1);
    assert_eq!(startup_options[0].0, CQL_VERSION_KEY);
    assert_eq!(startup_options[0].1, CQL_VERSION_VALUE);
}

#[test]
fn test_default_supported() {
    let supported_options = default_supported();
    assert_eq!(supported_options.len(), 2);
    assert_eq!(supported_options[0].0, CQL_VERSION_KEY);
    assert_eq!(supported_options[0].1, vec![CQL_VERSION_VALUE]);
    assert_eq!(supported_options[1].0, COMPRESSION_KEY);
    assert_eq!(supported_options[1].1, vec![COMPRESSION_VALUE]);
}

#[test]
fn test_validate_options_invalid_version() {
    let invalid_options = vec![
        (CQL_VERSION_KEY.to_string(), "2.0.0".to_string()),
        (COMPRESSION_KEY.to_string(), COMPRESSION_VALUE.to_string()),
    ];
    assert!(!validate_options(&invalid_options));
}

#[test]
fn test_validate_options_missing_version() {
    let missing_version_options = vec![(COMPRESSION_KEY.to_string(), COMPRESSION_VALUE.to_string())];
    assert!(!validate_options(&missing_version_options));
}

use cassandra_node::column_option::ColumnOption;
use cassandra_node::consistency_level::ConsistencyLevel;
use cassandra_node::query::{
    Query, PAGE_SIZE, SKIP_METADATA, VALUES, WITH_DEFAULT_TIMESTAMP, WITH_NAMES_FOR_VALUES, WITH_PAGING_STATE,
    WITH_SERIAL_CONSISTENCY,
};

#[test]
fn test_option_custom_write_and_read() {
    let option = ColumnOption::Custom("test".to_string());
    let mut buffer = Vec::new();
    option.write(&mut buffer);

    let mut cursor = ByteReader::new(buffer.as_slice());
    let read_option = ColumnOption::read_option(&mut cursor).unwrap();

    if let ColumnOption::Custom(val) = read_option {
        assert_eq!(val, "test");
    } else {
        panic!("Expected Option::Custom, but got {:?}", read_option);
    }
}

#[test]
fn test_option_ascii_write_and_read() {
    let option = ColumnOption::Ascii;
    let mut buffer = Vec::new();
    option.write(&mut buffer);

    let mut cursor = ByteReader::new(buffer.as_slice());
    let read_option = ColumnOption::read_option(&mut cursor).unwrap();

    assert!(matches!(read_option, ColumnOption::Ascii));
}

#[test]
fn test_option_list_write_and_read() {
    let option = ColumnOption::List(Box::new(ColumnOption::Varchar));
    let mut buffer = Vec::new();
    option.write(&mut buffer);

    let mut cursor = ByteReader::new(buffer.as_slice());
    let read_option = ColumnOption::read_option(&mut cursor).unwrap();

    if let ColumnOption::List(inner_option) = read_option {
        assert!(matches!(*inner_option, ColumnOption::Varchar));
    } else {
        panic!("Expected Option::List, but got {:?}", read_option);
    }
}

#[test]
fn test_option_map_write_and_read() {
    let option = ColumnOption::MapOf(Box::new(ColumnOption::Ascii), Box::new(ColumnOption::Bigint));
    let mut buffer = Vec::new();
    option.write(&mut buffer);

    let mut cursor = ByteReader::new(buffer.as_slice());
    let read_option = ColumnOption::read_option(&mut cursor).unwrap();

    if let ColumnOption::MapOf(key, value) = read_option {
        assert!(matches!(*key, ColumnOption::Ascii));
        assert!(matches!(*value, ColumnOption::Bigint));
    } else {
        panic!("Expected Option::Map, but got {:?}", read_option);
    }
}

#[test]
fn test_option_tuple_write_and_read() {
    let option = ColumnOption::Tuple(vec![ColumnOption::Int, ColumnOption::Varchar]);
    let mut buffer = Vec::new();
    option.write(&mut buffer);

    let mut cursor = ByteReader::new(buffer.as_slice());
    let read_option = ColumnOption::read_option(&mut cursor).unwrap();

    if let ColumnOption::Tuple(types) = read_option {
        assert_eq!(types.len(), 2);
        assert!(matches!(types[0], ColumnOption::Int));
        assert!(matches!(types[1], ColumnOption::Varchar));
    } else {
        panic!("Expected Option::Tuple, but got {:?}", read_option);
    }
}

#[test]
fn test_query_default() {
    let query_string = "SELECT * FROM test".to_string();
    let consistency = ConsistencyLevel::One;
    let query = Query::default(query_string.clone(), consistency);

    assert_eq!(query.query_string, query_string);
    assert_eq!(query.consistency_level, consistency);
    assert!(query.values.is_none());
    assert!(query.skip_metadata);
    assert!(query.result_page_size.is_none());
    assert!(query.paging_state.is_none());
    assert!(query.serial_consistency.is_none());
    assert!(query.time_stamp.is_none());
}

#[test]
fn test_query_serialize_deserialize() {
    let query_string = "SELECT * FROM test".to_string();
    let consistency = ConsistencyLevel::One;

    let query = Query {
        query_string: query_string.clone(),
        consistency_level: consistency,
        values: Some(vec![(Some("id".to_string()), vec![1, 2, 3])]),
        skip_metadata: false,
        result_page_size: Some(100),
        paging_state: Some(vec![4, 5, 6]),
        serial_consistency: Some(ConsistencyLevel::Serial),
        time_stamp: Some(1627550738),
    };

    let serialized = query.serialize();
    let deserialized_query = Query::deserialize(&serialized).unwrap();

    assert_eq!(deserialized_query.query_string, query_string);
    assert_eq!(deserialized_query.consistency_level, consistency);
    assert_eq!(deserialized_query.values, Some(vec![(Some("id".to_string()), vec![1, 2, 3])]));
    assert!(!deserialized_query.skip_metadata);
    assert_eq!(deserialized_query.result_page_size, Some(100));
    assert_eq!(deserialized_query.paging_state, Some(vec![4, 5, 6]));
    assert_eq!(deserialized_query.serial_consistency, Some(ConsistencyLevel::Serial));
    assert_eq!(deserialized_query.time_stamp, Some(1627550738));
}

#[test]
fn test_query_flags() {
    let query_string = "SELECT * FROM test".to_string();
    let consistency = ConsistencyLevel::One;

    let query = Query {
        query_string,
        consistency_level: consistency,
        values: Some(vec![(Some("id".to_string()), vec![1, 2, 3])]),
        skip_metadata: true,
        result_page_size: Some(100),
        paging_state: Some(vec![4, 5, 6]),
        serial_consistency: Some(ConsistencyLevel::Serial),
        time_stamp: Some(1627550738),
    };

    let flags = query.serialize_flags();

    assert_eq!(flags & VALUES, VALUES);
    assert_eq!(flags & WITH_NAMES_FOR_VALUES, WITH_NAMES_FOR_VALUES);
    assert_eq!(flags & SKIP_METADATA, SKIP_METADATA);
    assert_eq!(flags & PAGE_SIZE, PAGE_SIZE);
    assert_eq!(flags & WITH_PAGING_STATE, WITH_PAGING_STATE);
    assert_eq!(flags & WITH_SERIAL_CONSISTENCY, WITH_SERIAL_CONSISTENCY);
    assert_eq!(flags & WITH_DEFAULT_TIMESTAMP, WITH_DEFAULT_TIMESTAMP);
}
