use nano9::lua_values::{lua_table_shape, multi_value_shape, MultiShape, TableError, TableKey, TableShape};

fn text_key(s: &str) -> TableKey {
    TableKey { text: Some(String::from(s)), index: None, kind: String::from("string") }
}

fn int_key(i: i64) -> TableKey {
    TableKey { text: None, index: Some(i), kind: String::from("number") }
}

fn bool_key() -> TableKey {
    TableKey { text: None, index: None, kind: String::from("boolean") }
}

#[test]
fn no_values_are_unit() {
    assert!(matches!(multi_value_shape::<i32>(vec![]), MultiShape::Unit));
}

#[test]
fn one_value_is_itself() {
    assert!(matches!(multi_value_shape(vec![7]), MultiShape::One(7)));
}

#[test]
fn several_values_are_a_tuple_in_order() {
    match multi_value_shape(vec![1, 2, 3]) {
        MultiShape::Many(all) => assert_eq!(all, vec![1, 2, 3]),
        _ => panic!("expected a tuple"),
    }
}

#[test]
fn empty_table_is_empty_list() {
    let entries: Vec<(TableKey, Result<i32, String>)> = vec![];
    match lua_table_shape(entries) {
        Ok(TableShape::List(l)) => assert!(l.is_empty()),
        _ => panic!("expected an empty list"),
    }
}

#[test]
fn string_keyed_table_is_a_map() {
    let entries = vec![(text_key("x"), Ok::<i32, String>(1)), (text_key("y"), Ok(2))];
    match lua_table_shape(entries) {
        Ok(TableShape::Dict(m)) => {
            assert_eq!(m, vec![(String::from("x"), 1), (String::from("y"), 2)])
        },
        _ => panic!("expected a map"),
    }
}

#[test]
fn integer_keyed_table_is_a_list_in_key_order() {
    let entries = vec![
        (int_key(3), Ok::<i32, String>(30)),
        (int_key(1), Ok(10)),
        (int_key(2), Ok(20)),
    ];
    match lua_table_shape(entries) {
        Ok(TableShape::List(l)) => assert_eq!(l, vec![10, 20, 30]),
        _ => panic!("expected a list"),
    }
}

#[test]
fn equal_integer_keys_keep_table_order() {
    let entries = vec![
        (int_key(2), Ok::<i32, String>(5)),
        (int_key(1), Ok(6)),
        (int_key(2), Ok(7)),
    ];
    match lua_table_shape(entries) {
        Ok(TableShape::List(l)) => assert_eq!(l, vec![6, 5, 7]),
        _ => panic!("expected a list"),
    }
}

#[test]
fn mixed_string_and_integer_keys_reject_the_string_key() {
    let entries = vec![(int_key(1), Ok::<i32, String>(1)), (text_key("name"), Ok(2))];
    match lua_table_shape(entries) {
        Err(TableError::UnsupportedKey(kind)) => assert_eq!(kind, "string"),
        _ => panic!("expected an unsupported key"),
    }
}

#[test]
fn boolean_key_is_unsupported() {
    let entries = vec![(bool_key(), Ok::<i32, String>(1))];
    match lua_table_shape(entries) {
        Err(TableError::UnsupportedKey(kind)) => assert_eq!(kind, "boolean"),
        _ => panic!("expected an unsupported key"),
    }
}

#[test]
fn first_failing_value_is_the_error() {
    let entries = vec![
        (int_key(1), Ok::<i32, String>(1)),
        (int_key(2), Err(String::from("first"))),
        (int_key(3), Err(String::from("second"))),
    ];
    match lua_table_shape(entries) {
        Err(TableError::Value(e)) => assert_eq!(e, "first"),
        _ => panic!("expected a value error"),
    }
}

#[test]
fn key_error_before_later_value_error() {
    let entries = vec![
        (int_key(1), Ok::<i32, String>(1)),
        (bool_key(), Err(String::from("bad value"))),
    ];
    match lua_table_shape(entries) {
        Err(TableError::UnsupportedKey(kind)) => assert_eq!(kind, "boolean"),
        _ => panic!("expected the key to fail first"),
    }
}
