use pandt::nonempty::{InvalidParts, NonEmpty, NonEmptyWithCursor};
use serde_json::Value;

fn cursor_json(ne: &NonEmptyWithCursor<i32>) -> String {
    let mut parts = serde_json::Map::new();
    parts.insert("cursor".to_string(), Value::from(ne.get_cursor()));
    parts.insert(
        "data".to_string(),
        Value::Array(ne.iter().map(|x| Value::from(*x)).collect()),
    );
    serde_json::to_string(&Value::Object(parts)).unwrap()
}

fn cursor_from_json(text: &str) -> Result<NonEmptyWithCursor<i32>, InvalidParts> {
    let value: Value = serde_json::from_str(text).unwrap();
    let cursor = value["cursor"].as_u64().unwrap() as usize;
    let data: Vec<i32> =
        value["data"].as_array().unwrap().iter().map(|x| x.as_i64().unwrap() as i32).collect();
    NonEmptyWithCursor::from_parts(cursor, data)
}

#[test]
fn test_serialize_deserialize_nonempty() {
    let ne: NonEmpty<i32> = NonEmpty::new_with_rest(5, vec![50, 55]);
    let elements: Vec<&i32> = ne.iter().collect();
    assert_eq!(serde_json::to_string(&elements).unwrap(), "[5,50,55]");
    let parsed: Vec<i32> = serde_json::from_str("[5,50,55]").unwrap();
    assert_eq!(NonEmpty::from_vec(parsed).unwrap(), ne);
}

#[test]
fn test_deserialize_invalid_nonempty() {
    let parsed: Vec<i32> = serde_json::from_str("[]").unwrap();
    match NonEmpty::from_vec(parsed) {
        Some(x) => panic!("Somehow this parsed: {:?}", x),
        None => {}
    }
}

#[test]
fn test_serialize_deserialize_with_cursor() {
    let ne: NonEmptyWithCursor<i32> = NonEmptyWithCursor::new_with_rest(5, vec![50, 55]);
    assert_eq!(cursor_json(&ne), "{\"cursor\":0,\"data\":[5,50,55]}");
    match cursor_from_json("{\"cursor\":0,\"data\":[5,50,55]}") {
        Ok(ne2) => assert_eq!(ne, ne2),
        Err(e) => panic!("Couldn't parse json: {:?}", e),
    }
}

#[test]
fn test_nonempty_serialize_deserialize() {
    let mut ne: NonEmptyWithCursor<i32> = NonEmptyWithCursor::new(5);
    ne.push(50);
    ne.push(55);
    assert_eq!(cursor_json(&ne), "{\"cursor\":0,\"data\":[5,50,55]}");
    match cursor_from_json("{\"cursor\":0,\"data\":[5,50,55]}") {
        Ok(ne2) => assert_eq!(ne, ne2),
        Err(e) => panic!("Couldn't parse json: {:?}", e),
    }
}

#[test]
fn test_deserialize_invalid_cursor() {
    let res = cursor_from_json("{\"cursor\":1,\"data\":[5]}");
    let exmsg = "Cursor of 1 out of bounds for vec of length 1";
    match res {
        Ok(x) => panic!("Should not have parsed to {:?}", x),
        Err(InvalidParts::CursorOutOfBounds { cursor, len }) => assert_eq!(
            format!("Cursor of {} out of bounds for vec of length {}", cursor, len),
            exmsg
        ),
        Err(e) => panic!("Should not have got any other error: {:?}", e),
    }
}

#[test]
fn test_deserialize_invalid_empty() {
    let res = cursor_from_json("{\"cursor\":0,\"data\":[]}");
    match res {
        Ok(x) => panic!("Should not have parsed to {:?}", x),
        Err(InvalidParts::Empty) => {}
        Err(e) => panic!("Should not have got any other error: {:?}", e),
    }
}

#[test]
fn lib_test_deserialize_invalid_cursor() {
    let res = cursor_from_json("{\"cursor\":2,\"data\":[5]}");
    let exmsg = "Cursor of 2 should not be larger than length 1";
    match res {
        Ok(x) => panic!("Should not have parsed to {:?}", x),
        Err(InvalidParts::CursorOutOfBounds { cursor, len }) => assert_eq!(
            format!("Cursor of {} should not be larger than length {}", cursor, len),
            exmsg
        ),
        Err(e) => panic!("Should not have got any other error: {:?}", e),
    }
}

#[test]
fn lib_test_deserialize_invalid_empty() {
    let res = cursor_from_json("{\"cursor\":0,\"data\":[]}");
    match res {
        Ok(x) => panic!("Should not have parsed to {:?}", x),
        Err(InvalidParts::Empty) => {}
        Err(e) => panic!("Should not have got any other error: {}", format!("{:?}", e)),
    }
}
