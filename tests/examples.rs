use serde_vici::de::{from_reader, from_slice};
use serde_vici::ser::to_vec;
use serde_vici::value::Value;

fn text(s: &str) -> Value {
    Value::Text(s.as_bytes().to_vec())
}

fn section(entries: Vec<(&str, Value)>) -> Value {
    Value::Section(entries.into_iter().map(|(k, v)| (k.as_bytes().to_vec(), v)).collect())
}

fn list(items: Vec<Value>) -> Value {
    Value::List(items)
}

fn example_bytes() -> Vec<u8> {
    vec![
        // key1 = value1
        3, 4, b'k', b'e', b'y', b'1', 0, 6, b'v', b'a', b'l', b'u', b'e', b'1',
        // section1
        1, 8, b's', b'e', b'c', b't', b'i', b'o', b'n', b'1',
        // sub-section
        1, 11, b's', b'u', b'b', b'-', b's', b'e', b'c', b't', b'i', b'o', b'n',
        // key2 = value2
        3, 4, b'k', b'e', b'y', b'2', 0, 6, b'v', b'a', b'l', b'u', b'e', b'2',
        // sub-section end
        2,
        // list1
        4, 5, b'l', b'i', b's', b't', b'1',
        // item1
        5, 0, 5, b'i', b't', b'e', b'm', b'1',
        // item2
        5, 0, 5, b'i', b't', b'e', b'm', b'2',
        // list1 end
        6,
        // section1 end
        2,
    ]
}

fn example_value() -> Value {
    section(vec![
        ("key1", text("value1")),
        (
            "section1",
            section(vec![
                ("sub-section", section(vec![("key2", text("value2"))])),
                ("list1", list(vec![text("item1"), text("item2")])),
            ]),
        ),
    ])
}

fn none_bytes() -> Vec<u8> {
    vec![
        // key1 = value1
        3, 4, b'k', b'e', b'y', b'1', 0, 6, b'v', b'a', b'l', b'u', b'e', b'1',
        // section1
        1, 8, b's', b'e', b'c', b't', b'i', b'o', b'n', b'1',
        // list1
        4, 5, b'l', b'i', b's', b't', b'1',
        // item1
        5, 0, 5, b'i', b't', b'e', b'm', b'1',
        // item2
        5, 0, 5, b'i', b't', b'e', b'm', b'2',
        // list1 end
        6,
        // section1 end
        2,
    ]
}

fn none_value() -> Value {
    section(vec![
        ("key1", text("value1")),
        ("section1", section(vec![("list1", list(vec![text("item1"), text("item2")]))])),
    ])
}

fn pools_bytes() -> Vec<u8> {
    vec![
        // pool-01
        1, 7, b'p', b'o', b'o', b'l', b'-', b'0', b'1',
        // base = 192.0.2.1
        3, 4, b'b', b'a', b's', b'e', 0, 9, b'1', b'9', b'2', b'.', b'0', b'.', b'2', b'.', b'1',
        // size = 4
        3, 4, b's', b'i', b'z', b'e', 0, 1, b'4',
        // online = 3,
        3, 6, b'o', b'n', b'l', b'i', b'n', b'e', 0, 1, b'3',
        // offline = 1,
        3, 7, b'o', b'f', b'f', b'l', b'i', b'n', b'e', 0, 1, b'1',
        // leases
        1, 6, b'l', b'e', b'a', b's', b'e', b's',
        // 0
        1, 1, b'0',
        // address = 192.0.2.2
        3, 7, b'a', b'd', b'd', b'r', b'e', b's', b's', 0, 9, b'1', b'9', b'2', b'.', b'0', b'.', b'2', b'.', b'2',
        // identity = identity-01
        3, 8, b'i', b'd', b'e', b'n', b't', b'i', b't', b'y', 0, 11, b'i', b'd', b'e', b'n', b't', b'i', b't', b'y', b'-', b'0', b'1',
        // status = online
        3, 6, b's', b't', b'a', b't', b'u', b's', 0, 6, b'o', b'n', b'l', b'i', b'n', b'e',
        // 0 end
        2,
        // 1
        1, 1, b'1',
        // address = 192.0.2.3
        3, 7, b'a', b'd', b'd', b'r', b'e', b's', b's', 0, 9, b'1', b'9', b'2', b'.', b'0', b'.', b'2', b'.', b'3',
        // identity = identity-02
        3, 8, b'i', b'd', b'e', b'n', b't', b'i', b't', b'y', 0, 11, b'i', b'd', b'e', b'n', b't', b'i', b't', b'y', b'-', b'0', b'2',
        // status = online
        3, 6, b's', b't', b'a', b't', b'u', b's', 0, 6, b'o', b'n', b'l', b'i', b'n', b'e',
        // 1 end
        2,
        // 2
        1, 1, b'2',
        // address = 192.0.2.4
        3, 7, b'a', b'd', b'd', b'r', b'e', b's', b's', 0, 9, b'1', b'9', b'2', b'.', b'0', b'.', b'2', b'.', b'4',
        // identity = identity-03
        3, 8, b'i', b'd', b'e', b'n', b't', b'i', b't', b'y', 0, 11, b'i', b'd', b'e', b'n', b't', b'i', b't', b'y', b'-', b'0', b'3',
        // status = online
        3, 6, b's', b't', b'a', b't', b'u', b's', 0, 6, b'o', b'n', b'l', b'i', b'n', b'e',
        // 2 end
        2,
        // 3
        1, 1, b'3',
        // address = 192.0.2.5
        3, 7, b'a', b'd', b'd', b'r', b'e', b's', b's', 0, 9, b'1', b'9', b'2', b'.', b'0', b'.', b'2', b'.', b'5',
        // identity =
        3, 8, b'i', b'd', b'e', b'n', b't', b'i', b't', b'y', 0, 0,
        // status = offline
        3, 6, b's', b't', b'a', b't', b'u', b's', 0, 7, b'o', b'f', b'f', b'l', b'i', b'n', b'e',
        // 3 end
        2,
        // leases end
        2,
        // pool-01 end
        2,
    ]
}

fn lease(address: &str, identity: Value, status: &str) -> Value {
    section(vec![("address", text(address)), ("identity", identity), ("status", text(status))])
}

/// The pools as written: the leases are a list of records, and the last
/// lease has no identity.
fn pools_value() -> Value {
    section(vec![(
        "pool-01",
        section(vec![
            ("base", text("192.0.2.1")),
            ("size", text("4")),
            ("online", text("3")),
            ("offline", text("1")),
            (
                "leases",
                list(vec![
                    lease("192.0.2.2", text("identity-01"), "online"),
                    lease("192.0.2.3", text("identity-02"), "online"),
                    lease("192.0.2.4", text("identity-03"), "online"),
                    lease("192.0.2.5", Value::Absent, "offline"),
                ]),
            ),
        ]),
    )])
}

/// The pools as read back without a target shape: the list of records is a
/// section of sections named by index, and the absent identity is empty text.
fn pools_decoded() -> Value {
    section(vec![(
        "pool-01",
        section(vec![
            ("base", text("192.0.2.1")),
            ("size", text("4")),
            ("online", text("3")),
            ("offline", text("1")),
            (
                "leases",
                section(vec![
                    ("0", lease("192.0.2.2", text("identity-01"), "online")),
                    ("1", lease("192.0.2.3", text("identity-02"), "online")),
                    ("2", lease("192.0.2.4", text("identity-03"), "online")),
                    ("3", lease("192.0.2.5", text(""), "offline")),
                ]),
            ),
        ]),
    )])
}

#[test]
fn deserialize_reader_example() {
    let data = example_bytes();
    let actual = from_reader(data.as_slice()).unwrap();
    assert_eq!(actual, example_value());
}

#[test]
fn deserialize_reader_none() {
    let data = none_bytes();
    let actual = from_reader(data.as_slice()).unwrap();
    assert_eq!(actual, none_value());
}

#[test]
fn deserialize_reader_pools() {
    let data = pools_bytes();
    let actual = from_reader(data.as_slice()).unwrap();
    assert_eq!(actual, pools_decoded());
}

#[test]
fn deserialize_slice_example() {
    let data = example_bytes();
    let actual = from_slice(&data).unwrap();
    assert_eq!(actual, example_value());
}

#[test]
fn deserialize_slice_none() {
    let data = none_bytes();
    let actual = from_slice(&data).unwrap();
    assert_eq!(actual, none_value());
}

#[test]
fn deserialize_slice_pools() {
    let data = pools_bytes();
    let actual = from_slice(&data).unwrap();
    assert_eq!(actual, pools_decoded());
}

#[test]
fn serialize_example() {
    let actual = to_vec(&example_value()).unwrap();
    assert_eq!(actual, example_bytes());
}

#[test]
fn serialize_pools() {
    let actual = to_vec(&pools_value()).unwrap();
    assert_eq!(actual, pools_bytes());
}
