use serde_flow::record::{DictEntry, FieldValue, Record, ScalarValue};
use serde_flow::zerocopy::{Encoder, Reader};

// The archived shapes under test:
//   a user: { first_name: text, last_name: text, amount: u16 }
//   a user directory: { amount: u16, values: { text -> user } }

fn text_of(f: &FieldValue) -> &str {
    match f {
        FieldValue::Text(s) => s.as_str(),
        _ => panic!("expected a text field"),
    }
}

fn scalar_text_of(f: &ScalarValue) -> &str {
    match f {
        ScalarValue::Text(s) => s.as_str(),
        _ => panic!("expected a text field"),
    }
}

fn dict_of(f: &FieldValue) -> &Vec<DictEntry> {
    match f {
        FieldValue::Dict(es) => es,
        _ => panic!("expected a dictionary field"),
    }
}

fn dict_get<'a>(es: &'a [DictEntry], key: &str) -> Option<&'a Vec<ScalarValue>> {
    es.iter().find(|e| e.key == key).map(|e| &e.value)
}

fn user(first_name: &str, last_name: &str, amount: u16) -> Vec<ScalarValue> {
    vec![
        ScalarValue::Text(first_name.to_string()),
        ScalarValue::Text(last_name.to_string()),
        ScalarValue::U16(amount),
    ]
}

#[test]
fn struct_serialize_archive() {
    let user = Record {
        fields: vec![
            FieldValue::Text("John".to_string()),
            FieldValue::Text("Doe".to_string()),
            FieldValue::U16(256),
        ],
    };
    let bytes = Encoder::serialize(&user).unwrap();

    let mut decoder = Reader::new(bytes);
    let user_archived = decoder.archive().unwrap();

    assert_eq!(text_of(&user_archived.fields[0]), "John".to_string());
    assert_eq!(text_of(&user_archived.fields[1]), "Doe".to_string());
}

// In-place mutation through the validated view: the two payload bytes of a
// 16-bit field change, the structure does not, and the handle stays valid
// with no re-validation.
#[test]
fn struct_archive_mutate_in_place() {
    let user = Record {
        fields: vec![
            FieldValue::Text("John".to_string()),
            FieldValue::Text("Doe".to_string()),
            FieldValue::U16(256),
        ],
    };
    let bytes = Encoder::serialize(&user).unwrap();
    let mut handle = Reader::new(bytes);

    assert!(handle.set_u16(2, 512).is_ok());
    // Writing where no 16-bit field sits would change the layout.
    assert!(handle.set_u16(0, 1).is_err());
    assert!(handle.set_u16(9, 1).is_err());

    let archived = handle.archive().unwrap();
    assert!(matches!(archived.fields[2], FieldValue::U16(512)));
    assert_eq!(text_of(&archived.fields[0]), "John");
}

// The 32-bit sibling of the in-place mutation.
#[test]
fn struct_archive_mutate_u32_in_place() {
    let car = Record {
        fields: vec![FieldValue::Text("x3".to_string()), FieldValue::U32(45000)],
    };
    let bytes = Encoder::serialize(&car).unwrap();
    let mut handle = Reader::new(bytes);

    assert!(handle.set_u32(1, 52000).is_ok());
    assert!(handle.set_u32(0, 1).is_err());

    let archived = handle.archive().unwrap();
    assert!(matches!(archived.fields[1], FieldValue::U32(52000)));
    assert_eq!(text_of(&archived.fields[0]), "x3");
}

#[test]
fn struct_with_hash_map_serialize_archive() {
    let users = Record {
        fields: vec![
            FieldValue::U16(1234),
            FieldValue::Dict(vec![
                DictEntry { key: "Somebody".to_string(), value: user("John", "Doe", 256) },
                DictEntry { key: "jack".to_string(), value: user("Jack", "Brown", 256) },
            ]),
        ],
    };

    let bytes = Encoder::serialize(&users).unwrap();
    let mut decoder = Reader::new(bytes);
    let users_archived = decoder.archive().unwrap();

    assert!(matches!(users_archived.fields[0], FieldValue::U16(1234)));

    let values = dict_of(&users_archived.fields[1]);
    assert!(dict_get(values, "Somebody").is_some());
    let somebody = dict_get(values, "Somebody").unwrap();
    assert_eq!(scalar_text_of(&somebody[0]), "John".to_string());
    assert_eq!(scalar_text_of(&somebody[1]), "Doe".to_string());

    assert!(dict_get(values, "jack").is_some());
    let jack = dict_get(values, "jack").unwrap();
    assert_eq!(scalar_text_of(&jack[0]), "Jack".to_string());
    assert_eq!(scalar_text_of(&jack[1]), "Brown".to_string());
}
