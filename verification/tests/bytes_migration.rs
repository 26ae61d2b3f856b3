use serde_flow::error::SerdeFlowError;
use serde_flow::flow::{decode, encode, MigrationRegistry};
use serde_flow::record::{FieldValue, Record};

// The record family under test mirrors a string-holding schema in its third
// shape, with two registered prior shapes:
//   shape 1: { field: text, value1: u32, value2: u32 }
//   shape 2: { field: text, value: u32 }
//   shape 3: { field: text }

fn text_of(f: &FieldValue) -> &str {
    match f {
        FieldValue::Text(s) => s.as_str(),
        _ => panic!("expected a text field"),
    }
}

fn u32_of(f: &FieldValue) -> u32 {
    match f {
        FieldValue::U32(x) => *x,
        _ => panic!("expected a u32 field"),
    }
}

fn my_struct_v1(field: &str, value1: u32, value2: u32) -> Record {
    Record {
        fields: vec![
            FieldValue::Text(field.to_string()),
            FieldValue::U32(value1),
            FieldValue::U32(value2),
        ],
    }
}

fn my_struct_registry() -> MigrationRegistry {
    let mut reg = MigrationRegistry::new(3);
    assert!(reg.register(2));
    assert!(reg.register(1));
    reg
}

fn my_struct_convert(tag: u16, prior: Record) -> Record {
    match tag {
        1 => {
            let value1 = u32_of(&prior.fields[1]);
            let value2 = u32_of(&prior.fields[2]);
            Record { fields: vec![FieldValue::Text(format!("Name: {}", value1 + value2))] }
        }
        2 => {
            let value = u32_of(&prior.fields[1]);
            Record { fields: vec![FieldValue::Text(format!("Name: {}", value))] }
        }
        _ => panic!("unregistered prior tag"),
    }
}

fn my_struct_v2_registry() -> MigrationRegistry {
    let mut reg = MigrationRegistry::new(2);
    assert!(reg.register(1));
    reg
}

fn my_struct_v2_convert(tag: u16, prior: Record) -> Record {
    match tag {
        1 => {
            let value1 = u32_of(&prior.fields[1]);
            let value2 = u32_of(&prior.fields[2]);
            Record {
                fields: vec![
                    FieldValue::Text("Name: ".to_string()),
                    FieldValue::U32(value1 + value2),
                ],
            }
        }
        _ => panic!("unregistered prior tag"),
    }
}

#[test]
pub fn decode_from_v1() {
    let mystruct1 = my_struct_v1("Name: ", 10, 20);

    let bytes = encode(1, &mystruct1).unwrap();
    let mystruct3 = decode(&my_struct_registry(), my_struct_convert, &bytes).unwrap();
    assert_eq!("Name: 30", text_of(&mystruct3.fields[0]));
}

#[test]
pub fn decode_v2_from_v1() {
    let mystruct1 = my_struct_v1("Name: ", 10, 20);

    let bytes = encode(1, &mystruct1).unwrap();
    let mystruct2 = decode(&my_struct_v2_registry(), my_struct_v2_convert, &bytes).unwrap();
    assert_eq!("Name: ", text_of(&mystruct2.fields[0]));
    assert_eq!(30, u32_of(&mystruct2.fields[1]));
}

#[test]
pub fn decode_from_emtpy_returns_error() {
    let empty_bytes = Vec::<u8>::new();
    let result = decode(&my_struct_registry(), my_struct_convert, &empty_bytes);
    assert!(matches!(result, Err(SerdeFlowError::FormatInvalid)))
}

#[test]
pub fn decode_from_not_found_variant_returns_error() {
    let mystruct20 = Record { fields: vec![FieldValue::U32(20)] };
    let bytes = encode(20, &mystruct20).unwrap();
    let result = decode(&my_struct_registry(), my_struct_convert, &bytes);
    assert!(matches!(result, Err(SerdeFlowError::VariantNotFound)))
}
