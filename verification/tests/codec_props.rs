use serde_flow::error::SerdeFlowError;
use serde_flow::flow::{decode, encode, FlowId, MigrationRegistry, Resolution, resolve};
use serde_flow::record::{DictEntry, FieldValue, Record, ScalarValue};
use serde_flow::zerocopy::{Encoder, Reader};

fn text_of(f: &FieldValue) -> &str {
    match f {
        FieldValue::Text(s) => s.as_str(),
        _ => panic!("expected a text field"),
    }
}

fn no_convert(_tag: u16, _prior: Record) -> Record {
    panic!("no migration edge should be taken");
}

fn sample_record() -> Record {
    Record {
        fields: vec![
            FieldValue::Text("grüße".to_string()),
            FieldValue::U16(65535),
            FieldValue::U32(4294967295),
            FieldValue::Dict(vec![
                DictEntry {
                    key: "k".to_string(),
                    value: vec![ScalarValue::Text(String::new()), ScalarValue::U16(0)],
                },
                DictEntry { key: String::new(), value: vec![ScalarValue::U32(17)] },
            ]),
            FieldValue::Text(String::new()),
        ],
    }
}

// Round trip over every field kind, including non-ASCII text, extreme
// integers, empty text and an empty key.
#[test]
fn encode_decode_round_trip_all_field_kinds() {
    let original = sample_record();
    let reg = MigrationRegistry::new(9);

    let bytes = encode(9, &original).unwrap();
    let decoded = decode(&reg, no_convert, &bytes).unwrap();

    assert_eq!(decoded, sample_record());
}

// The archive view is cached: a second call observes the same content.
#[test]
fn archive_twice_returns_equal_views() {
    let bytes = Encoder::serialize(&sample_record()).unwrap();
    let mut reader = Reader::new(bytes);

    let first: Record = Record { fields: reader.archive().unwrap().fields.iter().map(copy_field).collect() };
    let second = reader.archive().unwrap();

    assert_eq!(&first, second);
}

fn copy_field(f: &FieldValue) -> FieldValue {
    match f {
        FieldValue::Text(s) => FieldValue::Text(s.clone()),
        FieldValue::U16(x) => FieldValue::U16(*x),
        FieldValue::U32(x) => FieldValue::U32(*x),
        FieldValue::Dict(es) => FieldValue::Dict(
            es.iter()
                .map(|e| DictEntry {
                    key: e.key.clone(),
                    value: e.value.iter().map(copy_scalar).collect(),
                })
                .collect(),
        ),
    }
}

fn copy_scalar(s: &ScalarValue) -> ScalarValue {
    match s {
        ScalarValue::Text(t) => ScalarValue::Text(t.clone()),
        ScalarValue::U16(x) => ScalarValue::U16(*x),
        ScalarValue::U32(x) => ScalarValue::U32(*x),
    }
}

// Bytes that are no record at all fail with ParsingFailed, both on the
// envelope path (whose tag is readable) and on archive validation.
#[test]
fn garbage_bytes_fail_with_parsing_failed() {
    // A plausible head (count 1, a u16 tag field) followed by a truncated
    // text field.
    let garbage = vec![2u8, 0, 0, 0, 2, 9, 0, 1, 255, 255, 255, 255];
    let reg = MigrationRegistry::new(9);
    let result = decode(&reg, no_convert, &garbage);
    assert!(matches!(result, Err(SerdeFlowError::ParsingFailed)));

    let mut reader = Reader::new(vec![255u8, 255, 255]);
    assert!(matches!(reader.archive(), Err(SerdeFlowError::ParsingFailed)));
}

// A truncated head cannot address a tag.
#[test]
fn one_byte_is_format_invalid() {
    let reg = MigrationRegistry::new(9);
    let result = decode(&reg, no_convert, &[7u8]);
    assert!(matches!(result, Err(SerdeFlowError::FormatInvalid)));
}

// The tag extracted from an envelope is the tag it was encoded under.
#[test]
fn flow_id_extract_reads_tag() {
    let bytes = encode(513, &sample_record()).unwrap();
    let id = FlowId::extract(&bytes).unwrap();
    assert_eq!(id.flow_id, 513);

    assert!(matches!(FlowId::extract(&[]), Err(SerdeFlowError::FormatInvalid)));
}

// The registry keeps one edge per prior tag and never an edge from the
// current tag to itself.
#[test]
fn registry_rejects_duplicate_and_current() {
    let mut reg = MigrationRegistry::new(3);
    assert!(reg.register(1));
    assert!(!reg.register(1));
    assert!(!reg.register(3));
    assert!(reg.register(2));
    assert_eq!(reg.priors, vec![1, 2]);
}

// Resolution: the current tag matches directly, registered tags name their
// edge, anything else is unresolved.
#[test]
fn resolve_names_the_matching_edge() {
    let mut reg = MigrationRegistry::new(3);
    assert!(reg.register(2));
    assert!(reg.register(1));

    assert_eq!(resolve(&reg, 3), Resolution::DirectMatch);
    assert_eq!(resolve(&reg, 2), Resolution::MigrateFromEdge(0));
    assert_eq!(resolve(&reg, 1), Resolution::MigrateFromEdge(1));
    assert_eq!(resolve(&reg, 7), Resolution::Unresolved);
}

// Migration convergence on concrete values: decoding a prior-tag record
// yields the converted value, and the re-encoded result decodes directly.
#[test]
fn migrated_record_is_tag_stable() {
    let mut prior = Record::new();
    prior.push(FieldValue::U16(12));
    let mut reg = MigrationRegistry::new(2);
    assert!(reg.register(1));
    let convert = |_tag: u16, p: Record| -> Record {
        match &p.fields[0] {
            FieldValue::U16(x) => {
                Record { fields: vec![FieldValue::Text(format!("n{}", x))] }
            },
            _ => panic!("expected a u16 field"),
        }
    };

    let old_bytes = encode(1, &prior).unwrap();
    let migrated = decode(&reg, convert, &old_bytes).unwrap();
    assert_eq!(text_of(&migrated.fields[0]), "n12");

    let new_bytes = encode(reg.current, &migrated).unwrap();
    assert_eq!(FlowId::extract(&new_bytes).unwrap().flow_id, 2);
    let direct = decode(&reg, no_convert, &new_bytes).unwrap();
    assert_eq!(direct, migrated);
}
