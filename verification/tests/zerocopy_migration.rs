use serde_flow::flow::MigrationRegistry;
use serde_flow::record::{FieldValue, Record};
use serde_flow::zerocopy::{encode, load};

// The prefixed-archive layout with migration: a tag-1 car
// { brand, model, price: u32 } stored on disk, loaded as the tag-3 shape
// { name, price: text }, re-persisted under the current tag on the way.

fn text_of(f: &FieldValue) -> &str {
    match f {
        FieldValue::Text(s) => s.as_str(),
        _ => panic!("expected a text field"),
    }
}

fn u32_of(f: &FieldValue) -> u32 {
    match f {
        FieldValue::U32(x) => *x,
        _ => panic!("expected a u32 field"),
    }
}

fn car_convert(tag: u16, prior: Record) -> Record {
    let brand = text_of(&prior.fields[0]).to_string();
    let model = text_of(&prior.fields[1]).to_string();
    let price = match tag {
        1 => format!("${}", u32_of(&prior.fields[2])),
        2 => text_of(&prior.fields[2]).to_string(),
        _ => panic!("unregistered prior tag"),
    };
    Record {
        fields: vec![FieldValue::Text(format!("{} {}", brand, model)), FieldValue::Text(price)],
    }
}

#[test]
fn zerocopy_basic_migration_test_v2_load_from_path() {
    let car_v2 = Record {
        fields: vec![
            FieldValue::Text("BMW".to_string()),
            FieldValue::Text("x3".to_string()),
            FieldValue::U32(45000),
        ],
    };

    let file = Some(encode(1, &car_v2).unwrap());

    let mut car_registry = MigrationRegistry::new(3);
    assert!(car_registry.register(2));
    assert!(car_registry.register(1));

    let (mut car, rewritten) = load(file, &car_registry, car_convert).unwrap();
    assert!(rewritten.is_some());
    let car_archived = car.archive().unwrap();

    assert_eq!(text_of(&car_archived.fields[0]), "BMW x3".to_string());
    assert_eq!(text_of(&car_archived.fields[1]), "$45000".to_string());
}
