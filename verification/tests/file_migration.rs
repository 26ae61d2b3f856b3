use serde_flow::error::SerdeFlowError;
use serde_flow::flow::{encode, load, load_and_migrate, migrate, MigrationRegistry};
use serde_flow::record::{FieldValue, Record};

// The record family under test mirrors a car schema in its third shape:
//   shape 1: { brand: text, model: text, price: u32 }
//   shape 2: { brand: text, model: text, price: text }
//   shape 3: { name: text, price: text }
// A destination's contents stand in for a stored file: `None` is an absent
// file, `Some(bytes)` its current contents.

fn text_of(f: &FieldValue) -> &str {
    match f {
        FieldValue::Text(s) => s.as_str(),
        _ => panic!("expected a text field"),
    }
}

fn u32_of(f: &FieldValue) -> u32 {
    match f {
        FieldValue::U32(x) => *x,
        _ => panic!("expected a u32 field"),
    }
}

fn car_v2(brand: &str, model: &str, price: u32) -> Record {
    Record {
        fields: vec![
            FieldValue::Text(brand.to_string()),
            FieldValue::Text(model.to_string()),
            FieldValue::U32(price),
        ],
    }
}

fn car_registry() -> MigrationRegistry {
    let mut reg = MigrationRegistry::new(3);
    assert!(reg.register(2));
    assert!(reg.register(1));
    reg
}

fn car_convert(tag: u16, prior: Record) -> Record {
    let brand = text_of(&prior.fields[0]).to_string();
    let model = text_of(&prior.fields[1]).to_string();
    let price = match tag {
        1 => format!("${}", u32_of(&prior.fields[2])),
        2 => text_of(&prior.fields[2]).to_string(),
        _ => panic!("unregistered prior tag"),
    };
    Record {
        fields: vec![FieldValue::Text(format!("{} {}", brand, model)), FieldValue::Text(price)],
    }
}

fn no_convert(_tag: u16, _prior: Record) -> Record {
    panic!("no migration edge should be taken");
}

#[test]
fn test_save_to_path() {
    let car_v2 = car_v2("BMW", "x3", 45000);

    let result = encode(1, &car_v2);

    assert!(result.is_ok());
}

#[test]
fn test_load_from_path() {
    let car_v2 = car_v2("BMW", "x3", 45000);

    let file = Some(encode(1, &car_v2).unwrap());

    let car = load(file.as_ref(), &car_registry(), car_convert).unwrap();

    assert_eq!(text_of(&car.fields[0]), "BMW x3".to_string());
    assert_eq!(text_of(&car.fields[1]), "$45000".to_string());
}

#[test]
fn test_load_from_path_variant_not_found() {
    let car_v2 = car_v2("BMW", "x3", 45000);

    let file = Some(encode(1, &car_v2).unwrap());

    // A current shape under tag 4 with no registered migrations.
    let no_migration = MigrationRegistry::new(4);
    let result = load(file.as_ref(), &no_migration, no_convert);
    let Err(SerdeFlowError::VariantNotFound) = result else {
        panic!("load_from_path no variant, must return VariantNotFound");
    };
}

#[test]
fn test_load_from_path_insufficient_variants() {
    let car_v2 = car_v2("BMW", "x3", 45000);

    let file = Some(encode(1, &car_v2).unwrap());

    // A current shape under tag 4 that registers shape 2 only, while the
    // stored record carries tag 1.
    let mut with_migration = MigrationRegistry::new(4);
    assert!(with_migration.register(2));
    let result = load(file.as_ref(), &with_migration, car_convert);
    let Err(SerdeFlowError::VariantNotFound) = result else {
        panic!("load_from_path no variant, must return VariantNotFound");
    };
}

#[test]
fn test_migrate() {
    let car_v2 = car_v2("BMW", "x3", 45000);

    let mut file = Some(encode(1, &car_v2).unwrap());

    // There is no migration for the plain tag-3 shape: loading the
    // unmigrated record causes an error.
    let car_test_registry = MigrationRegistry::new(3);
    let result = load(file.as_ref(), &car_test_registry, no_convert);
    assert!(result.is_err());

    // Migrate with the shape that has migration capabilities.
    let rewritten = migrate(file.as_ref(), &car_registry(), car_convert).unwrap();
    if let Some(bytes) = rewritten {
        file = Some(bytes);
    }
    // Load with the shape that has no migration capabilities.
    let car = load(file.as_ref(), &car_test_registry, no_convert).unwrap();

    assert_eq!(text_of(&car.fields[0]), "BMW x3".to_string());
    assert_eq!(text_of(&car.fields[1]), "$45000".to_string());
}

#[test]
fn async_migration_test_load_and_migrate() {
    let car_v2 = car_v2("BMW", "x3", 45000);

    let mut file = Some(encode(1, &car_v2).unwrap());

    let car_test_registry = MigrationRegistry::new(3);
    let result = load(file.as_ref(), &car_test_registry, no_convert);
    assert!(result.is_err());

    let (migrated_car, rewritten) =
        load_and_migrate(file.as_ref(), &car_registry(), car_convert).unwrap();
    assert_eq!(text_of(&migrated_car.fields[0]), "BMW x3".to_string());
    assert_eq!(text_of(&migrated_car.fields[1]), "$45000".to_string());
    if let Some(bytes) = rewritten {
        file = Some(bytes);
    }

    // Load with the shape that has no migration capabilities.
    let car = load(file.as_ref(), &car_test_registry, no_convert).unwrap();

    assert_eq!(text_of(&car.fields[0]), "BMW x3".to_string());
    assert_eq!(text_of(&car.fields[1]), "$45000".to_string());
}

#[test]
fn test_load_from_file_not_found() {
    let file: Option<Vec<u8>> = None;

    let result = load(file.as_ref(), &car_registry(), car_convert);
    let Err(SerdeFlowError::FileNotFound) = result else {
        panic!("load_from_path without file, must return FileNotFound");
    };
}

#[test]
fn test_load_from_file_format_invalid() {
    let file = Some(Vec::new());

    let result = load(file.as_ref(), &car_registry(), car_convert);
    let Err(SerdeFlowError::FormatInvalid) = result else {
        panic!("load_from_path with empty file, must return FormatInvalid");
    };
}

#[test]
fn test_migration_not_found() {
    let file: Option<Vec<u8>> = None;

    let result = migrate(file.as_ref(), &car_registry(), car_convert);
    let Err(SerdeFlowError::FileNotFound) = result else {
        panic!("Migrate without file, must return FileNotFound");
    };
}

#[test]
fn test_migration_format_invalid() {
    let file = Some(Vec::new());

    let result = migrate(file.as_ref(), &car_registry(), car_convert);
    let Err(SerdeFlowError::FormatInvalid) = result else {
        panic!("Migrate with empty file, must return FormatInvalid");
    };
}
