use serde_flow::flow::{encode, load, load_and_migrate, migrate, MigrationRegistry};
use serde_flow::record::{FieldValue, Record};

// The record family under test mirrors a user schema in its third shape:
//   shape 1: { name: text }
//   shape 2: { first_name: text, last_name: text }
//   shape 3: { first_name: text, middle_name: text, last_name: text }

fn text_of(f: &FieldValue) -> &str {
    match f {
        FieldValue::Text(s) => s.as_str(),
        _ => panic!("expected a text field"),
    }
}

fn text_record(parts: &[&str]) -> Record {
    Record { fields: parts.iter().map(|p| FieldValue::Text(p.to_string())).collect() }
}

fn user_registry() -> MigrationRegistry {
    let mut reg = MigrationRegistry::new(3);
    assert!(reg.register(2));
    assert!(reg.register(1));
    reg
}

fn user_convert(tag: u16, prior: Record) -> Record {
    match tag {
        2 => {
            let first_name = text_of(&prior.fields[0]).to_string();
            let last_name = text_of(&prior.fields[1]).to_string();
            let names: Vec<String> =
                last_name.split(' ').filter(|v| !v.is_empty()).map(|v| v.to_string()).collect();
            if names.len() == 2 {
                return text_record(&[&first_name, &names[0], &names[1]]);
            }
            text_record(&[&first_name, "", &last_name])
        }
        1 => {
            let name = text_of(&prior.fields[0]).to_string();
            let names: Vec<String> =
                name.split(' ').filter(|v| !v.is_empty()).map(|v| v.to_string()).collect();
            let first_name = names.first().cloned().unwrap_or_default();
            let middle_name = names.get(1).cloned().unwrap_or_default();
            let last_name = names.get(2).cloned().unwrap_or_default();
            text_record(&[&first_name, &middle_name, &last_name])
        }
        _ => panic!("unregistered prior tag"),
    }
}

fn no_convert(_tag: u16, _prior: Record) -> Record {
    panic!("no migration edge should be taken");
}

#[test]
fn basic_migration_test_v2_load_from_path() {
    let user_v2 = text_record(&["John Adam Doe"]);

    let file = Some(encode(1, &user_v2).unwrap());

    let user = load(file.as_ref(), &user_registry(), user_convert).unwrap();
    assert_eq!(text_of(&user.fields[0]), "John");
    assert_eq!(text_of(&user.fields[1]), "Adam");
    assert_eq!(text_of(&user.fields[2]), "Doe");
}

#[test]
fn test_v1_load_from_path() {
    let user_v1 = text_record(&["John", "Adam Doe"]);

    let file = Some(encode(2, &user_v1).unwrap());

    let user = load(file.as_ref(), &user_registry(), user_convert).unwrap();
    assert_eq!(text_of(&user.fields[0]), "John");
    assert_eq!(text_of(&user.fields[1]), "Adam");
    assert_eq!(text_of(&user.fields[2]), "Doe");
}

#[test]
fn test_v2_migrate() {
    let user_v2 = text_record(&["John Adam Doe"]);

    let mut file = Some(encode(1, &user_v2).unwrap());

    // A fresh tag-3 shape with no registered migrations cannot read the
    // old record yet.
    let user_test_v3_registry = MigrationRegistry::new(3);
    let err_without_migrate = load(file.as_ref(), &user_test_v3_registry, no_convert);
    assert!(err_without_migrate.is_err());

    let rewritten = migrate(file.as_ref(), &user_registry(), user_convert).unwrap();
    if let Some(bytes) = rewritten {
        file = Some(bytes);
    }
    let user = load(file.as_ref(), &user_test_v3_registry, no_convert).unwrap();

    assert_eq!(text_of(&user.fields[0]), "John");
    assert_eq!(text_of(&user.fields[1]), "Adam");
    assert_eq!(text_of(&user.fields[2]), "Doe");
}

#[test]
fn test_v2_load_and_migrate() {
    let user_v2 = text_record(&["John Adam Doe"]);

    let mut file = Some(encode(1, &user_v2).unwrap());

    let user_test_v3_registry = MigrationRegistry::new(3);
    let err_without_migrate = load(file.as_ref(), &user_test_v3_registry, no_convert);
    assert!(err_without_migrate.is_err());

    let (loaded_user, rewritten) =
        load_and_migrate(file.as_ref(), &user_registry(), user_convert).unwrap();
    assert_eq!(text_of(&loaded_user.fields[0]), "John");
    assert_eq!(text_of(&loaded_user.fields[1]), "Adam");
    assert_eq!(text_of(&loaded_user.fields[2]), "Doe");
    if let Some(bytes) = rewritten {
        file = Some(bytes);
    }
    let user = load(file.as_ref(), &user_test_v3_registry, no_convert).unwrap();

    assert_eq!(text_of(&user.fields[0]), "John");
    assert_eq!(text_of(&user.fields[1]), "Adam");
    assert_eq!(text_of(&user.fields[2]), "Doe");
}

// The textual-codec variant of loading and migrating a prior car record;
// the payload codec is this crate's own, and the values match the textual
// scenario: a tag-1 car { brand, model, price: u32 } read as the tag-3
// shape { name, price: text }.
#[test]
fn json_migration_test_load_and_migrate() {
    let car_v2 = Record {
        fields: vec![
            FieldValue::Text("BMW".to_string()),
            FieldValue::Text("x5".to_string()),
            FieldValue::U32(75000),
        ],
    };

    let mut file = Some(encode(1, &car_v2).unwrap());

    let mut car_registry = MigrationRegistry::new(3);
    assert!(car_registry.register(2));
    assert!(car_registry.register(1));
    let car_convert = |tag: u16, prior: Record| -> Record {
        let brand = text_of(&prior.fields[0]).to_string();
        let model = text_of(&prior.fields[1]).to_string();
        let price = match tag {
            1 => match &prior.fields[2] {
                FieldValue::U32(x) => format!("${}", x),
                _ => panic!("expected a u32 field"),
            },
            _ => text_of(&prior.fields[2]).to_string(),
        };
        Record {
            fields: vec![FieldValue::Text(format!("{} {}", brand, model)), FieldValue::Text(price)],
        }
    };

    let car_test_registry = MigrationRegistry::new(3);
    let err_without_migrate = load(file.as_ref(), &car_test_registry, no_convert);
    assert!(err_without_migrate.is_err());

    let (loaded_car, rewritten) =
        load_and_migrate(file.as_ref(), &car_registry, car_convert).unwrap();
    assert_eq!(text_of(&loaded_car.fields[0]), "BMW x5");
    assert_eq!(text_of(&loaded_car.fields[1]), "$75000");
    if let Some(bytes) = rewritten {
        file = Some(bytes);
    }
    let car = load(file.as_ref(), &car_test_registry, no_convert).unwrap();

    assert_eq!(text_of(&car.fields[0]), "BMW x5");
    assert_eq!(text_of(&car.fields[1]), "$75000");
}
