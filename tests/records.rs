use meter_catalog::crud::{delete_by_primary_key, filter_by_equality, insert, list_all, Table, Value};
use meter_catalog::error::Error;
use meter_catalog::meter::MeterType;
use meter_catalog::migration::{Migration, MigrationOperation};
use meter_catalog::model::{FieldDescriptor, FieldKind, ModelDescriptor};
use meter_catalog::registry::Registry;
use meter_catalog::runner::{run, Store};

fn meter_type_fields() -> Vec<FieldDescriptor> {
    vec![
        FieldDescriptor::primary_key("id".to_string()),
        FieldDescriptor::new("name".to_string(), FieldKind::Text),
    ]
}

fn meter_type() -> ModelDescriptor {
    ModelDescriptor::new("MeterType".to_string(), meter_type_fields()).unwrap()
}

fn text(s: &str) -> Value {
    Value::Text(s.to_string())
}

fn text_of(v: &Value) -> String {
    match v {
        Value::Text(s) => s.clone(),
        _ => panic!("not a text value"),
    }
}

#[test]
fn meter_type_scenario() {
    let mut registry = Registry::new();
    assert!(registry.register(meter_type()).is_ok());
    let d = registry.lookup(&"MeterType".to_string()).unwrap();

    let mut store = Store::new();
    let create = Migration::new("cot_meter".to_string(), 1, "initial".to_string()).with_operation(
        MigrationOperation::CreateModel { model_name: "MeterType".to_string(), fields: meter_type_fields() },
    );
    assert_eq!(run(&vec![create], &mut store, 100).unwrap(), 1);
    assert_eq!(store.schema.len(), 1);
    assert_eq!(store.schema[0].model_name, "MeterType");

    let mut table = Table::new();
    let k1 = insert(d, vec![Value::Null, text("gas meter")], &mut table).unwrap();
    let rows = list_all(d, &table);
    assert_eq!(rows.len(), 1);
    assert_eq!(rows[0].key, k1);
    assert!(matches!(rows[0].values[0], Value::Integer(k) if k == k1));
    assert_eq!(text_of(&rows[0].values[1]), "gas meter");

    assert_eq!(delete_by_primary_key(d, k1, &mut table), 1);
    assert!(list_all(d, &table).is_empty());
}

#[test]
fn inserted_record_listed_once() {
    let d = meter_type();
    let mut table = Table::new();
    insert(&d, vec![Value::Null, text("water")], &mut table).unwrap();
    let k = insert(&d, vec![Value::Null, text("heat")], &mut table).unwrap();
    insert(&d, vec![Value::Null, text("power")], &mut table).unwrap();
    let rows = list_all(&d, &table);
    assert_eq!(rows.len(), 3);
    let found: Vec<_> = rows.iter().filter(|r| r.key == k).collect();
    assert_eq!(found.len(), 1);
    assert_eq!(text_of(&found[0].values[1]), "heat");
}

#[test]
fn keys_count_up_from_one() {
    let d = meter_type();
    let mut table = Table::new();
    assert_eq!(insert(&d, vec![Value::Null, text("a")], &mut table).unwrap(), 1);
    assert_eq!(insert(&d, vec![Value::Null, text("b")], &mut table).unwrap(), 2);
    assert_eq!(table.next_key, 3);
}

#[test]
fn delete_missing_key_is_noop() {
    let d = meter_type();
    let mut table = Table::new();
    let k = insert(&d, vec![Value::Null, text("gas")], &mut table).unwrap();
    assert_eq!(delete_by_primary_key(&d, k + 10, &mut table), 0);
    assert_eq!(list_all(&d, &table).len(), 1);
    assert_eq!(delete_by_primary_key(&d, 5, &mut Table::new()), 0);
}

#[test]
fn delete_keeps_other_rows_in_order() {
    let d = meter_type();
    let mut table = Table::new();
    let a = insert(&d, vec![Value::Null, text("a")], &mut table).unwrap();
    let b = insert(&d, vec![Value::Null, text("b")], &mut table).unwrap();
    let c = insert(&d, vec![Value::Null, text("c")], &mut table).unwrap();
    assert_eq!(delete_by_primary_key(&d, b, &mut table), 1);
    let keys: Vec<i64> = list_all(&d, &table).iter().map(|r| r.key).collect();
    assert_eq!(keys, vec![a, c]);
}

#[test]
fn filter_unknown_field_fails() {
    let d = meter_type();
    let mut table = Table::new();
    insert(&d, vec![Value::Null, text("gas")], &mut table).unwrap();
    let r = filter_by_equality(&d, &"colour".to_string(), &text("gas"), &table);
    assert!(matches!(r, Err(Error::UnknownField)));
}

#[test]
fn filter_returns_matching_rows() {
    let d = meter_type();
    let mut table = Table::new();
    insert(&d, vec![Value::Null, text("gas")], &mut table).unwrap();
    let w = insert(&d, vec![Value::Null, text("water")], &mut table).unwrap();
    insert(&d, vec![Value::Null, text("gas")], &mut table).unwrap();
    let gas = filter_by_equality(&d, &"name".to_string(), &text("gas"), &table).unwrap();
    assert_eq!(gas.iter().map(|r| r.key).collect::<Vec<_>>(), vec![1, 3]);
    let by_id = filter_by_equality(&d, &"id".to_string(), &Value::Integer(w), &table).unwrap();
    assert_eq!(by_id.len(), 1);
    assert_eq!(text_of(&by_id[0].values[1]), "water");
    let none = filter_by_equality(&d, &"name".to_string(), &text("heat"), &table).unwrap();
    assert!(none.is_empty());
}

#[test]
fn unique_field_collision_rejected() {
    let fields = vec![
        FieldDescriptor::primary_key("id".to_string()),
        FieldDescriptor::new("name".to_string(), FieldKind::Text).with_unique(true),
    ];
    let d = ModelDescriptor::new("MeterType".to_string(), fields).unwrap();
    let mut table = Table::new();
    insert(&d, vec![Value::Null, text("gas")], &mut table).unwrap();
    let r = insert(&d, vec![Value::Null, text("gas")], &mut table);
    assert!(matches!(r, Err(Error::ConstraintViolation)));
    assert_eq!(table.rows.len(), 1);
    assert_eq!(table.next_key, 2);
    assert!(insert(&d, vec![Value::Null, text("water")], &mut table).is_ok());
}

#[test]
fn null_values_do_not_collide_on_unique_fields() {
    let fields = vec![
        FieldDescriptor::primary_key("id".to_string()),
        FieldDescriptor::new("serial".to_string(), FieldKind::Text).with_unique(true).with_nullable(true),
    ];
    let d = ModelDescriptor::new("Meter".to_string(), fields).unwrap();
    let mut table = Table::new();
    insert(&d, vec![Value::Null, Value::Null], &mut table).unwrap();
    assert!(insert(&d, vec![Value::Null, Value::Null], &mut table).is_ok());
}

#[test]
fn registry_rejects_duplicates_and_unknown_names() {
    let mut registry = Registry::new();
    assert!(registry.register(meter_type()).is_ok());
    assert!(matches!(registry.register(meter_type()), Err(Error::DuplicateModel)));
    assert_eq!(registry.models.len(), 1);
    assert!(matches!(registry.lookup(&"Meter".to_string()), Err(Error::UnknownModel)));
}

#[test]
fn descriptor_needs_one_primary_key_and_distinct_names() {
    let none = vec![FieldDescriptor::new("name".to_string(), FieldKind::Text)];
    assert!(ModelDescriptor::new("A".to_string(), none).is_none());
    let two = vec![FieldDescriptor::primary_key("id".to_string()), FieldDescriptor::primary_key("id2".to_string())];
    assert!(ModelDescriptor::new("A".to_string(), two).is_none());
    let dup = vec![
        FieldDescriptor::primary_key("id".to_string()),
        FieldDescriptor::new("id".to_string(), FieldKind::Text),
    ];
    assert!(ModelDescriptor::new("A".to_string(), dup).is_none());
    let d = meter_type();
    assert_eq!(d.primary_key_index(), 0);
    assert_eq!(d.field_index(&"name".to_string()), Some(1));
    assert_eq!(d.field_index(&"colour".to_string()), None);
}

#[test]
fn meter_type_model_round_trip() {
    let d = MeterType::descriptor();
    assert_eq!(d.model_name, "MeterType");
    assert_eq!(d.fields.len(), 2);
    assert_eq!(d.fields[0].name, "id");
    assert!(d.fields[0].is_primary_key);
    assert_eq!(d.fields[1].name, "name");
    assert_eq!(d.fields[1].kind, FieldKind::Text);

    let mut table = Table::new();
    let gas = MeterType { id: None, name: "gas meter".to_string() };
    assert_eq!(gas.display(), "gas meter");
    let k1 = insert(&d, gas.to_values(), &mut table).unwrap();
    let rows = list_all(&d, &table);
    assert_eq!(rows.len(), 1);
    let back = MeterType::from_row(&rows[0]).unwrap();
    assert_eq!(back.id, Some(k1));
    assert_eq!(back.name, "gas meter");
    assert_eq!(delete_by_primary_key(&d, k1, &mut table), 1);
    assert!(list_all(&d, &table).is_empty());
}
