use meter_catalog::error::{Error, OperationFailure};
use meter_catalog::migration::{Migration, MigrationId, MigrationOperation};
use meter_catalog::model::{FieldDescriptor, FieldKind};
use meter_catalog::plan::build_plan;
use meter_catalog::runner::{run, Store};

fn mig(app: &str, seq: u64) -> Migration {
    Migration::new(app.to_string(), seq, format!("{}_{}", app, seq))
}

fn dep(app: &str, seq: u64) -> MigrationId {
    MigrationId::new(app.to_string(), seq)
}

fn create(name: &str) -> MigrationOperation {
    MigrationOperation::CreateModel {
        model_name: name.to_string(),
        fields: vec![
            FieldDescriptor::primary_key("id".to_string()),
            FieldDescriptor::new("name".to_string(), FieldKind::Text),
        ],
    }
}

fn position(order: &[usize], i: usize) -> usize {
    order.iter().position(|&x| x == i).unwrap()
}

#[test]
fn plan_respects_dependencies_and_app_order() {
    let ms = vec![
        mig("meters", 2),
        mig("meters", 1).with_dependency(dep("auth", 2)),
        mig("auth", 2),
        mig("auth", 1),
        mig("admin", 1).with_dependency(dep("meters", 2)),
    ];
    let order = build_plan(&ms).unwrap();
    assert_eq!(order.len(), 5);
    assert!(position(&order, 3) < position(&order, 2));
    assert!(position(&order, 2) < position(&order, 1));
    assert!(position(&order, 1) < position(&order, 0));
    assert!(position(&order, 0) < position(&order, 4));
}

#[test]
fn plan_breaks_ties_by_app_then_number() {
    let ms = vec![mig("b", 1), mig("a", 2), mig("c", 1), mig("a", 1)];
    assert_eq!(build_plan(&ms).unwrap(), vec![3, 1, 0, 2]);
}

#[test]
fn plan_of_nothing_is_empty() {
    assert!(build_plan(&Vec::new()).unwrap().is_empty());
}

#[test]
fn plan_ignores_dependencies_outside_the_set() {
    let ms = vec![mig("a", 1).with_dependency(dep("gone", 7))];
    assert_eq!(build_plan(&ms).unwrap(), vec![0]);
}

#[test]
fn cyclic_dependencies_are_rejected() {
    let ms = vec![mig("a", 1).with_dependency(dep("b", 1)), mig("b", 1).with_dependency(dep("a", 1))];
    assert!(matches!(build_plan(&ms), Err(Error::CyclicDependency)));
    let own = vec![mig("a", 1).with_dependency(dep("a", 1))];
    assert!(matches!(build_plan(&own), Err(Error::CyclicDependency)));
    let back = vec![mig("a", 1).with_dependency(dep("a", 2)), mig("a", 2)];
    assert!(matches!(build_plan(&back), Err(Error::CyclicDependency)));
}

#[test]
fn cycle_leaves_store_unchanged() {
    let ms = vec![
        mig("a", 1).with_operation(create("A")).with_dependency(dep("b", 1)),
        mig("b", 1).with_operation(create("B")).with_dependency(dep("a", 1)),
    ];
    let mut store = Store::new();
    assert!(matches!(run(&ms, &mut store, 1), Err(Error::CyclicDependency)));
    assert!(store.schema.is_empty());
    assert!(store.applied.is_empty());
    assert!(!store.records_ready);
}

#[test]
fn second_run_applies_nothing() {
    let ms = vec![mig("meters", 1).with_operation(create("MeterType")), mig("meters", 2)];
    let mut store = Store::new();
    assert_eq!(run(&ms, &mut store, 10).unwrap(), 2);
    assert!(store.records_ready);
    assert_eq!(store.applied.len(), 2);
    assert_eq!(run(&ms, &mut store, 20).unwrap(), 0);
    assert_eq!(store.applied.len(), 2);
    assert_eq!(store.applied[0].applied_at, 10);
    assert_eq!(store.schema.len(), 1);
}

#[test]
fn empty_migration_is_recorded() {
    let mut store = Store::new();
    assert_eq!(run(&vec![mig("a", 1)], &mut store, 5).unwrap(), 1);
    assert_eq!(store.applied[0].app_name, "a");
    assert_eq!(store.applied[0].sequence_number, 1);
    assert_eq!(store.applied[0].applied_at, 5);
    assert!(store.schema.is_empty());
}

#[test]
fn empty_migration_list_creates_record_table() {
    let mut store = Store::new();
    assert_eq!(run(&Vec::new(), &mut store, 5).unwrap(), 0);
    assert!(store.records_ready);
}

#[test]
fn new_migrations_apply_after_old_ones() {
    let mut store = Store::new();
    let first = vec![mig("meters", 1).with_operation(create("MeterType"))];
    assert_eq!(run(&first, &mut store, 1).unwrap(), 1);
    let second = vec![
        mig("meters", 1).with_operation(create("MeterType")),
        mig("meters", 2).with_operation(MigrationOperation::AddField {
            model_name: "MeterType".to_string(),
            field: FieldDescriptor::new("unit".to_string(), FieldKind::Text),
        }),
    ];
    assert_eq!(run(&second, &mut store, 2).unwrap(), 1);
    assert_eq!(store.schema[0].fields.len(), 3);
    assert_eq!(store.schema[0].fields[2].name, "unit");
}

#[test]
fn failing_migration_stops_the_run_and_keeps_nothing_of_itself() {
    let ms = vec![
        mig("a", 1).with_operation(create("A")),
        mig("a", 2).with_operation(create("B")).with_operation(create("A")),
        mig("a", 3).with_operation(create("C")),
    ];
    let mut store = Store::new();
    match run(&ms, &mut store, 1) {
        Err(Error::Migration { app_name, sequence_number, cause }) => {
            assert_eq!(app_name, "a");
            assert_eq!(sequence_number, 2);
            assert_eq!(cause, OperationFailure::ModelExists);
        },
        other => panic!("unexpected {:?}", other),
    }
    assert_eq!(store.applied.len(), 1);
    assert_eq!(store.schema.len(), 1);
    assert_eq!(store.schema[0].model_name, "A");
}

#[test]
fn field_operations_change_the_schema() {
    let ms = vec![
        mig("a", 1).with_operation(create("A")),
        mig("a", 2).with_operation(MigrationOperation::AlterField {
            model_name: "A".to_string(),
            field_name: "name".to_string(),
            new_descriptor: FieldDescriptor::new("title".to_string(), FieldKind::Text).with_max_length(Some(100)),
        }),
        mig("a", 3).with_operation(MigrationOperation::AddField {
            model_name: "A".to_string(),
            field: FieldDescriptor::new("active".to_string(), FieldKind::Bool),
        }),
        mig("a", 4).with_operation(MigrationOperation::RemoveField {
            model_name: "A".to_string(),
            field_name: "title".to_string(),
        }),
    ];
    let mut store = Store::new();
    assert_eq!(run(&ms, &mut store, 1).unwrap(), 4);
    let fields = &store.schema[0].fields;
    assert_eq!(fields.len(), 2);
    assert_eq!(fields[0].name, "id");
    assert_eq!(fields[1].name, "active");
    assert_eq!(fields[1].kind, FieldKind::Bool);
}

fn failure_of(op: MigrationOperation) -> OperationFailure {
    let ms = vec![mig("a", 1).with_operation(create("A")), mig("a", 2).with_operation(op)];
    let mut store = Store::new();
    match run(&ms, &mut store, 1) {
        Err(Error::Migration { cause, .. }) => cause,
        other => panic!("unexpected {:?}", other),
    }
}

#[test]
fn each_operation_failure_is_reported() {
    assert_eq!(
        failure_of(MigrationOperation::AddField {
            model_name: "Z".to_string(),
            field: FieldDescriptor::new("x".to_string(), FieldKind::Text),
        }),
        OperationFailure::NoSuchModel
    );
    assert_eq!(
        failure_of(MigrationOperation::RemoveField { model_name: "A".to_string(), field_name: "x".to_string() }),
        OperationFailure::NoSuchField
    );
    assert_eq!(
        failure_of(MigrationOperation::RemoveField { model_name: "A".to_string(), field_name: "id".to_string() }),
        OperationFailure::InvalidFields
    );
    assert_eq!(
        failure_of(MigrationOperation::AddField {
            model_name: "A".to_string(),
            field: FieldDescriptor::new("name".to_string(), FieldKind::Text),
        }),
        OperationFailure::InvalidFields
    );
    assert_eq!(
        failure_of(MigrationOperation::AlterField {
            model_name: "A".to_string(),
            field_name: "nope".to_string(),
            new_descriptor: FieldDescriptor::new("x".to_string(), FieldKind::Text),
        }),
        OperationFailure::NoSuchField
    );
}
