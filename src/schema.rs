use vstd::prelude::*;
use crate::error::OperationFailure;
use crate::migration::MigrationOperation;
use crate::model::{
    check_fields, copy_fields, fields_valid, find_field, field_at, has_field, FieldDescriptor,
    ModelDescriptor, ModelView,
};
use crate::registry::find_model;

verus! {

/// What a list of tables stands for.
pub open spec fn schema_view(models: Seq<ModelDescriptor>) -> Seq<ModelView> {
    models.map_values(|m: ModelDescriptor| m@)
}

/// Every table has valid fields and no two tables share a name.
pub open spec fn schema_wf(s: Seq<ModelView>) -> bool {
    &&& forall|i: int| 0 <= i < s.len() ==> fields_valid(#[trigger] s[i].fields)
    &&& forall|i: int, j: int| 0 <= i < j < s.len() ==> (#[trigger] s[i].name) != (#[trigger] s[j].name)
}

pub open spec fn schema_has(s: Seq<ModelView>, name: Seq<char>) -> bool {
    exists|i: int| 0 <= i < s.len() && (#[trigger] s[i].name) == name
}

/// Position of the table called `name`.
pub open spec fn model_at(s: Seq<ModelView>, name: Seq<char>) -> int {
    choose|i: int| 0 <= i < s.len() && (#[trigger] s[i].name) == name
}


/// Gives table `name` the fields `fs`, when they are valid.
pub open spec fn change_fields(s: Seq<ModelView>, name: Seq<char>, fs: Seq<FieldDescriptor>) -> Result<
    Seq<ModelView>,
    OperationFailure,
> {
    if fields_valid(fs) {
        Ok(s.update(model_at(s, name), ModelView { name, fields: fs }))
    } else {
        Err(OperationFailure::InvalidFields)
    }
}

/// The schema after one operation, or why the operation does not apply.
pub open spec fn apply_op(s: Seq<ModelView>, op: MigrationOperation) -> Result<Seq<ModelView>, OperationFailure> {
    match op {
        MigrationOperation::CreateModel { model_name, fields } => {
            if schema_has(s, model_name@) {
                Err(OperationFailure::ModelExists)
            } else if !fields_valid(fields@) {
                Err(OperationFailure::InvalidFields)
            } else {
                Ok(s.push(ModelView { name: model_name@, fields: fields@ }))
            }
        },
        MigrationOperation::AddField { model_name, field } => {
            if !schema_has(s, model_name@) {
                Err(OperationFailure::NoSuchModel)
            } else {
                change_fields(s, model_name@, s[model_at(s, model_name@)].fields.push(field))
            }
        },
        MigrationOperation::AlterField { model_name, field_name, new_descriptor } => {
            if !schema_has(s, model_name@) {
                Err(OperationFailure::NoSuchModel)
            } else {
                let fs = s[model_at(s, model_name@)].fields;
                if !has_field(fs, field_name@) {
                    Err(OperationFailure::NoSuchField)
                } else {
                    change_fields(s, model_name@, fs.update(field_at(fs, field_name@), new_descriptor))
                }
            }
        },
        MigrationOperation::RemoveField { model_name, field_name } => {
            if !schema_has(s, model_name@) {
                Err(OperationFailure::NoSuchModel)
            } else {
                let fs = s[model_at(s, model_name@)].fields;
                if !has_field(fs, field_name@) {
                    Err(OperationFailure::NoSuchField)
                } else {
                    change_fields(s, model_name@, fs.remove(field_at(fs, field_name@)))
                }
            }
        },
    }
}

/// The schema after a list of operations, applied in order, or the first
/// failure.
pub open spec fn apply_ops(s: Seq<ModelView>, ops: Seq<MigrationOperation>) -> Result<
    Seq<ModelView>,
    OperationFailure,
>
    decreases ops.len(),
{
    if ops.len() == 0 {
        Ok(s)
    } else {
        match apply_ops(s, ops.drop_last()) {
            Ok(t) => apply_op(t, ops.last()),
            Err(e) => Err(e),
        }
    }
}

proof fn lemma_apply_op_wf(s: Seq<ModelView>, op: MigrationOperation)
    requires
        schema_wf(s),
    ensures
        apply_op(s, op) matches Ok(t) ==> schema_wf(t),
{
    match op {
        MigrationOperation::CreateModel { model_name, fields } => {},
        MigrationOperation::AddField { model_name, field } => {
            if schema_has(s, model_name@) {
                let i = model_at(s, model_name@);
                assert(s[i].name == model_name@);
            }
        },
        MigrationOperation::AlterField { model_name, field_name, new_descriptor } => {
            if schema_has(s, model_name@) {
                let i = model_at(s, model_name@);
                assert(s[i].name == model_name@);
            }
        },
        MigrationOperation::RemoveField { model_name, field_name } => {
            if schema_has(s, model_name@) {
                let i = model_at(s, model_name@);
                assert(s[i].name == model_name@);
            }
        },
    }
}

proof fn lemma_apply_ops_wf(s: Seq<ModelView>, ops: Seq<MigrationOperation>)
    requires
        schema_wf(s),
    ensures
        apply_ops(s, ops) matches Ok(t) ==> schema_wf(t),
    decreases ops.len(),
{
    if ops.len() > 0 {
        lemma_apply_ops_wf(s, ops.drop_last());
        if let Ok(t) = apply_ops(s, ops.drop_last()) {
            lemma_apply_op_wf(t, ops.last());
        }
    }
}

pub fn copy_schema(models: &Vec<ModelDescriptor>) -> (r: Vec<ModelDescriptor>)
    ensures
        schema_view(r@) == schema_view(models@),
{
    let mut r: Vec<ModelDescriptor> = Vec::new();
    let mut i: usize = 0;
    while i < models.len()
        invariant
            i <= models@.len(),
            r@.len() == i,
            forall|k: int| 0 <= k < i ==> (#[trigger] r@[k])@ == models@[k]@,
        decreases models@.len() - i,
    {
        r.push(models[i].copy());
        i = i + 1;
    }
    assert(schema_view(r@) =~= schema_view(models@));
    r
}

/// Replaces the fields of table `i` after checking them.
fn set_fields(models: &mut Vec<ModelDescriptor>, i: usize, fs: Vec<FieldDescriptor>) -> (r: Result<(), OperationFailure>)
    requires
        i < old(models)@.len(),
    ensures
        r is Ok <==> fields_valid(fs@),
        r matches Err(e) ==> e == OperationFailure::InvalidFields,
        r is Ok ==> schema_view(final(models)@) == schema_view(old(models)@).update(
            i as int,
            ModelView { name: old(models)@[i as int].model_name@, fields: fs@ },
        ),
        r is Err ==> final(models)@ == old(models)@,
{
    if !check_fields(&fs) {
        return Err(OperationFailure::InvalidFields);
    }
    let name = models[i].model_name.clone();
    models.set(i, ModelDescriptor { model_name: name, fields: fs });
    assert(schema_view(models@) =~= schema_view(old(models)@).update(
        i as int,
        ModelView { name: old(models)@[i as int].model_name@, fields: fs@ },
    ));
    Ok(())
}

/// Applies one operation to the tables; on failure they stay as they were.
pub fn apply_operation(models: &mut Vec<ModelDescriptor>, op: &MigrationOperation) -> (r: Result<(), OperationFailure>)
    requires
        schema_wf(schema_view(old(models)@)),
    ensures
        schema_wf(schema_view(final(models)@)),
        match apply_op(schema_view(old(models)@), *op) {
            Ok(t) => r is Ok && schema_view(final(models)@) == t,
            Err(e) => r == Err::<(), OperationFailure>(e) && final(models)@ == old(models)@,
        },
{
    let ghost s = schema_view(models@);
    proof {
        lemma_apply_op_wf(s, *op);
    }
    match op {
        MigrationOperation::CreateModel { model_name, fields } => {
            match find_model(models, model_name) {
                Some(i) => {
                    assert(s[i as int].name == model_name@);
                    return Err(OperationFailure::ModelExists);
                },
                None => {},
            }
            proof {
                assert forall|i: int| 0 <= i < s.len() implies s[i].name != model_name@ by {
                    assert(s[i].name == models@[i].model_name@);
                }
            }
            if !check_fields(fields) {
                return Err(OperationFailure::InvalidFields);
            }
            models.push(ModelDescriptor { model_name: model_name.clone(), fields: copy_fields(fields) });
            assert(schema_view(models@) =~= s.push(ModelView { name: model_name@, fields: fields@ }));
            Ok(())
        },
        MigrationOperation::AddField { model_name, field } => {
            let i = match find_model(models, model_name) {
                Some(i) => i,
                None => {
                    assert(!schema_has(s, model_name@)) by {
                        if schema_has(s, model_name@) {
                            let k = choose|k: int| 0 <= k < s.len() && s[k].name == model_name@;
                            assert(models@[k].model_name@ == model_name@);
                        }
                    }
                    return Err(OperationFailure::NoSuchModel);
                },
            };
            proof {
                assert(s[i as int].name == model_name@);
                assert(model_at(s, model_name@) == i as int);
            }
            let mut fs = copy_fields(&models[i].fields);
            fs.push(field.copy());
            set_fields(models, i, fs)
        },
        MigrationOperation::AlterField { model_name, field_name, new_descriptor } => {
            let i = match find_model(models, model_name) {
                Some(i) => i,
                None => {
                    assert(!schema_has(s, model_name@)) by {
                        if schema_has(s, model_name@) {
                            let k = choose|k: int| 0 <= k < s.len() && s[k].name == model_name@;
                            assert(models@[k].model_name@ == model_name@);
                        }
                    }
                    return Err(OperationFailure::NoSuchModel);
                },
            };
            proof {
                assert(s[i as int].name == model_name@);
                assert(model_at(s, model_name@) == i as int);
            }
            let f = match find_field(&models[i].fields, field_name) {
                Some(f) => f,
                None => {
                    return Err(OperationFailure::NoSuchField);
                },
            };
            proof {
                let fs = s[i as int].fields;
                assert(fs[f as int].name@ == field_name@);
                assert(field_at(fs, field_name@) == f as int);
            }
            let mut fs = copy_fields(&models[i].fields);
            fs.set(f, new_descriptor.copy());
            set_fields(models, i, fs)
        },
        MigrationOperation::RemoveField { model_name, field_name } => {
            let i = match find_model(models, model_name) {
                Some(i) => i,
                None => {
                    assert(!schema_has(s, model_name@)) by {
                        if schema_has(s, model_name@) {
                            let k = choose|k: int| 0 <= k < s.len() && s[k].name == model_name@;
                            assert(models@[k].model_name@ == model_name@);
                        }
                    }
                    return Err(OperationFailure::NoSuchModel);
                },
            };
            proof {
                assert(s[i as int].name == model_name@);
                assert(model_at(s, model_name@) == i as int);
            }
            let f = match find_field(&models[i].fields, field_name) {
                Some(f) => f,
                None => {
                    return Err(OperationFailure::NoSuchField);
                },
            };
            proof {
                let fs = s[i as int].fields;
                assert(fs[f as int].name@ == field_name@);
                assert(field_at(fs, field_name@) == f as int);
            }
            let mut fs = copy_fields(&models[i].fields);
            fs.remove(f);
            set_fields(models, i, fs)
        },
    }
}

} // verus!
