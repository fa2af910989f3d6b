use vstd::prelude::*;
use crate::model::FieldDescriptor;

verus! {

/// One schema change, independent of any storage dialect.
#[derive(Debug)]
pub enum MigrationOperation {
    CreateModel { model_name: String, fields: Vec<FieldDescriptor> },
    AddField { model_name: String, field: FieldDescriptor },
    AlterField { model_name: String, field_name: String, new_descriptor: FieldDescriptor },
    RemoveField { model_name: String, field_name: String },
}

/// Identity of a migration: its app and its number within the app.
#[derive(Debug)]
pub struct MigrationId {
    pub app_name: String,
    pub sequence_number: u64,
}

/// A numbered, named list of schema operations of one app.
#[derive(Debug)]
pub struct Migration {
    pub app_name: String,
    pub sequence_number: u64,
    pub name: String,
    pub operations: Vec<MigrationOperation>,
    pub depends_on: Vec<MigrationId>,
}

impl MigrationId {
    pub fn new(app_name: String, sequence_number: u64) -> (r: MigrationId)
        ensures
            r.app_name == app_name,
            r.sequence_number == sequence_number,
    {
        MigrationId { app_name, sequence_number }
    }
}

impl Migration {
    pub fn new(app_name: String, sequence_number: u64, name: String) -> (r: Migration)
        ensures
            r.app_name == app_name,
            r.sequence_number == sequence_number,
            r.name == name,
            r.operations@.len() == 0,
            r.depends_on@.len() == 0,
    {
        Migration { app_name, sequence_number, name, operations: Vec::new(), depends_on: Vec::new() }
    }

    pub fn with_operation(self, op: MigrationOperation) -> (r: Migration)
        ensures
            r.app_name == self.app_name,
            r.sequence_number == self.sequence_number,
            r.name == self.name,
            r.operations@ == self.operations@.push(op),
            r.depends_on@ == self.depends_on@,
    {
        let mut m = self;
        m.operations.push(op);
        m
    }

    pub fn with_dependency(self, dep: MigrationId) -> (r: Migration)
        ensures
            r.app_name == self.app_name,
            r.sequence_number == self.sequence_number,
            r.name == self.name,
            r.operations@ == self.operations@,
            r.depends_on@ == self.depends_on@.push(dep),
    {
        let mut m = self;
        m.depends_on.push(dep);
        m
    }
}

} // verus!
