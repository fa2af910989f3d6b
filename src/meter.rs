use vstd::prelude::*;
use crate::crud::{Row, Value};
use crate::model::{fields_valid, FieldDescriptor, FieldKind, ModelDescriptor};

verus! {

/// A kind of meter in the catalogue. `id` is `None` until the store has
/// given the record its key.
#[derive(Debug)]
pub struct MeterType {
    pub id: Option<i64>,
    pub name: String,
}

impl MeterType {
    /// The model of meter types: an automatic integer key `id` and a text
    /// `name`.
    pub fn descriptor() -> (r: ModelDescriptor)
        ensures
            r.wf(),
            r.model_name@ == "MeterType"@,
            r.fields@.len() == 2,
            r.fields@[0].name@ == "id"@,
            r.fields@[0].is_primary_key,
            r.fields@[1].name@ == "name"@,
            r.fields@[1].kind == FieldKind::Text,
            !r.fields@[1].is_primary_key,
            !r.fields@[1].unique,
    {
        proof {
            reveal_strlit("id");
            reveal_strlit("name");
        }
        let id = FieldDescriptor::primary_key("id".to_owned());
        let name = FieldDescriptor::new("name".to_owned(), FieldKind::Text);
        let fields = vec![id, name];
        assert(fields@[0].name@ != fields@[1].name@) by {
            assert(fields@[0].name@.len() != fields@[1].name@.len());
        }
        assert(fields_valid(fields@)) by {
            assert(fields@[0].is_primary_key);
        }
        ModelDescriptor { model_name: "MeterType".to_owned(), fields }
    }

    /// The values to insert for a new record: the key left to the store.
    pub fn to_values(&self) -> (r: Vec<Value>)
        ensures
            r@.len() == 2,
            r@[0] is Null,
            r@[1] == Value::Text(self.name),
    {
        vec![Value::Null, Value::Text(self.name.clone())]
    }

    /// Reads a stored record of the meter type model.
    pub fn from_row(row: &Row) -> (r: Option<MeterType>)
        ensures
            r is Some <==> row.values@.len() == 2 && row.values@[1] is Text,
            r matches Some(m) ==> m.id == Some(row.key) && Value::Text(m.name) == row.values@[1],
    {
        if row.values.len() != 2 {
            return None;
        }
        match &row.values[1] {
            Value::Text(s) => Some(MeterType { id: Some(row.key), name: s.clone() }),
            _ => None,
        }
    }

    /// How a meter type is shown: its name.
    pub fn display(&self) -> (r: String)
        ensures
            r@ == self.name@,
    {
        self.name.clone()
    }
}

} // verus!
