use vstd::prelude::*;
use crate::error::Error;
use crate::model::{field_at, has_field, pk_index, FieldDescriptor, ModelDescriptor};

verus! {

/// One stored value.
#[derive(Debug)]
pub enum Value {
    Null,
    Integer(i64),
    Text(String),
    Bool(bool),
}

/// Whether two stored values are equal, texts compared by their characters.
pub open spec fn value_same(a: Value, b: Value) -> bool {
    match (a, b) {
        (Value::Null, Value::Null) => true,
        (Value::Integer(x), Value::Integer(y)) => x == y,
        (Value::Text(x), Value::Text(y)) => x@ == y@,
        (Value::Bool(x), Value::Bool(y)) => x == y,
        _ => false,
    }
}

impl Value {
    pub fn copy(&self) -> (r: Value)
        ensures
            r == *self,
    {
        match self {
            Value::Null => Value::Null,
            Value::Integer(x) => Value::Integer(*x),
            Value::Text(s) => Value::Text(s.clone()),
            Value::Bool(b) => Value::Bool(*b),
        }
    }

    pub fn same_as(&self, other: &Value) -> (r: bool)
        ensures
            r == value_same(*self, *other),
    {
        match (self, other) {
            (Value::Null, Value::Null) => true,
            (Value::Integer(x), Value::Integer(y)) => *x == *y,
            (Value::Text(x), Value::Text(y)) => *x == *y,
            (Value::Bool(x), Value::Bool(y)) => *x == *y,
            _ => false,
        }
    }
}

/// A stored record: its primary key and its values, one per field of the
/// model in the model's order.
#[derive(Debug)]
pub struct Row {
    pub key: i64,
    pub values: Vec<Value>,
}

pub struct RowView {
    pub key: i64,
    pub values: Seq<Value>,
}

impl View for Row {
    type V = RowView;

    open spec fn view(&self) -> RowView {
        RowView { key: self.key, values: self.values@ }
    }
}

pub open spec fn rows_view(rows: Seq<Row>) -> Seq<RowView> {
    rows.map_values(|r: Row| r@)
}

fn copy_values(vs: &Vec<Value>) -> (r: Vec<Value>)
    ensures
        r@ == vs@,
{
    let mut r: Vec<Value> = Vec::new();
    let mut i: usize = 0;
    while i < vs.len()
        invariant
            i <= vs@.len(),
            r@ == vs@.take(i as int),
        decreases vs@.len() - i,
    {
        r.push(vs[i].copy());
        i = i + 1;
        assert(r@ =~= vs@.take(i as int));
    }
    assert(vs@.take(i as int) =~= vs@);
    r
}

impl Row {
    pub fn copy(&self) -> (r: Row)
        ensures
            r@ == self@,
    {
        Row { key: self.key, values: copy_values(&self.values) }
    }
}

/// The records of one model, with the next key to hand out.
#[derive(Debug)]
pub struct Table {
    pub rows: Vec<Row>,
    pub next_key: i64,
}

/// Row `r` holds a unique field's value equal to the one given there.
pub open spec fn clashes(fs: Seq<FieldDescriptor>, r: RowView, values: Seq<Value>) -> bool {
    exists|f: int|
        0 <= f < fs.len() && (#[trigger] fs[f]).unique && !(values[f] is Null) && value_same(
            r.values[f],
            values[f],
        )
}

/// Some stored row clashes with `values` on a unique field.
pub open spec fn unique_conflict(fs: Seq<FieldDescriptor>, rows: Seq<RowView>, values: Seq<Value>) -> bool {
    exists|i: int| 0 <= i < rows.len() && clashes(fs, #[trigger] rows[i], values)
}

/// The rows whose value at field `f` equals `v`, in stored order.
pub open spec fn matching(rows: Seq<RowView>, f: int, v: Value) -> Seq<RowView>
    decreases rows.len(),
{
    if rows.len() == 0 {
        Seq::empty()
    } else if value_same(rows.last().values[f], v) {
        matching(rows.drop_last(), f, v).push(rows.last())
    } else {
        matching(rows.drop_last(), f, v)
    }
}

/// Whether some row has key `k`.
pub open spec fn has_key(rows: Seq<RowView>, k: i64) -> bool {
    exists|i: int| 0 <= i < rows.len() && (#[trigger] rows[i]).key == k
}

impl Table {
    /// Rows fit the descriptor, hold their key in the primary key field, and
    /// have increasing keys below `next_key`.
    pub open spec fn wf_for(&self, d: ModelDescriptor) -> bool {
        let rows = rows_view(self.rows@);
        let pk = pk_index(d.fields@);
        &&& d.wf()
        &&& forall|i: int|
            0 <= i < rows.len() ==> (#[trigger] rows[i]).values.len() == d.fields@.len()
                && rows[i].values[pk] == Value::Integer(rows[i].key) && rows[i].key
                < self.next_key
        &&& forall|i: int, j: int| 0 <= i < j < rows.len() ==> (#[trigger] rows[i]).key < (#[trigger] rows[j]).key
    }

    pub fn new() -> (r: Table)
        ensures
            r.rows@.len() == 0,
            r.next_key == 1,
    {
        Table { rows: Vec::new(), next_key: 1 }
    }
}

/// All records of the table, in stored order.
pub fn list_all(d: &ModelDescriptor, table: &Table) -> (r: Vec<Row>)
    ensures
        rows_view(r@) == rows_view(table.rows@),
{
    let mut r: Vec<Row> = Vec::new();
    let mut i: usize = 0;
    while i < table.rows.len()
        invariant
            i <= table.rows@.len(),
            r@.len() == i,
            forall|k: int| 0 <= k < i ==> (#[trigger] r@[k])@ == table.rows@[k]@,
        decreases table.rows@.len() - i,
    {
        r.push(table.rows[i].copy());
        i = i + 1;
    }
    assert(rows_view(r@) =~= rows_view(table.rows@));
    r
}

/// The records whose field `field_name` equals `value`, in stored order.
/// Fails, without reading the table, when the model has no such field.
pub fn filter_by_equality(d: &ModelDescriptor, field_name: &String, value: &Value, table: &Table) -> (r:
    Result<Vec<Row>, Error>)
    requires
        table.wf_for(*d),
    ensures
        r is Err <==> !has_field(d.fields@, field_name@),
        r matches Err(e) ==> e is UnknownField,
        r matches Ok(rs) ==> rows_view(rs@) == matching(
            rows_view(table.rows@),
            field_at(d.fields@, field_name@),
            *value,
        ),
{
    let f = match d.field_index(field_name) {
        Some(f) => f,
        None => {
            return Err(Error::UnknownField);
        },
    };
    let ghost fs = d.fields@;
    proof {
        assert(fs[f as int].name@ == field_name@);
        assert(field_at(fs, field_name@) == f as int);
    }
    let ghost all = rows_view(table.rows@);
    let mut r: Vec<Row> = Vec::new();
    let mut i: usize = 0;
    while i < table.rows.len()
        invariant
            i <= table.rows@.len(),
            all == rows_view(table.rows@),
            f < d.fields@.len(),
            table.wf_for(*d),
            rows_view(r@) == matching(all.take(i as int), f as int, *value),
        decreases table.rows@.len() - i,
    {
        proof {
            assert(all.take(i + 1).drop_last() =~= all.take(i as int));
            assert(all.take(i + 1).last() == all[i as int]);
        }
        let row = &table.rows[i];
        assert(all[i as int].values.len() == d.fields@.len());
        if row.values[f].same_as(value) {
            r.push(row.copy());
            assert(rows_view(r@) =~= matching(all.take(i as int), f as int, *value).push(all[i as int]));
        }
        i = i + 1;
    }
    assert(all.take(i as int) =~= all);
    Ok(r)
}

/// Whether stored row `row` clashes with `values` on a unique field.
fn row_clashes(fs: &Vec<FieldDescriptor>, row: &Row, values: &Vec<Value>) -> (r: bool)
    requires
        row.values@.len() == fs@.len(),
        values@.len() == fs@.len(),
    ensures
        r == clashes(fs@, row@, values@),
{
    let mut f: usize = 0;
    while f < fs.len()
        invariant
            f <= fs@.len(),
            row.values@.len() == fs@.len(),
            values@.len() == fs@.len(),
            forall|g: int|
                0 <= g < f ==> !((#[trigger] fs@[g]).unique && !(values@[g] is Null) && value_same(
                    row.values@[g],
                    values@[g],
                )),
        decreases fs@.len() - f,
    {
        if fs[f].unique && !matches!(values[f], Value::Null) && row.values[f].same_as(&values[f]) {
            assert(fs@[f as int].unique);
            return true;
        }
        f = f + 1;
    }
    false
}

/// What `insert` of `values` into `t0`, leaving `t1` and returning `r`,
/// guarantees.
pub open spec fn insert_outcome(
    d: ModelDescriptor,
    t0: Table,
    values: Seq<Value>,
    t1: Table,
    r: Result<i64, Error>,
) -> bool {
    let rows = rows_view(t0.rows@);
    &&& r is Err <==> unique_conflict(d.fields@, rows, values)
    &&& r matches Err(e) ==> e is ConstraintViolation && t1 == t0
    &&& r matches Ok(k) ==> {
        &&& k == t0.next_key
        &&& t1.next_key == k + 1
        &&& rows_view(t1.rows@) == rows.push(
            RowView { key: k, values: values.update(pk_index(d.fields@), Value::Integer(k)) },
        )
    }
}

/// Stores a new record and returns the key it was given. The caller leaves
/// the primary key field `Null`; the table fills it in. Fails when a unique
/// field's value is already stored, and then changes nothing.
pub fn insert(d: &ModelDescriptor, values: Vec<Value>, table: &mut Table) -> (r: Result<i64, Error>)
    requires
        old(table).wf_for(*d),
        values@.len() == d.fields@.len(),
        values@[pk_index(d.fields@)] is Null,
        old(table).next_key < i64::MAX,
    ensures
        final(table).wf_for(*d),
        insert_outcome(*d, *old(table), values@, *final(table), r),
{
    let ghost rows = rows_view(table.rows@);
    let mut i: usize = 0;
    while i < table.rows.len()
        invariant
            i <= table.rows@.len(),
            rows == rows_view(table.rows@),
            values@.len() == d.fields@.len(),
            table.wf_for(*d),
            forall|j: int| 0 <= j < i ==> !clashes(d.fields@, #[trigger] rows[j], values@),
        decreases table.rows@.len() - i,
    {
        assert(rows[i as int].values.len() == d.fields@.len());
        if row_clashes(&d.fields, &table.rows[i], &values) {
            assert(clashes(d.fields@, rows[i as int], values@));
            return Err(Error::ConstraintViolation);
        }
        i = i + 1;
    }
    let k = table.next_key;
    let pk = d.primary_key_index();
    let mut values = values;
    values.set(pk, Value::Integer(k));
    table.rows.push(Row { key: k, values });
    table.next_key = k + 1;
    proof {
        let new_rows = rows_view(table.rows@);
        assert(new_rows =~= rows.push(RowView { key: k, values: values@ }));
    }
    Ok(k)
}

/// Removes the record with key `key`, if there is one, and says how many
/// records went: 1 or 0. A missing key is no error.
pub fn delete_by_primary_key(d: &ModelDescriptor, key: i64, table: &mut Table) -> (r: usize)
    requires
        old(table).wf_for(*d),
    ensures
        final(table).wf_for(*d),
        r == 1 <==> has_key(rows_view(old(table).rows@), key),
        r == 0 <==> !has_key(rows_view(old(table).rows@), key),
        r == 0 ==> *final(table) == *old(table),
        r == 1 ==> final(table).next_key == old(table).next_key && exists|i: int|
            0 <= i < old(table).rows@.len() && old(table).rows@[i].key == key && rows_view(
                final(table).rows@,
            ) == rows_view(old(table).rows@).remove(i),
{
    let ghost rows = rows_view(table.rows@);
    let mut i: usize = 0;
    while i < table.rows.len()
        invariant
            i <= table.rows@.len(),
            rows == rows_view(table.rows@),
            rows == rows_view(old(table).rows@),
            *table == *old(table),
            table.wf_for(*d),
            forall|j: int| 0 <= j < i ==> (#[trigger] rows[j]).key != key,
        decreases table.rows@.len() - i,
    {
        if table.rows[i].key == key {
            let ghost before = table.rows@;
            table.rows.remove(i);
            proof {
                let nr = rows_view(table.rows@);
                assert(nr =~= rows.remove(i as int));
                assert(rows[i as int].key == key);
                assert(before[i as int].key == key);
                assert forall|a: int, b: int| 0 <= a < b < nr.len() implies (#[trigger] nr[a]).key < (
                #[trigger] nr[b]).key by {
                    let oa = if a < i { a } else { a + 1 };
                    let ob = if b < i { b } else { b + 1 };
                    assert(nr[a] == rows[oa] && nr[b] == rows[ob]);
                }
                assert forall|a: int| 0 <= a < nr.len() implies (#[trigger] nr[a]).values.len() == d.fields@.len()
                    && nr[a].values[pk_index(d.fields@)] == Value::Integer(nr[a].key) && nr[a].key
                    < table.next_key by {
                    let oa = if a < i { a } else { a + 1 };
                    assert(nr[a] == rows[oa]);
                }
            }
            return 1;
        }
        i = i + 1;
    }
    0
}

/// After a successful insert the table holds the new record exactly once:
/// one row carries the returned key, with the supplied value in every field
/// but the primary key, which holds that key.
pub proof fn lemma_inserted_listed_once(d: ModelDescriptor, t0: Table, values: Seq<Value>, t1: Table, k: i64)
    requires
        t0.wf_for(d),
        values.len() == d.fields@.len(),
        insert_outcome(d, t0, values, t1, Ok(k)),
    ensures
        ({
            let rows = rows_view(t1.rows@);
            let pk = pk_index(d.fields@);
            exists|i: int|
                0 <= i < rows.len() && (#[trigger] rows[i]).key == k && rows[i].values[pk] == Value::Integer(k)
                    && (forall|f: int| 0 <= f < values.len() && f != pk ==> rows[i].values[f] == values[f])
                    && (forall|j: int| 0 <= j < rows.len() && j != i ==> (#[trigger] rows[j]).key != k)
        }),
{
    let rows = rows_view(t1.rows@);
    let old_rows = rows_view(t0.rows@);
    let i = old_rows.len() as int;
    assert(rows[i].key == k);
    assert forall|j: int| 0 <= j < rows.len() && j != i implies (#[trigger] rows[j]).key != k by {
        assert(rows[j] == old_rows[j]);
    }
}

} // verus!
