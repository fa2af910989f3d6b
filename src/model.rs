use vstd::prelude::*;
use crate::error::Error;

verus! {

/// Storage type of one model attribute.
#[derive(Debug, Clone, Copy, PartialEq, Eq, Structural)]
pub enum FieldKind {
    Integer,
    Text,
    Bool,
}

/// One attribute of a model.
#[derive(Debug)]
pub struct FieldDescriptor {
    pub name: String,
    pub kind: FieldKind,
    pub nullable: bool,
    pub unique: bool,
    pub is_primary_key: bool,
    pub max_length: Option<u64>,
}

impl FieldDescriptor {
    /// A plain, non-null, non-unique field.
    pub fn new(name: String, kind: FieldKind) -> (r: FieldDescriptor)
        ensures
            r.name == name,
            r.kind == kind,
            !r.nullable,
            !r.unique,
            !r.is_primary_key,
            r.max_length is None,
    {
        FieldDescriptor { name, kind, nullable: false, unique: false, is_primary_key: false, max_length: None }
    }

    /// An automatically numbered integer primary key.
    pub fn primary_key(name: String) -> (r: FieldDescriptor)
        ensures
            r.name == name,
            r.kind == FieldKind::Integer,
            !r.nullable,
            r.unique,
            r.is_primary_key,
            r.max_length is None,
    {
        FieldDescriptor {
            name,
            kind: FieldKind::Integer,
            nullable: false,
            unique: true,
            is_primary_key: true,
            max_length: None,
        }
    }

    pub fn with_unique(self, unique: bool) -> (r: FieldDescriptor)
        ensures
            r == (FieldDescriptor { unique, ..self }),
    {
        FieldDescriptor { unique, ..self }
    }

    pub fn with_nullable(self, nullable: bool) -> (r: FieldDescriptor)
        ensures
            r == (FieldDescriptor { nullable, ..self }),
    {
        FieldDescriptor { nullable, ..self }
    }

    pub fn with_max_length(self, max_length: Option<u64>) -> (r: FieldDescriptor)
        ensures
            r == (FieldDescriptor { max_length, ..self }),
    {
        FieldDescriptor { max_length, ..self }
    }

    pub fn copy(&self) -> (r: FieldDescriptor)
        ensures
            r == *self,
    {
        FieldDescriptor {
            name: self.name.clone(),
            kind: self.kind,
            nullable: self.nullable,
            unique: self.unique,
            is_primary_key: self.is_primary_key,
            max_length: self.max_length,
        }
    }
}

/// Exactly one field is the primary key.
pub open spec fn one_primary_key(fs: Seq<FieldDescriptor>) -> bool {
    exists|p: int|
        0 <= p < fs.len() && #[trigger] fs[p].is_primary_key && (forall|q: int|
            0 <= q < fs.len() && q != p ==> !(#[trigger] fs[q].is_primary_key))
}

/// No two fields share a name.
pub open spec fn names_distinct(fs: Seq<FieldDescriptor>) -> bool {
    forall|i: int, j: int| 0 <= i < j < fs.len() ==> (#[trigger] fs[i].name@) != (#[trigger] fs[j].name@)
}

pub open spec fn fields_valid(fs: Seq<FieldDescriptor>) -> bool {
    one_primary_key(fs) && names_distinct(fs)
}

/// Position of the field called `name`, if there is one.
pub open spec fn has_field(fs: Seq<FieldDescriptor>, name: Seq<char>) -> bool {
    exists|i: int| 0 <= i < fs.len() && (#[trigger] fs[i].name@) == name
}

/// Decides `fields_valid`.
pub fn check_fields(fs: &Vec<FieldDescriptor>) -> (r: bool)
    ensures
        r == fields_valid(fs@),
{
    let mut found: Option<usize> = None;
    let mut i: usize = 0;
    while i < fs.len()
        invariant
            i <= fs.len(),
            found is None ==> forall|q: int| 0 <= q < i ==> !(#[trigger] fs@[q].is_primary_key),
            found is Some ==> {
                let p = found->0 as int;
                &&& p < i
                &&& fs@[p].is_primary_key
                &&& forall|q: int| 0 <= q < i && q != p ==> !(#[trigger] fs@[q].is_primary_key)
            },
        decreases fs.len() - i,
    {
        if fs[i].is_primary_key {
            if found.is_some() {
                let p = found.unwrap();
                assert(fs@[p as int].is_primary_key && fs@[i as int].is_primary_key);
                return false;
            }
            found = Some(i);
        }
        i = i + 1;
    }
    if found.is_none() {
        return false;
    }
    proof {
        let p = found->0 as int;
        assert(0 <= p < fs@.len() && fs@[p].is_primary_key);
    }
    let mut a: usize = 0;
    while a < fs.len()
        invariant
            a <= fs.len(),
            one_primary_key(fs@),
            forall|x: int, y: int| 0 <= x < a && x < y < fs.len() ==> (#[trigger] fs@[x].name@) != (#[trigger] fs@[y].name@),
        decreases fs.len() - a,
    {
        let mut b: usize = a + 1;
        while b < fs.len()
            invariant
                a < fs.len(),
                a + 1 <= b <= fs.len(),
                one_primary_key(fs@),
                forall|x: int, y: int| 0 <= x < a && x < y < fs.len() ==> (#[trigger] fs@[x].name@) != (#[trigger] fs@[y].name@),
                forall|y: int| a < y < b ==> fs@[a as int].name@ != (#[trigger] fs@[y].name@),
            decreases fs.len() - b,
        {
            if fs[a].name == fs[b].name {
                return false;
            }
            b = b + 1;
        }
        a = a + 1;
    }
    true
}

/// Finds the field called `name`.
pub fn find_field(fs: &Vec<FieldDescriptor>, name: &String) -> (r: Option<usize>)
    ensures
        r matches Some(i) ==> i < fs@.len() && fs@[i as int].name@ == name@,
        r is None <==> !has_field(fs@, name@),
{
    let mut i: usize = 0;
    while i < fs.len()
        invariant
            i <= fs.len(),
            forall|q: int| 0 <= q < i ==> (#[trigger] fs@[q].name@) != name@,
        decreases fs.len() - i,
    {
        if fs[i].name == *name {
            return Some(i);
        }
        i = i + 1;
    }
    None
}

/// Position of the field called `name`.
pub open spec fn field_at(fs: Seq<FieldDescriptor>, name: Seq<char>) -> int {
    choose|i: int| 0 <= i < fs.len() && (#[trigger] fs[i].name@) == name
}

/// Position of the primary key of a valid field list.
pub open spec fn pk_index(fs: Seq<FieldDescriptor>) -> int
    recommends
        one_primary_key(fs),
{
    choose|p: int| 0 <= p < fs.len() && fs[p].is_primary_key
}

pub fn find_primary_key(fs: &Vec<FieldDescriptor>) -> (r: usize)
    requires
        one_primary_key(fs@),
    ensures
        r == pk_index(fs@),
        r < fs@.len(),
        fs@[r as int].is_primary_key,
{
    let mut i: usize = 0;
    while i < fs.len()
        invariant
            i <= fs.len(),
            one_primary_key(fs@),
            forall|q: int| 0 <= q < i ==> !(#[trigger] fs@[q].is_primary_key),
        decreases fs.len() - i,
    {
        if fs[i].is_primary_key {
            proof {
                let p = pk_index(fs@);
                assert(0 <= p < fs@.len() && fs@[p].is_primary_key);
                assert(p == i as int);
            }
            return i;
        }
        i = i + 1;
    }
    proof {
        let p = pk_index(fs@);
        assert(fs@[p].is_primary_key);
    }
    0
}

pub fn copy_fields(fs: &Vec<FieldDescriptor>) -> (r: Vec<FieldDescriptor>)
    ensures
        r@ == fs@,
{
    let mut r: Vec<FieldDescriptor> = Vec::new();
    let mut i: usize = 0;
    while i < fs.len()
        invariant
            i <= fs.len(),
            r@ == fs@.subrange(0, i as int),
        decreases fs.len() - i,
    {
        r.push(fs[i].copy());
        i = i + 1;
        assert(r@ =~= fs@.subrange(0, i as int));
    }
    assert(r@ =~= fs@);
    r
}

/// A named record shape: its fields in order, one of them the primary key.
#[derive(Debug)]
pub struct ModelDescriptor {
    pub model_name: String,
    pub fields: Vec<FieldDescriptor>,
}

/// What a model descriptor stands for: its name and its fields.
pub struct ModelView {
    pub name: Seq<char>,
    pub fields: Seq<FieldDescriptor>,
}

impl View for ModelDescriptor {
    type V = ModelView;

    open spec fn view(&self) -> ModelView {
        ModelView { name: self.model_name@, fields: self.fields@ }
    }
}

impl ModelDescriptor {
    pub open spec fn wf(&self) -> bool {
        fields_valid(self.fields@)
    }

    /// A descriptor, when the fields have exactly one primary key and
    /// distinct names.
    pub fn new(model_name: String, fields: Vec<FieldDescriptor>) -> (r: Option<ModelDescriptor>)
        ensures
            r is Some <==> fields_valid(fields@),
            r matches Some(d) ==> d.model_name == model_name && d.fields@ == fields@,
    {
        if check_fields(&fields) {
            Some(ModelDescriptor { model_name, fields })
        } else {
            None
        }
    }

    pub fn primary_key_index(&self) -> (r: usize)
        requires
            self.wf(),
        ensures
            r == pk_index(self.fields@),
            r < self.fields@.len(),
            self.fields@[r as int].is_primary_key,
    {
        find_primary_key(&self.fields)
    }

    pub fn field_index(&self, name: &String) -> (r: Option<usize>)
        ensures
            r matches Some(i) ==> i < self.fields@.len() && self.fields@[i as int].name@ == name@,
            r is None <==> !has_field(self.fields@, name@),
    {
        find_field(&self.fields, name)
    }

    pub fn copy(&self) -> (r: ModelDescriptor)
        ensures
            r@ == self@,
    {
        ModelDescriptor { model_name: self.model_name.clone(), fields: copy_fields(&self.fields) }
    }
}

} // verus!
