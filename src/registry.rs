use vstd::prelude::*;
use crate::error::Error;
use crate::model::ModelDescriptor;

verus! {

/// Whether some model in `ms` is called `name`.
pub open spec fn has_model(ms: Seq<ModelDescriptor>, name: Seq<char>) -> bool {
    exists|i: int| 0 <= i < ms.len() && (#[trigger] ms[i].model_name@) == name
}

/// Finds the model called `name`.
pub fn find_model(models: &Vec<ModelDescriptor>, name: &String) -> (r: Option<usize>)
    ensures
        r matches Some(i) ==> i < models@.len() && models@[i as int].model_name@ == name@,
        r is None <==> !has_model(models@, name@),
{
    let mut i: usize = 0;
    while i < models.len()
        invariant
            i <= models@.len(),
            forall|q: int| 0 <= q < i ==> (#[trigger] models@[q].model_name@) != name@,
        decreases models@.len() - i,
    {
        if models[i].model_name == *name {
            return Some(i);
        }
        i = i + 1;
    }
    None
}

/// Models keyed by name, filled at start-up and read afterwards.
#[derive(Debug)]
pub struct Registry {
    pub models: Vec<ModelDescriptor>,
}

impl Registry {
    /// Every model is well formed and no two share a name.
    pub open spec fn wf(&self) -> bool {
        &&& forall|i: int| 0 <= i < self.models@.len() ==> (#[trigger] self.models@[i]).wf()
        &&& forall|i: int, j: int|
            0 <= i < j < self.models@.len() ==> (#[trigger] self.models@[i].model_name@) != (
            #[trigger] self.models@[j].model_name@)
    }

    pub fn new() -> (r: Registry)
        ensures
            r.wf(),
            r.models@.len() == 0,
    {
        Registry { models: Vec::new() }
    }

    /// Adds a descriptor; fails when its name is taken, and then changes nothing.
    pub fn register(&mut self, d: ModelDescriptor) -> (r: Result<(), Error>)
        requires
            old(self).wf(),
            d.wf(),
        ensures
            final(self).wf(),
            r is Err <==> has_model(old(self).models@, d.model_name@),
            r matches Err(e) ==> e is DuplicateModel && final(self).models@ == old(self).models@,
            r is Ok ==> final(self).models@ == old(self).models@.push(d),
    {
        match find_model(&self.models, &d.model_name) {
            Some(_) => Err(Error::DuplicateModel),
            None => {
                self.models.push(d);
                Ok(())
            },
        }
    }

    /// The descriptor called `name`; fails when there is none.
    pub fn lookup(&self, name: &String) -> (r: Result<&ModelDescriptor, Error>)
        ensures
            r is Err <==> !has_model(self.models@, name@),
            r matches Err(e) ==> e is UnknownModel,
            r matches Ok(d) ==> d.model_name@ == name@ && exists|i: int|
                0 <= i < self.models@.len() && self.models@[i] == *d,
    {
        match find_model(&self.models, name) {
            Some(i) => Ok(&self.models[i]),
            None => Err(Error::UnknownModel),
        }
    }
}

} // verus!
