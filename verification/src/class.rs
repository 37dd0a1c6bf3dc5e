//! Classes: the shared type descriptors of entities.

use vstd::prelude::*;
use std::rc::Rc;
use crate::serializer::Serializer;

verus! {

/// A class: an id, a name, and the serializer that decodes its entities' fields.
pub struct Class {
    pub id: i32,
    pub name: String,
    pub serializer: Rc<Serializer>,
}

impl Class {
    /// The class of the given id, name and serializer.
    pub fn new(id: i32, name: String, serializer: Rc<Serializer>) -> (class: Class)
        ensures
            class.id == id,
            class.name == name,
            class.serializer == serializer,
    {
        Class { id, name, serializer }
    }

    /// The class id.
    pub fn id(&self) -> (id: i32)
        ensures
            id == self.id,
    {
        self.id
    }

    /// The class name.
    pub fn name(&self) -> (name: &str)
        ensures
            name@ == self.name@,
    {
        self.name.as_str()
    }

    /// The serializer of the class.
    pub fn serializer(&self) -> (serializer: &Serializer)
        ensures
            *serializer == *self.serializer,
    {
        &*self.serializer
    }
}

} // verus!
