//! A user record.
use vstd::prelude::*;

verus! {

#[derive(Debug)]
pub struct User {
    id: u64,
    name: Option<String>,
    age: Option<i32>,
}

impl User {
    pub closed spec fn spec_id(&self) -> u64 {
        self.id
    }

    pub closed spec fn spec_name(&self) -> Option<String> {
        self.name
    }

    pub closed spec fn spec_age(&self) -> Option<i32> {
        self.age
    }

    /// A user not stored yet: its id is 0.
    pub fn new(name: Option<String>, age: Option<i32>) -> (r: User)
        ensures
            r.spec_id() == 0,
            r.spec_name() == name,
            r.spec_age() == age,
    {
        User { id: 0, name, age }
    }

    pub fn new_all(id: u64, name: Option<String>, age: Option<i32>) -> (r: User)
        ensures
            r.spec_id() == id,
            r.spec_name() == name,
            r.spec_age() == age,
    {
        User { id, name, age }
    }

    pub fn id(&self) -> (r: u64)
        ensures
            r == self.spec_id(),
    {
        self.id
    }

    pub fn name(&self) -> (r: &Option<String>)
        ensures
            *r == self.spec_name(),
    {
        &self.name
    }

    pub fn age(&self) -> (r: Option<i32>)
        ensures
            r == self.spec_age(),
    {
        self.age
    }
}

} // verus!
