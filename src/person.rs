use vstd::prelude::*;

verus! {

/// A flat record of a person: a name, an age and an e-mail address.
#[derive(Debug)]
pub struct Person {
    pub name: String,
    pub age: u32,
    pub email: String,
}

/// The mathematical value of a `Person`: its three fields as plain values.
pub ghost struct PersonView {
    pub name: Seq<char>,
    pub age: u32,
    pub email: Seq<char>,
}

impl View for Person {
    type V = PersonView;

    open spec fn view(&self) -> PersonView {
        PersonView { name: self.name@, age: self.age, email: self.email@ }
    }
}

/// The error returned when a text is not the encoding of a `Person`.
#[derive(Debug, Clone, Copy, PartialEq, Eq, Structural)]
pub struct ParseError;

impl Person {
    /// Builds a record from its three field values.
    pub fn new(name: String, age: u32, email: String) -> (r: Person)
        ensures
            r.name@ == name@,
            r.age == age,
            r.email@ == email@,
    {
        Person { name, age, email }
    }

    /// The name, exactly as supplied.
    pub fn name(&self) -> (r: &str)
        ensures
            r@ == self.name@,
    {
        self.name.as_str()
    }

    /// The age, exactly as supplied.
    pub fn age(&self) -> (r: u32)
        ensures
            r == self.age,
    {
        self.age
    }

    /// The e-mail address, exactly as supplied.
    pub fn email(&self) -> (r: &str)
        ensures
            r@ == self.email@,
    {
        self.email.as_str()
    }
}

} // verus!
