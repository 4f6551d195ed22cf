//! The payload carried by a tree object: a name, and optionally a
//! friendlier display name.

use vstd::prelude::*;

verus! {

#[derive(Clone, Debug, PartialEq)]
pub struct Description {
    pub name: String,
    pub display_name: Option<String>,
}

impl Description {
    /// The name, as a sequence of characters.
    pub open spec fn spec_name(self) -> Seq<char> {
        self.name@
    }

    /// The display name, as a sequence of characters, when one is set.
    pub open spec fn spec_display(self) -> Option<Seq<char>> {
        match self.display_name {
            Some(d) => Some(d@),
            None => None,
        }
    }

    /// A description with the given name and no display name.
    pub fn from_str(name: &str) -> (r: Description)
        ensures
            r.spec_name() == name@,
            r.spec_display() is None,
    {
        Description { name: name.to_owned(), display_name: None }
    }

    /// A description with both a name and a display name.
    pub fn with_display(name: &str, display: &str) -> (r: Description)
        ensures
            r.spec_name() == name@,
            r.spec_display() == Some(display@),
    {
        Description { name: name.to_owned(), display_name: Some(display.to_owned()) }
    }

    pub fn get_name(&self) -> (r: &str)
        ensures
            r@ == self.spec_name(),
    {
        self.name.as_str()
    }

    pub fn get_display_name(&self) -> (r: Option<&str>)
        ensures
            match r {
                Some(d) => self.spec_display() == Some(d@),
                None => self.spec_display() is None,
            },
    {
        match &self.display_name {
            Some(d) => Some(d.as_str()),
            None => None,
        }
    }

    /// A structurally equal copy.
    pub fn duplicate(&self) -> (r: Description)
        ensures
            r == *self,
    {
        Description {
            name: self.name.clone(),
            display_name: match &self.display_name {
                Some(d) => Some(d.clone()),
                None => None,
            },
        }
    }
}

} // verus!
