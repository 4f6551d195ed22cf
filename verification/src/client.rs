//! The records a host-catalog collaborator works with: a described
//! parent with its listed children, and the tree each system owns.
//! The host calls themselves (network, process) live outside this
//! crate; what they hand back — plain (position, description) pairs —
//! is folded into these records here, under contract.

use vstd::prelude::*;

use crate::obj_desc::Description;
use crate::tree::ArenaTree;
use crate::types::SystemType;

verus! {

pub struct DatabaseChild {
    position: usize,
    description: Description,
}

impl DatabaseChild {
    pub closed spec fn spec_position(&self) -> usize {
        self.position
    }

    pub closed spec fn spec_description(&self) -> Description {
        self.description
    }

    pub fn new(position: usize, description: Description) -> (r: DatabaseChild)
        ensures
            r.spec_position() == position,
            r.spec_description() == description,
    {
        DatabaseChild { position, description }
    }

    pub fn get_position(&self) -> (r: usize)
        ensures
            r == self.spec_position(),
    {
        self.position
    }

    pub fn get_description(&self) -> (r: &Description)
        ensures
            *r == self.spec_description(),
    {
        &self.description
    }
}

pub struct DatabaseParent {
    position: usize,
    children: Vec<DatabaseChild>,
    description: Description,
    system_type: SystemType,
}

impl DatabaseParent {
    pub closed spec fn spec_position(&self) -> usize {
        self.position
    }

    pub closed spec fn spec_children(&self) -> Seq<DatabaseChild> {
        self.children@
    }

    pub closed spec fn spec_description(&self) -> Description {
        self.description
    }

    pub closed spec fn spec_system_type(&self) -> SystemType {
        self.system_type
    }

    pub fn new(
        position: usize,
        children: Vec<DatabaseChild>,
        description: Description,
        system_type: SystemType,
    ) -> (r: DatabaseParent)
        ensures
            r.spec_position() == position,
            r.spec_children() == children@,
            r.spec_description() == description,
            r.spec_system_type() == system_type,
    {
        DatabaseParent { position, children, description, system_type }
    }

    pub fn get_position(&self) -> (r: usize)
        ensures
            r == self.spec_position(),
    {
        self.position
    }

    pub fn get_system_type(&self) -> (r: SystemType)
        ensures
            r == self.spec_system_type(),
    {
        self.system_type
    }

    pub fn get_description(&self) -> (r: &Description)
        ensures
            *r == self.spec_description(),
    {
        &self.description
    }

    /// Folds the (position, description) pairs a host catalog call
    /// handed back into a parent record: the child that was asked about
    /// becomes the parent, and each pair becomes one of its children,
    /// in the order listed.
    pub fn from_child_listing(
        child: DatabaseChild,
        system_type: SystemType,
        listing: Vec<(usize, Description)>,
    ) -> (r: DatabaseParent)
        ensures
            r.spec_position() == child.spec_position(),
            r.spec_description() == child.spec_description(),
            r.spec_system_type() == system_type,
            r.spec_children().len() == listing@.len(),
            forall|i: int|
                0 <= i < listing@.len() ==> {
                    let c = #[trigger] r.spec_children()[i];
                    c.spec_position() == listing@[i].0 && c.spec_description() == listing@[i].1
                },
    {
        let position = child.get_position();
        let description = child.get_description().duplicate();
        let mut children: Vec<DatabaseChild> = Vec::new();
        let n = listing.len();
        let mut i: usize = 0;
        while i < n
            invariant
                n == listing@.len(),
                i <= n,
                children@.len() == i,
                forall|j: int|
                    0 <= j < i ==> {
                        let c = #[trigger] children@[j];
                        c.spec_position() == listing@[j].0 && c.spec_description()
                            == listing@[j].1
                    },
            decreases n - i,
        {
            let entry = &listing[i];
            children.push(DatabaseChild::new(entry.0, entry.1.duplicate()));
            i = i + 1;
        }
        DatabaseParent { position, children, description, system_type }
    }
}

/// One external system and the tree that mirrors its catalog.
pub struct Systems {
    _system: ArenaTree,
    _type: SystemType,
}

impl Systems {
    pub closed spec fn spec_system(&self) -> ArenaTree {
        self._system
    }

    pub closed spec fn spec_system_type(&self) -> SystemType {
        self._type
    }

    /// A fresh record for one system, holding an empty tree.
    pub fn new(system: SystemType) -> (r: Systems)
        ensures
            r.spec_system_type() == system,
            r.spec_system()@.len() == 0,
            r.spec_system().wf(),
    {
        Systems { _system: ArenaTree::new(None), _type: system }
    }

    pub fn get_system(&self) -> (r: &ArenaTree)
        ensures
            *r == self.spec_system(),
    {
        &self._system
    }

    pub fn get_system_type(&self) -> (r: &SystemType)
        ensures
            *r == self.spec_system_type(),
    {
        &self._type
    }

    pub fn get_system_mut(&mut self) -> (r: &mut ArenaTree)
        ensures
            *r == old(self).spec_system(),
            final(self).spec_system() == *final(r),
            final(self).spec_system_type() == old(self).spec_system_type(),
    {
        &mut self._system
    }
}

} // verus!
