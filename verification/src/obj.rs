//! One stored position of a cursor-driven tree: a description plus
//! parent/children position references.

use vstd::prelude::*;

use crate::obj_desc::Description;

verus! {

/// The mathematical shape of a stored object.
pub struct ObjectView {
    pub name: Seq<char>,
    pub display: Option<Seq<char>>,
    pub idx: usize,
    pub parent: Option<usize>,
    pub children: Option<Seq<usize>>,
}

/// The child list of an object, the empty sequence when absent.
pub open spec fn obj_child_seq(o: ObjectView) -> Seq<usize> {
    match o.children {
        Some(c) => c,
        None => Seq::empty(),
    }
}

#[derive(Clone, Debug, PartialEq)]
pub struct Object {
    pub idx: usize,
    pub val: Description,
    pub parent: Option<usize>,
    pub children: Option<Vec<usize>>,
}

impl View for Object {
    type V = ObjectView;

    open spec fn view(&self) -> ObjectView {
        ObjectView {
            name: self.val.spec_name(),
            display: self.val.spec_display(),
            idx: self.idx,
            parent: self.parent,
            children: match self.children {
                Some(c) => Some(c@),
                None => None,
            },
        }
    }
}

impl Object {
    pub fn new(value: &str, index: usize, parent: Option<usize>) -> (r: Object)
        ensures
            r@ == (ObjectView { name: value@, display: None, idx: index, parent, children: None }),
    {
        Object { idx: index, val: Description::from_str(value), parent, children: None }
    }

    pub fn new_with_children(
        value: &str,
        index: usize,
        parent: Option<usize>,
        children: Option<Vec<usize>>,
    ) -> (r: Object)
        ensures
            r@ == (ObjectView {
                name: value@,
                display: None,
                idx: index,
                parent,
                children: match children {
                    Some(c) => Some(c@),
                    None => None,
                },
            }),
    {
        Object { idx: index, val: Description::from_str(value), parent, children }
    }

    /// A fresh object carrying a full description.
    pub fn new_described(value: Description, index: usize, parent: Option<usize>) -> (r: Object)
        ensures
            r@ == (ObjectView {
                name: value.spec_name(),
                display: value.spec_display(),
                idx: index,
                parent,
                children: None,
            }),
    {
        Object { idx: index, val: value, parent, children: None }
    }

    pub fn children(&self) -> (r: Option<&[usize]>)
        ensures
            match r {
                Some(c) => self@.children is Some && c@ == self@.children->Some_0,
                None => self@.children is None,
            },
    {
        match &self.children {
            Some(c) => Some(c.as_slice()),
            None => None,
        }
    }

    /// A copy of the payload.
    pub fn describe(&self) -> (r: Description)
        ensures
            r.spec_name() == self@.name,
            r.spec_display() == self@.display,
    {
        self.val.duplicate()
    }

    pub fn position(&self) -> (r: usize)
        ensures
            r == self@.idx,
    {
        self.idx
    }

    pub fn has_parent(&self) -> (r: bool)
        ensures
            r == (self@.parent is Some),
    {
        self.parent.is_some()
    }

    pub fn get_parent(&self) -> (r: Option<usize>)
        ensures
            r == self@.parent,
    {
        self.parent
    }

    pub fn update_parent(&mut self, index: usize)
        ensures
            final(self)@ == (ObjectView { parent: Some(index), ..old(self)@ }),
    {
        self.parent = Some(index);
    }

    /// Registers a child position. A position that is already listed is
    /// ignored; the list is created on first use.
    pub fn update_children(&mut self, index: usize)
        ensures
            final(self)@ == (ObjectView {
                children: Some(
                    if obj_child_seq(old(self)@).contains(index) {
                        obj_child_seq(old(self)@)
                    } else {
                        obj_child_seq(old(self)@).push(index)
                    },
                ),
                ..old(self)@
            }),
    {
        match &mut self.children {
            Some(children) => {
                if !crate::node::positions_contain(children, index) {
                    children.push(index);
                }
            },
            children => {
                let mut v: Vec<usize> = Vec::new();
                v.push(index);
                *children = Some(v);
                proof {
                    assert(obj_child_seq(old(self)@).push(index) =~= final(self)@.children->Some_0);
                }
            },
        }
    }

    /// A structurally equal copy.
    pub fn duplicate(&self) -> (r: Object)
        ensures
            r@ == self@,
    {
        Object {
            idx: self.idx,
            val: self.val.duplicate(),
            parent: self.parent,
            children: match &self.children {
                Some(c) => Some(crate::node::clone_positions(c)),
                None => None,
            },
        }
    }
}

} // verus!
