//! Payload carried by a node: a label string plus a categorical kind drawn
//! from a closed enumeration.

use vstd::prelude::*;

use crate::text::{lower_seq, lower_trim, str_eq, trim_seq};

verus! {

/// The canonical form a kind tag is reduced to before it is recognised:
/// surrounding ASCII whitespace stripped, ASCII letters lower-cased.
/// The folding is deliberately ASCII-only; a tag written with other
/// characters is not recognised.
pub open spec fn canon_kind(s: Seq<char>) -> Seq<char> {
    lower_seq(trim_seq(s))
}

/// Which kind, if any, a tag names once canonicalised. Unrecognised tags
/// yield `None` and are rejected at construction time.
pub open spec fn parse_kind(s: Seq<char>) -> Option<ValueKind> {
    let t = canon_kind(s);
    if t == "system"@ {
        Some(ValueKind::System)
    } else if t == "server"@ {
        Some(ValueKind::Server)
    } else if t == "project"@ {
        Some(ValueKind::Project)
    } else if t == "dataset"@ {
        Some(ValueKind::Dataset)
    } else if t == "database"@ {
        Some(ValueKind::Database)
    } else if t == "schema"@ {
        Some(ValueKind::Schema)
    } else if t == "table"@ {
        Some(ValueKind::Table)
    } else if t == "column"@ {
        Some(ValueKind::Column)
    } else if t == "datatype"@ {
        Some(ValueKind::DataType)
    } else {
        None
    }
}

/// The closed set of categories a labeled node may belong to.
#[derive(Clone, Copy, Debug, Hash, PartialEq, Eq, Structural)]
pub enum ValueKind {
    System,
    Server,
    Project,
    Dataset,
    Database,
    Schema,
    Table,
    Column,
    DataType,
}

impl ValueKind {
    /// The canonical lower-case spelling of a kind.
    pub fn as_str(self) -> (r: &'static str)
        ensures
            r@ == Self::spec_str(self),
    {
        proof {
            reveal_strlit("system");
            reveal_strlit("server");
            reveal_strlit("project");
            reveal_strlit("dataset");
            reveal_strlit("database");
            reveal_strlit("schema");
            reveal_strlit("table");
            reveal_strlit("column");
            reveal_strlit("datatype");
        }
        match self {
            ValueKind::System => "system",
            ValueKind::Server => "server",
            ValueKind::Project => "project",
            ValueKind::Dataset => "dataset",
            ValueKind::Database => "database",
            ValueKind::Schema => "schema",
            ValueKind::Table => "table",
            ValueKind::Column => "column",
            ValueKind::DataType => "datatype",
        }
    }

    /// Recognises a kind tag: whitespace is stripped, case is ignored.
    pub fn parse(s: &str) -> (r: Option<ValueKind>)
        ensures
            r == parse_kind(s@),
    {
        let t = lower_trim(s);
        let t = t.as_str();
        if str_eq(t, "system") {
            Some(ValueKind::System)
        } else if str_eq(t, "server") {
            Some(ValueKind::Server)
        } else if str_eq(t, "project") {
            Some(ValueKind::Project)
        } else if str_eq(t, "dataset") {
            Some(ValueKind::Dataset)
        } else if str_eq(t, "database") {
            Some(ValueKind::Database)
        } else if str_eq(t, "schema") {
            Some(ValueKind::Schema)
        } else if str_eq(t, "table") {
            Some(ValueKind::Table)
        } else if str_eq(t, "column") {
            Some(ValueKind::Column)
        } else if str_eq(t, "datatype") {
            Some(ValueKind::DataType)
        } else {
            None
        }
    }

    /// The canonical spelling, as a sequence of characters.
    pub closed spec fn spec_str(self) -> Seq<char> {
        match self {
            ValueKind::System => "system"@,
            ValueKind::Server => "server"@,
            ValueKind::Project => "project"@,
            ValueKind::Dataset => "dataset"@,
            ValueKind::Database => "database"@,
            ValueKind::Schema => "schema"@,
            ValueKind::Table => "table"@,
            ValueKind::Column => "column"@,
            ValueKind::DataType => "datatype"@,
        }
    }
}

/// An opaque, equality-comparable label: a name and its kind.
#[derive(Clone, Debug, Hash, PartialEq, Eq)]
pub struct Value {
    name: String,
    kind: ValueKind,
}

impl Value {
    /// The label text, as a sequence of characters.
    pub closed spec fn spec_name(self) -> Seq<char> {
        self.name@
    }

    /// The categorical kind of this value.
    pub closed spec fn spec_kind(self) -> ValueKind {
        self.kind
    }

    pub fn new(name: &str, kind: ValueKind) -> (r: Value)
        ensures
            r.spec_name() == name@,
            r.spec_kind() == kind,
    {
        Value { name: name.to_owned(), kind }
    }

    /// Builds a value from a label and a kind tag; the tag must be one of
    /// the recognised kinds (any capitalisation, surrounding whitespace
    /// allowed).
    pub fn from_strs(name: &str, kind: &str) -> (r: Value)
        requires
            parse_kind(kind@) is Some,
        ensures
            r.spec_name() == name@,
            r.spec_kind() == parse_kind(kind@)->Some_0,
    {
        let k = ValueKind::parse(kind);
        match k {
            Some(k) => Value::new(name, k),
            None => {
                proof {
                    assert(false);
                }
                Value::new(name, ValueKind::System)
            },
        }
    }

    /// A structurally equal copy.
    pub fn duplicate(&self) -> (r: Value)
        ensures
            r == *self,
    {
        Value { name: self.name.clone(), kind: self.kind }
    }

    pub fn get_name_ref(&self) -> (r: &str)
        ensures
            r@ == self.spec_name(),
    {
        self.name.as_str()
    }

    pub fn get_name(&self) -> (r: String)
        ensures
            r@ == self.spec_name(),
    {
        self.name.clone()
    }

    pub fn get_kind(&self) -> (r: &ValueKind)
        ensures
            *r == self.spec_kind(),
    {
        &self.kind
    }

    pub fn set_kind(&mut self, kind: ValueKind)
        ensures
            final(self).spec_kind() == kind,
            final(self).spec_name() == old(self).spec_name(),
    {
        self.kind = kind;
    }

    /// Builds a value from an optional label handed back by an external
    /// producer; absent input yields no value.
    pub fn from_big_query_value(bq_value: Option<&str>, kind: ValueKind) -> (r: Option<Value>)
        ensures
            match bq_value {
                Some(s) => r is Some && r->Some_0.spec_name() == s@ && r->Some_0.spec_kind()
                    == kind,
                None => r is None,
            },
    {
        match bq_value {
            Some(s) => Some(Value::new(s, kind)),
            None => None,
        }
    }
}

} // verus!
