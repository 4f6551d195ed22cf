//! The closed set of external systems a tree can describe.

use vstd::prelude::*;

use crate::text::{lower_seq, lower_trim, str_eq, trim_seq, underscore, underscore_seq};

verus! {

#[derive(Clone, Copy, Debug, Eq, Hash, PartialEq, Structural)]
pub enum SystemType {
    BigQuery,
    SqlServer,
}

/// The canonical form a system tag is reduced to before it is
/// recognised: surrounding ASCII whitespace stripped, ASCII letters
/// lower-cased, inner spaces read as underscores. The folding is
/// deliberately ASCII-only; a tag written with other characters is not
/// recognised.
pub open spec fn canon_system(s: Seq<char>) -> Seq<char> {
    underscore_seq(lower_seq(trim_seq(s)))
}

/// Which system, if any, a tag names once canonicalised. Unrecognised
/// tags yield `None` and are rejected before any use.
pub open spec fn parse_system(s: Seq<char>) -> Option<SystemType> {
    let t = canon_system(s);
    if t == "big_query"@ {
        Some(SystemType::BigQuery)
    } else if t == "sql_server"@ {
        Some(SystemType::SqlServer)
    } else {
        None
    }
}

impl SystemType {
    /// Recognises a system tag, leniently: case is ignored, surrounding
    /// whitespace is stripped, and an inner space counts as an
    /// underscore.
    pub fn parse(s: &str) -> (r: Option<SystemType>)
        ensures
            r == parse_system(s@),
    {
        let lowered = lower_trim(s);
        let canon = underscore(lowered.as_str());
        let t = canon.as_str();
        if str_eq(t, "big_query") {
            Some(SystemType::BigQuery)
        } else if str_eq(t, "sql_server") {
            Some(SystemType::SqlServer)
        } else {
            None
        }
    }

    /// The canonical spelling of this system's name.
    pub closed spec fn spec_str(self) -> Seq<char> {
        match self {
            SystemType::BigQuery => "BigQuery"@,
            SystemType::SqlServer => "SqlServer"@,
        }
    }

    pub fn as_str(self) -> (r: &'static str)
        ensures
            r@ == self.spec_str(),
    {
        proof {
            reveal_strlit("BigQuery");
            reveal_strlit("SqlServer");
        }
        match self {
            SystemType::BigQuery => "BigQuery",
            SystemType::SqlServer => "SqlServer",
        }
    }
}

} // verus!
