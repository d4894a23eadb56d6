//! Reading an artifact document, with the schema tag actually checked.
//!
//! A document's `schema` field exists to be checked: a `findings.v1`
//! document must not load as a baseline, nor a `findings.v99` from a newer
//! tool pass for this run's answer. Parsing happens at the edge; every
//! parsed document then comes through here.
use vstd::prelude::*;

use super::Artifact;
use crate::text::{owned, str_eq};

verus! {

/// Why a document could not be read.
#[derive(Debug)]
pub enum ReadError {
    /// Not JSON, or JSON that is not this artifact's shape (the parser's
    /// own message).
    Parse(String),
    /// Parsed, and declares a schema this build does not implement.
    Schema { declared: String, expected: &'static str },
}

/// What a read error says.
pub open spec fn read_error_message(e: ReadError) -> Seq<char> {
    match e {
        ReadError::Parse(m) => m@,
        ReadError::Schema { declared, expected } => "schema is `"@ + declared@ + "`, expected `"@ + expected@
            + "`"@,
    }
}

impl ReadError {
    /// The message: bare for a parse failure, so a caller's own prefix
    /// keeps reading naturally.
    pub fn to_string(&self) -> (r: String)
        ensures
            r@ == read_error_message(*self),
    {
        match self {
            ReadError::Parse(m) => m.clone(),
            ReadError::Schema { declared, expected } => {
                let mut s = owned("schema is `");
                s.append(declared.as_str());
                s.append("`, expected `");
                s.append(expected);
                s.append("`");
                s
            },
        }
    }
}

/// Accept a parsed document only when it declares the schema this build
/// implements.
pub fn check_schema<T: Artifact>(parsed: T) -> (r: Result<T, ReadError>)
    ensures
        parsed.declared_tag() == T::schema_tag() ==> r == Ok::<T, ReadError>(parsed),
        parsed.declared_tag() != T::schema_tag() ==> (r matches Err(ReadError::Schema { declared, expected })
            && declared@ == parsed.declared_tag() && expected@ == T::schema_tag()),
{
    let expected = T::expected_schema();
    if str_eq(parsed.declared_schema(), expected) {
        Ok(parsed)
    } else {
        let declared = owned(parsed.declared_schema());
        Err(ReadError::Schema { declared, expected })
    }
}

} // verus!
