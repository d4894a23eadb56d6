//! The versioned artifact records: the contract between the analysis side
//! and every front-end. Serialization lives with the front-ends; here are
//! the records themselves and the rules that read and maintain them.
use vstd::prelude::*;

pub mod baseline;
pub mod findings;
pub mod read;
pub mod schema;
pub mod unimap;
pub mod witness;

verus! {

/// A document that declares which schema it is.
pub trait Artifact: Sized {
    /// The schema tag this build implements, as a value.
    spec fn schema_tag() -> Seq<char>;

    /// The tag the document declares, as a value.
    spec fn declared_tag(&self) -> Seq<char>;

    /// The schema tag this build implements.
    fn expected_schema() -> (r: &'static str)
        ensures
            r@ == Self::schema_tag(),
    ;

    /// The tag the document actually declares.
    fn declared_schema(&self) -> (r: &str)
        ensures
            r@ == self.declared_tag(),
    ;
}

/// The singular or the plural of a word, chosen by a count: `one` exactly
/// when the count is 1.
pub fn plural<'a>(n: usize, one: &'a str, many: &'a str) -> (r: &'a str)
    ensures
        r == (if n == 1 {
            one
        } else {
            many
        }),
{
    if n == 1 {
        one
    } else {
        many
    }
}

} // verus!
