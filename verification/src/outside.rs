//! Types of other crates that values of this library hold.

use vstd::prelude::*;

verus! {

/// `void::Void`, the error of what cannot fail: it has no value.
#[verifier::external_type_specification]
#[verifier::external_body]
pub struct ExVoid(void::Void);

/// `csv::Error`, what reading a table can fail with.
#[verifier::external_type_specification]
#[verifier::external_body]
pub struct ExCsvError(csv::Error);

} // verus!
