//! Trace lines for executed SQL statements.

use vstd::prelude::*;
use vstd::string::*;

verus! {

/// The trace line for one executed SQL statement: the statement behind a
/// fixed `SQL: ` prefix.
pub fn tracer(s: &str) -> (line: String)
    ensures
        line@ == "SQL: "@ + s@,
{
    String::from_str("SQL: ").concat(s)
}

} // verus!
