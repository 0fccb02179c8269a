//! Messages written to standard output while domains are drawn.

use crate::domains::DomainType;
use std::io::Write;
use vstd::prelude::*;

verus! {

/// Writes `primary: (element, strength)` and a line break to standard output
/// with `writeln!` on `std::io::stdout()`. Writing has no effect on the
/// library's values, so nothing is stated of it; a failed write is ignored.
#[verifier::external_body]
pub(crate) fn print_primary(t: DomainType, strength: u8) {
    let _ = writeln!(std::io::stdout(), "primary: {:?}", (t, strength));
}

} // verus!
