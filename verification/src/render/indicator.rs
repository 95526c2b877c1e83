//! The characters that open every rendered line (unified diff conventions).

use vstd::prelude::*;

verus! {

/// Context line: present on both sides.
pub const CONTEXT: char = ' ';

/// Expected value: what we wanted but did not get.
pub const EXPECTED: char = '-';

/// Actual value: what we got instead.
pub const ACTUAL: char = '+';

} // verus!
