use vstd::prelude::*;

use crate::scope::equal_to_literal;

verus! {

/// What a resumed host call hands back to the guest: the host's value, or
/// `undefined` for calls whose result the guest never sees.
#[derive(Debug, Clone, Copy, PartialEq, Eq, Structural)]
pub enum ResumeBehavior {
    Value,
    Undefined,
}

/// Console capabilities resume with `undefined`; every other capability
/// resumes with the value the host supplies.
pub fn resume_behavior_for_capability(capability: &str) -> (b: ResumeBehavior)
    ensures
        b == (if capability@ == "console.log"@ || capability@ == "console.warn"@ || capability@
            == "console.error"@ {
            ResumeBehavior::Undefined
        } else {
            ResumeBehavior::Value
        }),
{
    if equal_to_literal(capability, "console.log") || equal_to_literal(capability, "console.warn")
        || equal_to_literal(capability, "console.error") {
        ResumeBehavior::Undefined
    } else {
        ResumeBehavior::Value
    }
}

} // verus!
