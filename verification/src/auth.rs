//! Decides whether a mutating call is authorized, by exact comparison of the
//! presented credential against the configured shared secret. Query
//! operations are unauthenticated by design.

use vstd::prelude::*;

verus! {

/// What the credential check decides about a mutating call.
#[derive(Clone, Copy, Debug, PartialEq, Eq, Structural)]
pub enum Decision {
    /// A credential was presented and equals the configured secret.
    Authorized,
    /// No credential was presented.
    Missing,
    /// A credential was presented but differs from the configured secret.
    Mismatch,
}

/// The decision as a function of the presented and configured values.
pub open spec fn spec_authorize(presented: Option<Seq<char>>, configured: Seq<char>) -> Decision {
    match presented {
        Option::None => Decision::Missing,
        Option::Some(p) => if p == configured {
            Decision::Authorized
        } else {
            Decision::Mismatch
        },
    }
}

/// Decide whether a mutating call is authorized. Pure: both the presented and
/// the configured value are explicit arguments, and nothing else is read.
pub fn authorize(presented: Option<&String>, configured: &String) -> (d: Decision)
    ensures
        d == spec_authorize(presented.deep_view(), configured@),
{
    match presented {
        Option::None => Decision::Missing,
        Option::Some(p) => if p.eq(configured) {
            Decision::Authorized
        } else {
            Decision::Mismatch
        },
    }
}

} // verus!
