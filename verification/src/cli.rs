//! The run's settings and their validation.

use vstd::prelude::*;
use vstd::string::*;
use crate::text::{decimal, push_decimal};

verus! {

/// Settings of a load-test run: how often each expression is evaluated and
/// which file holds the expressions.
pub struct Args {
    /// Number of times to evaluate each expression (must be >= 1).
    pub iterations: usize,
    /// Input file path (absolute or relative to the `resources/` directory).
    pub input: String,
}

/// The message with which a run is refused for its iteration count.
pub open spec fn invalid_iterations_message(iterations: nat) -> Seq<char> {
    "Invalid iterations value: "@ + decimal(iterations) + ". Must be >= 1"@
}

impl Args {
    /// Accepts the settings exactly when at least one iteration is asked for.
    pub fn validate(&self) -> (r: Result<(), String>)
        ensures
            r is Ok <==> self.iterations >= 1,
            r matches Err(msg) ==> msg@ == invalid_iterations_message(self.iterations as nat),
    {
        if self.iterations < 1 {
            let mut msg = String::new();
            msg.append("Invalid iterations value: ");
            push_decimal(&mut msg, self.iterations);
            msg.append(". Must be >= 1");
            return Err(msg);
        }
        Ok(())
    }
}

} // verus!
