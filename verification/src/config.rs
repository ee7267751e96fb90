//! Service configuration carried by the application state.

use vstd::prelude::*;

verus! {

/// Configuration of forum webhook updates: the shared secret the event
/// signatures are keyed with.
pub struct DiscourseUpdateConfig {
    pub secret: Vec<u8>,
}

impl Default for DiscourseUpdateConfig {
    /// The default configuration has an empty secret.
    fn default() -> (r: Self)
        ensures
            r.secret@ == Seq::<u8>::empty(),
    {
        let r = DiscourseUpdateConfig { secret: Vec::new() };
        proof {
            assert(r.secret@ =~= Seq::<u8>::empty());
        }
        r
    }
}

} // verus!
