use vstd::prelude::*;

verus! {

/// Whether traffic is traced to the console log.
pub struct Tracer {
    enabled: bool,
}

impl Tracer {
    pub closed spec fn on(&self) -> bool {
        self.enabled
    }

    /// A tracer that is off.
    pub fn new() -> (r: Tracer)
        ensures
            !r.on(),
    {
        Tracer { enabled: false }
    }

    pub fn is_enabled(&self) -> (r: bool)
        ensures
            r == self.on(),
    {
        self.enabled
    }
}

/// Turns tracing on or off.
pub fn set_trace(t: &mut Tracer, enabled: bool)
    ensures
        final(t).on() == enabled,
{
    t.enabled = enabled;
}

} // verus!
