use vstd::prelude::*;

verus! {

/// A component value that knows the registry id of its own type.
pub trait Component {
    /// The registry id of this value's component type.
    spec fn component_type(&self) -> usize;

    fn get_type_id(&self) -> (r: usize)
        ensures
            r == self.component_type(),
    ;
}

/// A resource value that knows the registry id of its own type.
pub trait Resource {
    /// The registry id of this value's resource type.
    spec fn resource_type(&self) -> usize;

    fn get_type_id(&self) -> (r: usize)
        ensures
            r == self.resource_type(),
    ;
}

/// Whether a type may be handed to other threads. Every type that is `Send` and `Sync` says
/// no; the scheduler runs a single system on the calling thread in any case.
pub trait SendSyncCheck {
    fn is_not_send_sync() -> bool;
}

impl<T: Send + Sync> SendSyncCheck for T {
    fn is_not_send_sync() -> (r: bool)
        ensures
            !r,
    {
        false
    }
}

} // verus!
