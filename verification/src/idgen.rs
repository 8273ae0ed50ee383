//! The handle allocator: issues strictly increasing `TypeId` values and can
//! be reseeded when a context is rebuilt from its transfer form.

use vstd::prelude::*;

use crate::nodes::TypeId;

verus! {

/// Source of fresh type handles. The next value to be issued is the state;
/// every issued handle is strictly below it.
#[derive(Debug)]
pub struct TypeIdGenerator {
    pub next_type_id: usize,
}

impl View for TypeIdGenerator {
    type V = nat;

    open spec fn view(&self) -> nat {
        self.next_type_id as nat
    }
}

impl TypeIdGenerator {
    /// A fresh allocator, starting at zero.
    pub fn new() -> (r: TypeIdGenerator)
        ensures
            r@ == 0,
    {
        TypeIdGenerator { next_type_id: 0 }
    }

    /// Issue the next handle: the current state, never to be returned again.
    pub fn next(&mut self) -> (r: TypeId)
        requires
            old(self)@ < usize::MAX,
        ensures
            r@ == old(self)@,
            final(self)@ == old(self)@ + 1,
    {
        let type_id = TypeId::new(self.next_type_id);
        self.next_type_id = self.next_type_id + 1;
        type_id
    }

    /// Force the floor for future allocations to `value`.
    pub fn set_next(&mut self, value: usize)
        ensures
            final(self)@ == value as nat,
    {
        self.next_type_id = value;
    }
}

} // verus!
