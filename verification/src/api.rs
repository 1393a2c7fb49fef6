//! The client's context handle errors and the cache of interned string ids.
use crate::interner::InternedStringId;
use crate::provider::Context;
use vstd::string::StringSliceAdditionalSpecFns;
use vstd::prelude::*;

verus! {

/// An error that can occur when creating a context.
#[derive(Copy, Clone, PartialEq, Eq, Debug, Structural)]
pub enum ContextError {
    /// The pointer to the context is null.
    NullPointer,
}

impl ContextError {
    /// The error's message.
    pub fn message(&self) -> (r: &'static str)
        ensures
            r@ == (match self {
                ContextError::NullPointer => "Null pointer encountered"@,
            }),
    {
        match self {
            ContextError::NullPointer => "Null pointer encountered",
        }
    }
}

/// A string whose interned id is remembered, together with the context it was
/// interned in, so that it is interned once per context.
pub struct CachedInternedStringId {
    value: &'static str,
    interned_string_id_and_context: (usize, usize),
}

impl CachedInternedStringId {
    /// The string.
    pub closed spec fn text(&self) -> &'static str {
        self.value
    }

    /// The remembered id and the context it belongs to.
    pub closed spec fn cached(&self) -> (usize, usize) {
        self.interned_string_id_and_context
    }

    /// Remember nothing yet for `value`.
    pub fn new(value: &'static str) -> (r: Self)
        ensures
            r.text() == value,
            r.cached() == (usize::MAX, usize::MAX),
    {
        CachedInternedStringId { value, interned_string_id_and_context: (usize::MAX, usize::MAX) }
    }

    /// The interned id of the string in the context known as `context_key`: the
    /// remembered one when it was interned there, else the string is interned in
    /// `context` now and its new id remembered.
    pub fn load_from_context(&mut self, context: &mut Context, context_key: usize) -> (r: InternedStringId)
        requires
            old(context).wf(),
            old(self).cached().1 != context_key ==> old(context).interner().byte_len()
                + old(self).text().spec_bytes().len() <= usize::MAX,
        ensures
            final(context).wf(),
            final(self).text() == old(self).text(),
            old(self).cached().1 == context_key ==> {
                &&& r == old(self).cached().0
                &&& final(self).cached() == old(self).cached()
                &&& *final(context) == *old(context)
            },
            old(self).cached().1 != context_key ==> {
                &&& r == old(context).interner().strings().len()
                &&& final(self).cached() == (r, context_key)
                &&& final(context).interner().strings() == old(context).interner().strings().push(
                    old(self).text().spec_bytes(),
                )
                &&& final(context).interner().byte_len() == old(context).interner().byte_len()
                    + old(self).text().spec_bytes().len()
                &&& final(context).output() == old(context).output()
                &&& final(context).input() == old(context).input()
                &&& final(context).parsed() == old(context).parsed()
                &&& final(context).caches() == old(context).caches()
                &&& final(context).logs() == old(context).logs()
            },
    {
        if self.interned_string_id_and_context.1 != context_key {
            let id = context.intern_bytes(self.value.as_bytes());
            self.interned_string_id_and_context = (id, context_key);
        }
        self.interned_string_id_and_context.0
    }
}

} // verus!
