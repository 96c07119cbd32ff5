use vstd::prelude::*;
use vstd::string::StringExecFns;
use std::rc::Rc;
use crate::in_memory_native::{
    InMemoryNativeBackend, InMemoryNativeManagedCount, InMemoryNativeManagedMap,
    InMemoryNativeManagedValue,
};
use crate::primitives::{ManagedCount, ManagedMap, ManagedValue, StateKey, StateValue};

verus! {

/// A backend that a handle can create afresh.
pub trait StateBackend: Sized {
    fn new() -> Self;
}

impl StateBackend for InMemoryNativeBackend {
    fn new() -> Self {
        InMemoryNativeBackend::new()
    }
}

/// A namespace over a shared backend: every counter, value or map obtained through the
/// handle is stored under the handle's name followed by its own.
pub struct StateHandle<S> {
    backend: Rc<S>,
    name: String,
}

impl<S: StateBackend> StateHandle<S> {
    pub closed spec fn name(&self) -> Seq<char> {
        self.name@
    }

    pub closed spec fn backend(&self) -> S {
        *self.backend
    }

    pub fn new(backend: Rc<S>, name: &str) -> (r: Self)
        ensures
            r.name() == name@,
            r.backend() == *backend,
    {
        StateHandle { backend, name: name.to_owned() }
    }

    /// A handle over the same backend, named `<this name>.<name>`.
    pub fn create_sub_handle(&self, name: &str) -> (r: Self)
        ensures
            r.name() == self.name().push('.') + name@,
            r.backend() == self.backend(),
    {
        let mut joined = self.name.clone();
        proof {
            reveal_strlit(".");
        }
        joined.append(".");
        joined.append(name);
        StateHandle { backend: Rc::clone(&self.backend), name: joined }
    }

    /// A handle with the same name over a new backend.
    pub fn spawn_new_backend(&self) -> (r: Self)
        ensures
            r.name() == self.name(),
    {
        StateHandle { backend: Rc::new(S::new()), name: self.name.clone() }
    }

    /// The name under which this handle stores `name`: `<this name>.<name>`, the two parts
    /// separated as in sub-handle names.
    pub fn physical_name(&self, name: &str) -> (r: String)
        ensures
            r@ == self.name().push('.') + name@,
    {
        let mut physical = self.name.clone();
        proof {
            reveal_strlit(".");
        }
        physical.append(".");
        physical.append(name);
        physical
    }
}

impl<S: StateBackend> Clone for StateHandle<S> {
    fn clone(&self) -> (r: Self)
        ensures
            r.name() == self.name(),
            r.backend() == self.backend(),
    {
        StateHandle { backend: Rc::clone(&self.backend), name: self.name.clone() }
    }
}

impl StateHandle<InMemoryNativeBackend> {
    pub fn get_managed_count(&self, name: &str) -> (r: InMemoryNativeManagedCount)
        ensures
            r.count() == 0,
    {
        let physical = self.physical_name(name);
        self.backend.get_managed_count(physical.as_str())
    }

    pub fn get_managed_value<V: StateValue>(&self, name: &str) -> (r: InMemoryNativeManagedValue<
        V,
    >)
        ensures
            r.value() is None,
    {
        let physical = self.physical_name(name);
        self.backend.get_managed_value(physical.as_str())
    }

    pub fn get_managed_map<K: StateKey, V: StateValue>(&self, name: &str) -> (r:
        InMemoryNativeManagedMap<K, V>)
        ensures
            r.entries() == Map::<K, V::V>::empty(),
    {
        let physical = self.physical_name(name);
        self.backend.get_managed_map(physical.as_str())
    }
}

} // verus!
