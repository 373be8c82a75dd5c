//! The component registry: a stable small-integer identity for each distinct
//! component type, with the type's byte layout and storage strategy recorded
//! once at first registration.

use vstd::prelude::*;

verus! {

/// Which backing store holds values of a component type: a dense columnar
/// table owned by each archetype, or one sparse set shared across archetypes.
#[derive(Clone, Copy, Debug, PartialEq, Eq, Structural)]
pub enum StorageKind {
    Table,
    SparseSet,
}

/// The runtime descriptor of a component type: the caller-chosen stable key
/// that stands for the type, the byte size of one value, and the storage
/// strategy fixed at first registration. Values are owned byte strings, so
/// cleanup on overwrite, removal and teardown is the byte string's own.
#[derive(Clone, Copy, Debug, PartialEq, Eq, Structural)]
pub struct ComponentInfo {
    pub key: u64,
    pub size: usize,
    pub kind: StorageKind,
}

#[derive(Clone, Copy, Debug, PartialEq, Eq, Structural)]
pub enum RegistryError {
    /// The key was registered before, under the other storage strategy.
    StorageMismatch,
    /// The key was registered before, with a different byte size.
    LayoutMismatch,
}

/// Assigns dense component ids in registration order. There is no removal:
/// a component id stays valid for the life of the registry.
pub struct ComponentRegistry {
    pub infos: Vec<ComponentInfo>,
}

impl ComponentRegistry {
    pub open spec fn count(self) -> nat {
        self.infos@.len()
    }

    pub open spec fn is_registered(self, c: int) -> bool {
        0 <= c < self.infos@.len()
    }

    pub open spec fn spec_info(self, c: int) -> ComponentInfo {
        self.infos@[c]
    }

    pub open spec fn spec_has_key(self, key: u64) -> bool {
        exists|i: int| 0 <= i < self.infos@.len() && self.infos@[i].key == key
    }

    pub open spec fn spec_key_index(self, key: u64) -> int {
        choose|i: int| 0 <= i < self.infos@.len() && self.infos@[i].key == key
    }

    /// No two component ids share a key.
    pub open spec fn wf(self) -> bool {
        forall|i: int, j: int|
            0 <= i < j < self.infos@.len() ==> self.infos@[i].key != self.infos@[j].key
    }

    pub fn new() -> (r: Self)
        ensures
            r.wf(),
            r.count() == 0,
    {
        ComponentRegistry { infos: Vec::new() }
    }

    fn find_key(&self, key: u64) -> (r: Option<usize>)
        ensures
            match r {
                Some(i) => i < self.infos@.len() && self.infos@[i as int].key == key,
                None => !self.spec_has_key(key),
            },
    {
        let mut k: usize = 0;
        while k < self.infos.len()
            invariant
                k <= self.infos@.len(),
                forall|j: int| 0 <= j < k ==> self.infos@[j].key != key,
            decreases self.infos@.len() - k,
        {
            if self.infos[k].key == key {
                return Some(k);
            }
            k = k + 1;
        }
        None
    }

    /// Registers a component type, or returns the id it already has.
    /// Idempotent per key; a key seen before with another storage strategy
    /// or another byte size is rejected and nothing changes.
    pub fn register(&mut self, key: u64, size: usize, kind: StorageKind) -> (r: Result<
        usize,
        RegistryError,
    >)
        requires
            old(self).wf(),
        ensures
            final(self).wf(),
            match r {
                Ok(id) => {
                    &&& id < final(self).count()
                    &&& final(self).spec_info(id as int) == (ComponentInfo { key, size, kind })
                    &&& (old(self).spec_has_key(key) ==> *final(self) == *old(self))
                    &&& (!old(self).spec_has_key(key) ==> id == old(self).count()
                        && final(self).infos@ == old(self).infos@.push(
                        ComponentInfo { key, size, kind },
                    ))
                },
                Err(e) => {
                    &&& *final(self) == *old(self)
                    &&& old(self).spec_has_key(key)
                    &&& {
                        let i = old(self).spec_key_index(key);
                        &&& (old(self).spec_info(i).kind != kind <==> e
                            == RegistryError::StorageMismatch)
                        &&& (old(self).spec_info(i).kind == kind && old(self).spec_info(i).size
                            != size <==> e == RegistryError::LayoutMismatch)
                    }
                },
            },
    {
        match self.find_key(key) {
            Some(i) => {
                proof {
                    let j = self.spec_key_index(key);
                    assert(self.infos@[i as int].key == key);
                    assert(0 <= j < self.infos@.len() && self.infos@[j].key == key);
                    assert(j == i);
                }
                let found = self.infos[i];
                if found.kind != kind {
                    Err(RegistryError::StorageMismatch)
                } else if found.size != size {
                    Err(RegistryError::LayoutMismatch)
                } else {
                    Ok(i)
                }
            },
            None => {
                let id = self.infos.len();
                self.infos.push(ComponentInfo { key, size, kind });
                Ok(id)
            },
        }
    }

    /// The byte size recorded for the component id.
    pub fn layout_of(&self, c: usize) -> (r: usize)
        requires
            self.is_registered(c as int),
        ensures
            r == self.spec_info(c as int).size,
    {
        self.infos[c].size
    }

    /// The storage strategy recorded for the component id.
    pub fn kind_of(&self, c: usize) -> (r: StorageKind)
        requires
            self.is_registered(c as int),
        ensures
            r == self.spec_info(c as int).kind,
    {
        self.infos[c].kind
    }

    /// How many component types are registered.
    pub fn len(&self) -> (r: usize)
        ensures
            r == self.count(),
    {
        self.infos.len()
    }
}

} // verus!
