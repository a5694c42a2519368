//! The shared resource registry.
//!
//! Globally addressable handles (for example to a mesh and a material)
//! are created once per key and afterwards only read; every completed
//! job receives clones of the same handles. Registration is idempotent
//! per key, and a lookup before registration fails with
//! [`SchedulerError::ResourceNotFound`].

use vstd::prelude::*;
use crate::ids::nodup;

verus! {

/// An opaque, cloneable identifier for a shared asset.
///
/// Clones carry the same `id` and therefore address the same underlying
/// asset; the registry owning the asset keeps it valid for its lifetime.
#[derive(Clone, Copy, PartialEq, Eq, Structural, Debug)]
pub struct ResourceHandle {
    pub id: u64,
}

/// The errors of the scheduler subsystem.
#[derive(Clone, Copy, PartialEq, Eq, Structural, Debug)]
pub enum SchedulerError {
    /// A handle was requested before its key was registered.
    ResourceNotFound,
}

/// One registered key and the handle created for it.
#[derive(Clone, Copy, PartialEq, Eq, Structural, Debug)]
pub struct RegistryEntry {
    pub key: u64,
    pub handle: ResourceHandle,
}

/// The registry: a key-to-handle table with duplicate-free keys.
pub struct Registry {
    pub entries: Vec<RegistryEntry>,
    pub next_handle: u64,
}

/// The keys of the entries, in table order.
pub open spec fn keys_of(entries: Seq<RegistryEntry>) -> Seq<u64> {
    entries.map_values(|e: RegistryEntry| e.key)
}

/// The handle registered for `key`, scanning the table front to back.
pub open spec fn spec_lookup(entries: Seq<RegistryEntry>, key: u64) -> Option<ResourceHandle>
    decreases entries.len(),
{
    if entries.len() == 0 {
        None
    } else if entries.first().key == key {
        Some(entries.first().handle)
    } else {
        spec_lookup(entries.drop_first(), key)
    }
}

/// A lookup succeeds exactly when some entry carries the key.
pub proof fn lemma_lookup_some(entries: Seq<RegistryEntry>, key: u64)
    ensures
        spec_lookup(entries, key) is Some <==> keys_of(entries).contains(key),
    decreases entries.len(),
{
    if entries.len() > 0 {
        lemma_lookup_some(entries.drop_first(), key);
        if entries.first().key == key {
            assert(keys_of(entries)[0] == key);
        } else {
            assert(keys_of(entries.drop_first()) =~= keys_of(entries).drop_first());
            if keys_of(entries).contains(key) {
                let i = choose|i: int| 0 <= i < keys_of(entries).len() && keys_of(entries)[i] == key;
                assert(keys_of(entries).drop_first()[i - 1] == key);
            }
            if keys_of(entries).drop_first().contains(key) {
                let i = choose|i: int|
                    0 <= i < keys_of(entries).drop_first().len()
                        && keys_of(entries).drop_first()[i] == key;
                assert(keys_of(entries)[i + 1] == key);
            }
        }
    }
}

/// If the first `i` entries miss the key and entry `i` carries it, the
/// lookup returns entry `i`'s handle.
pub proof fn lemma_lookup_at(entries: Seq<RegistryEntry>, key: u64, i: int)
    requires
        0 <= i < entries.len(),
        entries[i].key == key,
        forall|j: int| 0 <= j < i ==> entries[j].key != key,
    ensures
        spec_lookup(entries, key) == Some(entries[i].handle),
    decreases i,
{
    if i > 0 {
        lemma_lookup_at(entries.drop_first(), key, i - 1);
    }
}

/// Registering a fresh key appends one entry; the lookup of any other
/// sequence is unchanged by an appended entry.
pub proof fn lemma_lookup_push(entries: Seq<RegistryEntry>, e: RegistryEntry, key: u64)
    requires
        spec_lookup(entries, key) is None,
    ensures
        spec_lookup(entries.push(e), key) == if e.key == key {
            Some(e.handle)
        } else {
            None::<ResourceHandle>
        },
    decreases entries.len(),
{
    if entries.len() > 0 {
        assert(entries.push(e).first() == entries.first());
        assert(entries.first().key != key);
        assert(entries.push(e).drop_first() =~= entries.drop_first().push(e));
        lemma_lookup_push(entries.drop_first(), e, key);
        assert(spec_lookup(entries.push(e), key) == spec_lookup(entries.drop_first().push(e), key));
    } else {
        assert(entries.push(e).len() == 1);
        assert(entries.push(e).first() == e);
        assert(entries.push(e).drop_first() =~= Seq::<RegistryEntry>::empty());
        assert(spec_lookup(Seq::<RegistryEntry>::empty(), key) is None);
        if e.key == key {
            assert(spec_lookup(entries.push(e), key) == Some(e.handle));
        } else {
            assert(spec_lookup(entries.push(e), key) is None);
        }
    }
}

/// An appended entry never shadows a key that is already registered:
/// the scan finds the earlier entry first.
pub proof fn lemma_lookup_push_keeps(entries: Seq<RegistryEntry>, e: RegistryEntry, key: u64)
    requires
        spec_lookup(entries, key) is Some,
    ensures
        spec_lookup(entries.push(e), key) == spec_lookup(entries, key),
    decreases entries.len(),
{
    assert(entries.push(e).first() == entries.first());
    if entries.first().key != key {
        assert(entries.push(e).drop_first() =~= entries.drop_first().push(e));
        lemma_lookup_push_keeps(entries.drop_first(), e, key);
    }
}

impl Registry {
    /// The registry's internal consistency: keys are never registered twice.
    pub open spec fn wf(self) -> bool {
        nodup(keys_of(self.entries@))
    }

    /// An empty registry.
    pub fn new() -> (r: Registry)
        ensures
            r.entries@ == Seq::<RegistryEntry>::empty(),
            r.next_handle == 0,
            r.wf(),
    {
        Registry { entries: Vec::new(), next_handle: 0 }
    }

    /// Create the handle for `key`, or return the one already created.
    ///
    /// Idempotent per key: a second registration of the same key returns
    /// the first call's handle and leaves the registry unchanged.
    pub fn register(&mut self, key: u64) -> (handle: ResourceHandle)
        requires
            old(self).wf(),
            old(self).next_handle < u64::MAX,
        ensures
            final(self).wf(),
            spec_lookup(final(self).entries@, key) == Some(handle),
            match spec_lookup(old(self).entries@, key) {
                Some(h) => {
                    &&& handle == h
                    &&& final(self).entries@ == old(self).entries@
                    &&& final(self).next_handle == old(self).next_handle
                },
                None => {
                    &&& handle == (ResourceHandle { id: old(self).next_handle })
                    &&& final(self).entries@ == old(self).entries@.push(
                        RegistryEntry { key, handle },
                    )
                    &&& final(self).next_handle == old(self).next_handle + 1
                },
            },
    {
        match self.lookup(key) {
            Some(h) => h,
            None => {
                let handle = ResourceHandle { id: self.next_handle };
                let ghost pre = self.entries@;
                self.entries.push(RegistryEntry { key, handle });
                self.next_handle = self.next_handle + 1;
                proof {
                    lemma_lookup_push(pre, RegistryEntry { key, handle }, key);
                    lemma_lookup_some(pre, key);
                    assert(keys_of(self.entries@) =~= keys_of(pre).push(key));
                    assert forall|i: int, j: int|
                        0 <= i < j < keys_of(self.entries@).len() implies keys_of(self.entries@)[i]
                        != keys_of(self.entries@)[j] by {
                        if j == keys_of(self.entries@).len() - 1 {
                            assert(keys_of(pre)[i] == keys_of(self.entries@)[i]);
                        }
                    }
                }
                handle
            },
        }
    }

    /// Look the key up without creating anything.
    pub fn lookup(&self, key: u64) -> (r: Option<ResourceHandle>)
        ensures
            r == spec_lookup(self.entries@, key),
    {
        let mut i: usize = 0;
        while i < self.entries.len()
            invariant
                0 <= i <= self.entries@.len(),
                forall|j: int| 0 <= j < i ==> self.entries@[j].key != key,
            decreases self.entries@.len() - i,
        {
            if self.entries[i].key == key {
                proof {
                    lemma_lookup_at(self.entries@, key, i as int);
                }
                return Some(self.entries[i].handle);
            }
            i = i + 1;
        }
        proof {
            lemma_lookup_some(self.entries@, key);
            assert(!keys_of(self.entries@).contains(key)) by {
                if keys_of(self.entries@).contains(key) {
                    let j = choose|j: int|
                        0 <= j < keys_of(self.entries@).len() && keys_of(self.entries@)[j] == key;
                    assert(self.entries@[j].key == key);
                }
            }
        }
        None
    }

    /// Return the handle for `key`, failing with `ResourceNotFound` when
    /// `key` was never registered.
    pub fn get(&self, key: u64) -> (r: Result<ResourceHandle, SchedulerError>)
        ensures
            match r {
                Ok(h) => spec_lookup(self.entries@, key) == Some(h),
                Err(e) => {
                    &&& spec_lookup(self.entries@, key) is None
                    &&& e == SchedulerError::ResourceNotFound
                },
            },
    {
        match self.lookup(key) {
            Some(h) => Ok(h),
            None => Err(SchedulerError::ResourceNotFound),
        }
    }
}

} // verus!
