//! The component vault: keyed storage that preserves the payload of a
//! detached component, byte for byte, until it is reattached.
//!
//! Entries are keyed by (entity, component kind). Parking an already-parked
//! key or restoring an absent one is a caller error and is reported, never
//! papered over. Purging an entity removes every entry it owns, so no state
//! is retained for a dead entity.

use vstd::prelude::*;

use crate::assoc::{assoc_map, keys_unique, lemma_assoc_map_dom, lemma_assoc_map_push,
    lemma_assoc_map_remove, lemma_assoc_map_value};
use crate::kinds::ComponentKind;

verus! {

/// A vault consistency violation; both kinds indicate a defect in the
/// caller's bookkeeping, not a recoverable data state.
#[derive(Clone, Copy, PartialEq, Eq, Structural, Debug)]
pub enum VaultError {
    /// `park` was called for a key that already holds an entry.
    AlreadyParked,
    /// `restore` was called for a key with no entry.
    NotParked,
}

/// Preserved payloads of detached components, keyed by (entity, kind).
pub struct ComponentVault<P> {
    entries: Vec<((u64, ComponentKind), P)>,
}

impl<P> View for ComponentVault<P> {
    type V = Map<(u64, ComponentKind), P>;

    closed spec fn view(&self) -> Map<(u64, ComponentKind), P> {
        assoc_map(self.entries@)
    }
}

/// All keys belonging to one entity.
pub open spec fn entity_keys(entity: u64) -> Set<(u64, ComponentKind)> {
    Set::new(|k: (u64, ComponentKind)| k.0 == entity)
}

impl<P: Copy> ComponentVault<P> {
    /// Internal invariant: no two entries share a key.
    pub closed spec fn wf(&self) -> bool {
        keys_unique(self.entries@)
    }

    /// An empty vault.
    pub fn new() -> (v: Self)
        ensures
            v.wf(),
            v@ == Map::<(u64, ComponentKind), P>::empty(),
    {
        ComponentVault { entries: Vec::new() }
    }

    /// Index of the entry for (entity, kind), if any.
    #[verifier::loop_isolation(false)]
    fn find(&self, entity: u64, kind: ComponentKind) -> (r: Option<usize>)
        requires
            self.wf(),
        ensures
            match r {
                Some(i) => i < self.entries@.len() && self.entries@[i as int].0 == (entity, kind),
                None => forall|j: int|
                    0 <= j < self.entries@.len() ==> (#[trigger] self.entries@[j]).0 != (
                    entity,
                    kind,
                    ),
            },
            r is Some <==> self@.contains_key((entity, kind)),
    {
        proof {
            lemma_assoc_map_dom(self.entries@);
        }
        let n = self.entries.len();
        let mut i: usize = 0;
        while i < n
            invariant
                n == self.entries@.len(),
                i <= n,
                forall|j: int| 0 <= j < i ==> (#[trigger] self.entries@[j]).0 != (entity, kind),
            decreases n - i,
        {
            let key = self.entries[i].0;
            if key.0 == entity && key.1 == kind {
                proof {
                    assert(self.entries@[i as int].0 == (entity, kind));
                }
                return Some(i);
            }
            i += 1;
        }
        None
    }

    /// True if a payload is parked under (entity, kind).
    pub fn contains(&self, entity: u64, kind: ComponentKind) -> (r: bool)
        requires
            self.wf(),
        ensures
            r == self@.contains_key((entity, kind)),
    {
        self.find(entity, kind).is_some()
    }

    /// The payload parked under (entity, kind), if any, left in place.
    pub fn get(&self, entity: u64, kind: ComponentKind) -> (r: Option<P>)
        requires
            self.wf(),
        ensures
            match r {
                Some(p) => self@.contains_key((entity, kind)) && p == self@[(entity, kind)],
                None => !self@.contains_key((entity, kind)),
            },
    {
        match self.find(entity, kind) {
            Some(i) => {
                proof {
                    lemma_assoc_map_value(self.entries@, i as int);
                }
                Some(self.entries[i].1)
            },
            None => None,
        }
    }

    /// Stores `payload` under (entity, kind). Fails with `AlreadyParked`,
    /// changing nothing, exactly when an entry for that key already exists.
    pub fn park(&mut self, entity: u64, kind: ComponentKind, payload: P) -> (r: Result<
        (),
        VaultError,
    >)
        requires
            old(self).wf(),
        ensures
            final(self).wf(),
            old(self)@.contains_key((entity, kind)) ==> r == Err::<(), VaultError>(
                VaultError::AlreadyParked,
            ) && *final(self) == *old(self),
            !old(self)@.contains_key((entity, kind)) ==> r == Ok::<(), VaultError>(())
                && final(self)@ == old(self)@.insert((entity, kind), payload),
    {
        match self.find(entity, kind) {
            Some(_) => Err(VaultError::AlreadyParked),
            None => {
                proof {
                    lemma_assoc_map_push(self.entries@, (entity, kind), payload);
                }
                self.entries.push(((entity, kind), payload));
                Ok(())
            },
        }
    }

    /// Removes and returns the payload parked under (entity, kind). Fails
    /// with `NotParked`, changing nothing, exactly when no entry exists.
    pub fn restore(&mut self, entity: u64, kind: ComponentKind) -> (r: Result<P, VaultError>)
        requires
            old(self).wf(),
        ensures
            final(self).wf(),
            !old(self)@.contains_key((entity, kind)) ==> r == Err::<P, VaultError>(
                VaultError::NotParked,
            ) && *final(self) == *old(self),
            old(self)@.contains_key((entity, kind)) ==> r == Ok::<P, VaultError>(
                old(self)@[(entity, kind)],
            ) && final(self)@ == old(self)@.remove((entity, kind)),
    {
        match self.find(entity, kind) {
            Some(i) => {
                proof {
                    lemma_assoc_map_value(self.entries@, i as int);
                    lemma_assoc_map_remove(self.entries@, i as int);
                }
                let entry = self.entries.remove(i);
                Ok(entry.1)
            },
            None => Err(VaultError::NotParked),
        }
    }

    /// Removes every entry owned by `entity`; a no-op if none exist.
    #[verifier::loop_isolation(false)]
    pub fn purge(&mut self, entity: u64)
        requires
            old(self).wf(),
        ensures
            final(self).wf(),
            final(self)@ == old(self)@.remove_keys(entity_keys(entity)),
            forall|k: ComponentKind| !final(self)@.contains_key((entity, k)),
    {
        let ghost s0 = self.entries@;
        let ghost dropped = entity_keys(entity);
        let n = self.entries.len();
        let mut kept: Vec<((u64, ComponentKind), P)> = Vec::new();
        proof {
            assert(s0.take(0) =~= Seq::<((u64, ComponentKind), P)>::empty());
            assert(assoc_map(kept@) =~= assoc_map(s0.take(0)).remove_keys(dropped));
        }
        let mut i: usize = 0;
        while i < n
            invariant
                i <= n,
                keys_unique(kept@),
                assoc_map(kept@) == assoc_map(s0.take(i as int)).remove_keys(dropped),
            decreases n - i,
        {
            let entry = self.entries[i];
            proof {
                assert(s0.take(i as int + 1).drop_last() =~= s0.take(i as int));
                assert(s0.take(i as int + 1).last() == s0[i as int]);
                assert(assoc_map(s0.take(i as int + 1)) == assoc_map(s0.take(i as int)).insert(
                    entry.0,
                    entry.1,
                ));
            }
            if entry.0.0 != entity {
                proof {
                    lemma_assoc_map_dom(kept@);
                    lemma_assoc_map_dom(s0.take(i as int));
                    if assoc_map(kept@).contains_key(entry.0) {
                        let t = s0.take(i as int);
                        let j = choose|j: int| 0 <= j < t.len() && (#[trigger] t[j]).0 == entry.0;
                        assert(s0[j].0 == s0[i as int].0);
                        assert(false);
                    }
                    assert forall|j: int|
                        0 <= j < kept@.len() implies (#[trigger] kept@[j]).0 != entry.0 by {
                        if kept@[j].0 == entry.0 {
                            assert(assoc_map(kept@).contains_key(entry.0));
                        }
                    }
                    lemma_assoc_map_push(kept@, entry.0, entry.1);
                }
                let ghost prev = kept@;
                kept.push(entry);
                proof {
                    assert(!dropped.contains(entry.0));
                    assert(assoc_map(kept@) =~= assoc_map(s0.take(i as int + 1)).remove_keys(
                        dropped,
                    ));
                }
            } else {
                proof {
                    assert(dropped.contains(entry.0));
                    assert(assoc_map(kept@) =~= assoc_map(s0.take(i as int + 1)).remove_keys(
                        dropped,
                    ));
                }
            }
            i += 1;
        }
        proof {
            assert(s0.take(n as int) =~= s0);
            assert forall|k: ComponentKind|
                !assoc_map(kept@).contains_key((entity, k)) by {
                assert(dropped.contains((entity, k)));
            }
        }
        self.entries = kept;
    }

    /// How many entries `entity` currently owns; zero exactly when the vault
    /// holds nothing for it.
    pub fn entry_count_for(&self, entity: u64) -> (n: usize)
        requires
            self.wf(),
        ensures
            (n == 0) <==> (forall|k: ComponentKind| !self@.contains_key((entity, k))),
    {
        proof {
            lemma_assoc_map_dom(self.entries@);
        }
        let total = self.entries.len();
        let mut n: usize = 0;
        let mut i: usize = 0;
        while i < total
            invariant
                total == self.entries@.len(),
                i <= total,
                n <= i,
                (n == 0) <==> (forall|j: int|
                    0 <= j < i ==> (#[trigger] self.entries@[j]).0.0 != entity),
            decreases total - i,
        {
            if self.entries[i].0.0 == entity {
                n += 1;
            }
            i += 1;
        }
        proof {
            if n == 0 {
                assert forall|k: ComponentKind| !self@.contains_key((entity, k)) by {
                    if self@.contains_key((entity, k)) {
                        let j = choose|j: int|
                            0 <= j < self.entries@.len() && (#[trigger] self.entries@[j]).0 == (
                            entity,
                            k,
                            );
                        assert(self.entries@[j].0.0 == entity);
                    }
                }
            } else {
                let j = choose|j: int|
                    0 <= j < self.entries@.len() && (#[trigger] self.entries@[j]).0.0 == entity;
                assert(self@.contains_key((entity, self.entries@[j].0.1)));
            }
        }
        n
    }
}

/// Round-trip law: parking a payload and then restoring the same key yields
/// the payload unchanged, field for field, and leaves the vault exactly as
/// it was. Stated over the map view that `park` and `restore` ensure.
pub proof fn lemma_park_restore_round_trip<P>(
    m: Map<(u64, ComponentKind), P>,
    entity: u64,
    kind: ComponentKind,
    payload: P,
)
    requires
        !m.contains_key((entity, kind)),
    ensures
        m.insert((entity, kind), payload)[(entity, kind)] == payload,
        m.insert((entity, kind), payload).remove((entity, kind)) == m,
{
    assert(m.insert((entity, kind), payload).remove((entity, kind)) =~= m);
}

} // verus!
