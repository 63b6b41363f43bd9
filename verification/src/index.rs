//! The entity index: live entities grouped by archetype, each carrying one
//! slot per applicable component kind. A slot either holds the component's
//! payload live on the entity or records that the payload is parked in the
//! vault.

use vstd::prelude::*;

use crate::assoc::{assoc_map, keys_unique, lemma_assoc_map_dom, lemma_assoc_map_update,
    lemma_assoc_map_value};
use crate::kinds::{ArchetypeKind, ComponentKind};
use crate::matrix::{lemma_permitted_kinds_agree, permitted_set, spec_permitted_kinds};

verus! {

/// Where one applicable component of one entity currently stands: attached
/// to the entity with its payload live, or detached with the payload
/// preserved in the vault.
#[derive(Clone, Copy, PartialEq, Debug)]
pub enum Slot<P> {
    /// The component is attached; its payload is carried here.
    Live(P),
    /// The component is detached; its payload sits in the vault.
    Vaulted,
}

/// The abstract state of one tracked entity: its identity, its archetype,
/// and one slot per applicable component kind.
#[verifier::ext_equal]
pub struct RecView<P> {
    pub entity: u64,
    pub archetype: ArchetypeKind,
    pub comps: Map<ComponentKind, Slot<P>>,
}

struct EntityRecord<P> {
    entity: u64,
    archetype: ArchetypeKind,
    comps: Vec<(ComponentKind, Slot<P>)>,
}

spec fn rec_view<P>(r: EntityRecord<P>) -> RecView<P> {
    RecView { entity: r.entity, archetype: r.archetype, comps: assoc_map(r.comps@) }
}

/// Tracks live entities, in registration order.
pub struct EntityIndex<P> {
    records: Vec<EntityRecord<P>>,
}

impl<P> View for EntityIndex<P> {
    type V = Seq<RecView<P>>;

    closed spec fn view(&self) -> Seq<RecView<P>> {
        self.records@.map_values(|r: EntityRecord<P>| rec_view(r))
    }
}

/// Whether some tracked entity has this identity.
pub open spec fn has_entity<P>(s: Seq<RecView<P>>, entity: u64) -> bool {
    exists|i: int| 0 <= i < s.len() && (#[trigger] s[i]).entity == entity
}

/// The position of the first record with this identity, or -1 if none.
pub open spec fn find_entity<P>(s: Seq<RecView<P>>, entity: u64) -> int
    decreases s.len(),
{
    if s.len() == 0 {
        -1
    } else if s[0].entity == entity {
        0
    } else {
        let r = find_entity(s.skip(1), entity);
        if r < 0 {
            -1
        } else {
            r + 1
        }
    }
}

pub proof fn lemma_find_entity<P>(s: Seq<RecView<P>>, entity: u64)
    ensures
        has_entity(s, entity) ==> 0 <= find_entity(s, entity) < s.len() && s[find_entity(
            s,
            entity,
        )].entity == entity && forall|j: int|
            0 <= j < find_entity(s, entity) ==> (#[trigger] s[j]).entity != entity,
        !has_entity(s, entity) ==> find_entity(s, entity) == -1,
    decreases s.len(),
{
    if s.len() == 0 {
    } else if s[0].entity == entity {
    } else {
        let t = s.skip(1);
        lemma_find_entity(t, entity);
        if has_entity(s, entity) {
            let i = choose|i: int| 0 <= i < s.len() && (#[trigger] s[i]).entity == entity;
            assert(i >= 1);
            assert(t[i - 1] == s[i]);
            assert(has_entity(t, entity));
            let r = find_entity(t, entity);
            assert(s[r + 1] == t[r]);
            assert forall|j: int|
                0 <= j < find_entity(s, entity) implies (#[trigger] s[j]).entity != entity by {
                if j >= 1 {
                    assert(t[j - 1] == s[j]);
                }
            }
        } else {
            if has_entity(t, entity) {
                let i = choose|i: int| 0 <= i < t.len() && (#[trigger] t[i]).entity == entity;
                assert(s[i + 1] == t[i]);
                assert(has_entity(s, entity));
            }
        }
    }
}

/// The identities of all tracked entities of an archetype, in registration
/// order.
pub open spec fn spec_entities_of<P>(s: Seq<RecView<P>>, archetype: ArchetypeKind) -> Seq<u64>
    decreases s.len(),
{
    if s.len() == 0 {
        Seq::empty()
    } else {
        let rest = spec_entities_of(s.drop_last(), archetype);
        if s.last().archetype == archetype {
            rest.push(s.last().entity)
        } else {
            rest
        }
    }
}

/// Structural facts every index state satisfies: identities are unique, and
/// each record carries exactly the slots its archetype permits.
pub open spec fn view_wf<P>(s: Seq<RecView<P>>) -> bool {
    &&& forall|i: int, j: int|
        0 <= i < j < s.len() ==> (#[trigger] s[i]).entity != (#[trigger] s[j]).entity
    &&& forall|i: int|
        0 <= i < s.len() ==> (#[trigger] s[i]).comps.dom() == permitted_set(s[i].archetype)
}

impl<P: Copy> EntityIndex<P> {
    /// Internal invariant; implies `view_wf` of the view.
    pub closed spec fn wf(&self) -> bool {
        &&& forall|i: int|
            0 <= i < self.records@.len() ==> keys_unique((#[trigger] self.records@[i]).comps@)
        &&& view_wf(self@)
    }

    pub proof fn lemma_wf_view(&self)
        requires
            self.wf(),
        ensures
            view_wf(self@),
    {
    }

    /// An empty index.
    pub fn new() -> (r: Self)
        ensures
            r.wf(),
            r@ == Seq::<RecView<P>>::empty(),
    {
        let r = EntityIndex { records: Vec::new() };
        proof {
            assert(r@ =~= Seq::<RecView<P>>::empty());
        }
        r
    }

    /// How many entities are tracked.
    pub fn len(&self) -> (n: usize)
        ensures
            n == self@.len(),
    {
        self.records.len()
    }

    /// The identity of the record at a position.
    pub fn entity_at(&self, i: usize) -> (e: u64)
        requires
            i < self@.len(),
        ensures
            e == self@[i as int].entity,
    {
        self.records[i].entity
    }

    /// The archetype of the record at a position.
    pub fn archetype_at(&self, i: usize) -> (a: ArchetypeKind)
        requires
            i < self@.len(),
        ensures
            a == self@[i as int].archetype,
    {
        self.records[i].archetype
    }

    /// Index of the entry for a kind in a slot list.
    fn find_kind(comps: &Vec<(ComponentKind, Slot<P>)>, kind: ComponentKind) -> (r: Option<usize>)
        ensures
            match r {
                Some(j) => j < comps@.len() && comps@[j as int].0 == kind,
                None => forall|j: int|
                    0 <= j < comps@.len() ==> (#[trigger] comps@[j]).0 != kind,
            },
    {
        let n = comps.len();
        let mut j: usize = 0;
        while j < n
            invariant
                j <= n,
                n == comps@.len(),
                forall|j2: int| 0 <= j2 < j ==> (#[trigger] comps@[j2]).0 != kind,
            decreases n - j,
        {
            if comps[j].0 == kind {
                return Some(j);
            }
            j += 1;
        }
        None
    }

    /// The slot for one applicable kind of the record at a position.
    pub fn slot_at(&self, i: usize, kind: ComponentKind) -> (s: Slot<P>)
        requires
            self.wf(),
            i < self@.len(),
            self@[i as int].comps.contains_key(kind),
        ensures
            s == self@[i as int].comps[kind],
    {
        let rec = &self.records[i];
        proof {
            lemma_assoc_map_dom(rec.comps@);
        }
        match Self::find_kind(&rec.comps, kind) {
            Some(j) => {
                proof {
                    lemma_assoc_map_value(rec.comps@, j as int);
                }
                rec.comps[j].1
            },
            None => {
                proof {
                    assert(false);
                }
                vstd::pervasive::unreached()
            },
        }
    }

    /// Replaces the slot for one applicable kind, returning the one it held.
    pub fn set_slot(&mut self, i: usize, kind: ComponentKind, new_slot: Slot<P>) -> (prev: Slot<
        P,
    >)
        requires
            old(self).wf(),
            i < old(self)@.len(),
            old(self)@[i as int].comps.contains_key(kind),
        ensures
            final(self).wf(),
            prev == old(self)@[i as int].comps[kind],
            final(self)@ == old(self)@.update(
                i as int,
                (RecView {
                    comps: old(self)@[i as int].comps.insert(kind, new_slot),
                    ..old(self)@[i as int]
                }),
            ),
    {
        let ghost v0 = self@;
        proof {
            lemma_assoc_map_dom(self.records@[i as int].comps@);
        }
        let j = match Self::find_kind(&self.records[i].comps, kind) {
            Some(j) => j,
            None => {
                proof {
                    assert(false);
                }
                vstd::pervasive::unreached()
            },
        };
        let mut rec = self.records.remove(i);
        let ghost c0 = rec.comps@;
        proof {
            lemma_assoc_map_value(c0, j as int);
            lemma_assoc_map_update(c0, j as int, new_slot);
        }
        let removed = rec.comps.remove(j);
        rec.comps.insert(j, (kind, new_slot));
        proof {
            assert(rec.comps@ =~= c0.update(j as int, (kind, new_slot)));
            assert(assoc_map(rec.comps@) == assoc_map(c0).insert(kind, new_slot));
        }
        self.records.insert(i, rec);
        proof {
            let target = v0.update(
                i as int,
                (RecView { comps: v0[i as int].comps.insert(kind, new_slot), ..v0[i as int] }),
            );
            assert forall|m: int| 0 <= m < self@.len() implies self@[m] == target[m] by {
                if m < i as int {
                    assert(self.records@[m] == old(self).records@[m]);
                } else if m == i as int {
                    assert(self.records@[m] == rec);
                } else {
                    assert(self.records@[m] == old(self).records@[m]);
                }
            }
            assert(self@ =~= target);
            assert forall|m: int|
                0 <= m < self@.len() implies (#[trigger] self@[m]).comps.dom() == permitted_set(
                self@[m].archetype,
            ) by {
                if m == i as int {
                    assert(self@[m].comps.dom() =~= v0[m].comps.dom());
                }
            }
        }
        removed.1
    }

    /// Starts tracking an entity with the given slots, one per kind the
    /// archetype permits, in the canonical order.
    pub fn register(&mut self, entity: u64, archetype: ArchetypeKind, slots: Vec<(
        ComponentKind,
        Slot<P>,
    )>)
        requires
            old(self).wf(),
            !has_entity(old(self)@, entity),
            slots@.len() == spec_permitted_kinds(archetype).len(),
            forall|j: int|
                0 <= j < slots@.len() ==> (#[trigger] slots@[j]).0 == spec_permitted_kinds(
                    archetype,
                )[j],
        ensures
            final(self).wf(),
            final(self)@ == old(self)@.push(
                (RecView { entity, archetype, comps: assoc_map(slots@) }),
            ),
    {
        let ghost v0 = self@;
        proof {
            lemma_permitted_kinds_agree(archetype);
            assert forall|i: int, j: int|
                0 <= i < j < slots@.len() implies (#[trigger] slots@[i]).0 != (
            #[trigger] slots@[j]).0 by {
                assert(spec_permitted_kinds(archetype)[i] != spec_permitted_kinds(archetype)[j]);
            }
            lemma_assoc_map_dom(slots@);
            assert forall|k: ComponentKind|
                assoc_map(slots@).contains_key(k) == permitted_set(archetype).contains(k) by {
                if assoc_map(slots@).contains_key(k) {
                    let j = choose|j: int| 0 <= j < slots@.len() && (#[trigger] slots@[j]).0 == k;
                    assert(spec_permitted_kinds(archetype)[j] == k);
                } else {
                    if permitted_set(archetype).contains(k) {
                        assert(spec_permitted_kinds(archetype).contains(k));
                        let j = choose|j: int|
                            0 <= j < spec_permitted_kinds(archetype).len()
                                && spec_permitted_kinds(archetype)[j] == k;
                        assert(slots@[j].0 == k);
                        assert(false);
                    }
                }
            }
            assert(assoc_map(slots@).dom() =~= permitted_set(archetype));
        }
        self.records.push(EntityRecord { entity, archetype, comps: slots });
        proof {
            assert forall|m: int| 0 <= m < v0.len() implies self@[m] == v0[m] by {
                assert(self.records@[m] == old(self).records@[m]);
            }
            assert(self@ =~= v0.push(
                (RecView { entity, archetype, comps: assoc_map(slots@) }),
            ));
            assert forall|i: int, j: int|
                0 <= i < j < self@.len() implies (#[trigger] self@[i]).entity != (
            #[trigger] self@[j]).entity by {
                if j == self@.len() - 1 {
                    assert(self@[i].entity != entity);
                }
            }
        }
    }

    /// Stops tracking an entity; reports whether it was tracked.
    pub fn unregister(&mut self, entity: u64) -> (found: bool)
        requires
            old(self).wf(),
        ensures
            final(self).wf(),
            found == has_entity(old(self)@, entity),
            found ==> final(self)@ == old(self)@.remove(find_entity(old(self)@, entity)),
            !found ==> *final(self) == *old(self),
            !has_entity(final(self)@, entity),
    {
        let ghost v0 = self@;
        proof {
            lemma_find_entity(v0, entity);
        }
        match self.find(entity) {
            Some(i) => {
                self.records.remove(i);
                proof {
                    assert forall|m: int|
                        0 <= m < self@.len() implies self@[m] == v0.remove(i as int)[m] by {
                        if m < i as int {
                            assert(self.records@[m] == old(self).records@[m]);
                        } else {
                            assert(self.records@[m] == old(self).records@[m + 1]);
                        }
                    }
                    assert(self@ =~= v0.remove(i as int));
                    assert forall|m: int|
                        0 <= m < self@.len() implies (#[trigger] self@[m]).entity != entity by {
                        if m < i as int {
                            assert(self@[m] == v0[m]);
                        } else {
                            assert(self@[m] == v0[m + 1]);
                        }
                    }
                }
                true
            },
            None => false,
        }
    }

    /// The position of the record tracking this entity, if any.
    #[verifier::loop_isolation(false)]
    pub fn find(&self, entity: u64) -> (r: Option<usize>)
        ensures
            match r {
                Some(i) => has_entity(self@, entity) && i as int == find_entity(self@, entity),
                None => !has_entity(self@, entity),
            },
    {
        proof {
            lemma_find_entity(self@, entity);
        }
        let n = self.records.len();
        let mut i: usize = 0;
        while i < n
            invariant
                i <= n,
                forall|j: int| 0 <= j < i ==> (#[trigger] self@[j]).entity != entity,
            decreases n - i,
        {
            if self.records[i].entity == entity {
                proof {
                    assert(self@[i as int].entity == entity);
                    assert(has_entity(self@, entity));
                    let f = find_entity(self@, entity);
                    assert(f == i as int);
                }
                return Some(i);
            }
            i += 1;
        }
        None
    }

    /// The identities of all tracked entities of an archetype, in
    /// registration order.
    #[verifier::loop_isolation(false)]
    pub fn entities_of(&self, archetype: ArchetypeKind) -> (r: Vec<u64>)
        ensures
            r@ == spec_entities_of(self@, archetype),
    {
        let n = self.records.len();
        let mut r: Vec<u64> = Vec::new();
        proof {
            assert(self@.take(0) =~= Seq::<RecView<P>>::empty());
            assert(r@ =~= spec_entities_of(self@.take(0), archetype));
        }
        let mut i: usize = 0;
        while i < n
            invariant
                i <= n,
                r@ == spec_entities_of(self@.take(i as int), archetype),
            decreases n - i,
        {
            proof {
                assert(self@.take(i as int + 1).drop_last() =~= self@.take(i as int));
                assert(self@.take(i as int + 1).last() == self@[i as int]);
            }
            if self.records[i].archetype == archetype {
                r.push(self.records[i].entity);
            }
            i += 1;
        }
        proof {
            assert(self@.take(n as int) =~= self@);
        }
        r
    }
}

} // verus!
