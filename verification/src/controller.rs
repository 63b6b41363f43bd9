//! The toggle controller: owns the entity index, the vault and the aggregate
//! table, and orchestrates toggle requests, registration with regime
//! adoption, and despawn cleanup.

use vstd::map::*;
use vstd::prelude::*;

use crate::assoc::{assoc_map, lemma_assoc_map_dom, lemma_assoc_map_value};
use crate::index::{find_entity, has_entity, lemma_find_entity, spec_entities_of, view_wf,
    EntityIndex, RecView, Slot};
use crate::kinds::{ArchetypeKind, ComponentKind};
use crate::matrix::{lemma_permitted_kinds_agree, permits, permitted_set, spec_permits,
    spec_permitted_kinds};
use crate::regime::AggregateTable;
use crate::vault::{entity_keys, ComponentVault};

verus! {

/// The observable state of one applicable component of one entity: attached
/// and live, or parked with its payload preserved verbatim.
#[derive(Clone, Copy, PartialEq, Debug)]
pub enum ToggleState<P> {
    Active(P),
    Parked(P),
}

/// Why a state query failed.
#[derive(Clone, Copy, PartialEq, Eq, Structural, Debug)]
pub enum StateError {
    /// The entity is not tracked.
    UnknownEntity,
    /// The kind is not permitted for the entity's archetype.
    NotApplicable,
}

/// Why a toggle request was dropped.
#[derive(Clone, Copy, PartialEq, Eq, Structural, Debug)]
pub enum ToggleError {
    /// The (archetype, kind) pair is not in the applicability matrix.
    InvalidToggle,
}

/// The controller's whole abstract state: the tracked entities in
/// registration order, the aggregate regime table, and the vault contents.
#[verifier::ext_equal]
pub struct EngineView<P> {
    pub entities: Seq<RecView<P>>,
    pub regime: Map<(ArchetypeKind, ComponentKind), bool>,
    pub vault: Map<(u64, ComponentKind), P>,
}

/// Some tracked record owns this vault key.
pub open spec fn tracks_key<P>(s: Seq<RecView<P>>, key: (u64, ComponentKind)) -> bool {
    exists|i: int|
        0 <= i < s.len() && (#[trigger] s[i]).entity == key.0 && s[i].comps.contains_key(key.1)
}

/// The invariant tying the three parts together:
/// - the index is structurally sound (unique ids, slots match the matrix);
/// - the regime table covers exactly the permitted pairs;
/// - a slot is vaulted exactly when the vault holds its key;
/// - a slot is vaulted exactly when its group's regime is parked, so the
///   entity population never diverges from the buttons;
/// - the vault holds no key that no tracked record owns.
pub open spec fn inv<P>(v: EngineView<P>) -> bool {
    &&& view_wf(v.entities)
    &&& forall|pair: (ArchetypeKind, ComponentKind)|
        #[trigger] v.regime.contains_key(pair) == spec_permits(pair.0, pair.1)
    &&& forall|i: int, k: ComponentKind|
        0 <= i < v.entities.len() && (#[trigger] v.entities[i].comps.contains_key(k)) ==> ((
        v.entities[i].comps[k] is Vaulted) == v.vault.contains_key((v.entities[i].entity, k)))
    &&& forall|i: int, k: ComponentKind|
        0 <= i < v.entities.len() && (#[trigger] v.entities[i].comps.contains_key(k)) ==> ((
        v.entities[i].comps[k] is Vaulted) == v.regime[(v.entities[i].archetype, k)])
    &&& forall|key: (u64, ComponentKind)|
        #[trigger] v.vault.contains_key(key) ==> tracks_key(v.entities, key)
}

/// The slots a newly registered entity adopts: vaulted where the regime is
/// parked, live with the spawn payload where it is active.
pub open spec fn adopted_comps<P>(
    regime: Map<(ArchetypeKind, ComponentKind), bool>,
    archetype: ArchetypeKind,
    payloads: Map<ComponentKind, P>,
) -> Map<ComponentKind, Slot<P>> {
    Map::new(
        |k: ComponentKind| spec_permits(archetype, k),
        |k: ComponentKind|
            if regime[(archetype, k)] {
                Slot::Vaulted
            } else {
                Slot::Live(payloads[k])
            },
    )
}

/// The vault entries a newly registered entity contributes: one per
/// applicable kind whose regime is parked.
pub open spec fn adopted_vault<P>(
    regime: Map<(ArchetypeKind, ComponentKind), bool>,
    entity: u64,
    archetype: ArchetypeKind,
    payloads: Map<ComponentKind, P>,
) -> Map<(u64, ComponentKind), P> {
    Map::new(
        |key: (u64, ComponentKind)|
            key.0 == entity && spec_permits(archetype, key.1) && regime[(archetype, key.1)],
        |key: (u64, ComponentKind)| payloads[key.1],
    )
}

/// When an index with unique identities has a record for an entity at some
/// position, that position is where `find_entity` points.
pub proof fn lemma_find_entity_at<P>(s: Seq<RecView<P>>, entity: u64, i: int)
    requires
        0 <= i < s.len(),
        s[i].entity == entity,
        forall|m: int, j: int|
            0 <= m < j < s.len() ==> (#[trigger] s[m]).entity != (#[trigger] s[j]).entity,
    ensures
        has_entity(s, entity),
        find_entity(s, entity) == i,
{
    assert(has_entity(s, entity));
    lemma_find_entity(s, entity);
    let f = find_entity(s, entity);
    if f < i {
        assert(s[f].entity != s[i].entity);
    } else if f > i {
        assert(s[i].entity != entity);
    }
}

/// The slot one tracked entity holds for a kind, looked up by identity.
pub open spec fn spec_slot_of<P>(s: Seq<RecView<P>>, entity: u64, kind: ComponentKind) -> Slot<
    P,
> {
    s[find_entity(s, entity)].comps[kind]
}

/// Whether some tracked record of this archetype carries this identity.
pub open spec fn has_archetype_entity<P>(
    s: Seq<RecView<P>>,
    archetype: ArchetypeKind,
    entity: u64,
) -> bool {
    exists|i: int|
        0 <= i < s.len() && (#[trigger] s[i]).entity == entity && s[i].archetype == archetype
}

/// One record after a toggle of `kind`: a live slot is vaulted; a vaulted
/// slot comes back live with the payload the vault preserved for it.
pub open spec fn rec_flip<P>(
    r: RecView<P>,
    kind: ComponentKind,
    vault: Map<(u64, ComponentKind), P>,
) -> RecView<P> {
    (RecView {
        comps: r.comps.insert(
            kind,
            match r.comps[kind] {
                Slot::Live(_) => Slot::Vaulted,
                Slot::Vaulted => Slot::Live(vault[(r.entity, kind)]),
            },
        ),
        ..r
    })
}

/// Every record of the archetype flipped at `kind`; all others unchanged.
pub open spec fn toggled_entities<P>(
    s: Seq<RecView<P>>,
    archetype: ArchetypeKind,
    kind: ComponentKind,
    vault: Map<(u64, ComponentKind), P>,
) -> Seq<RecView<P>> {
    Seq::new(
        s.len(),
        |i: int|
            if s[i].archetype == archetype {
                rec_flip(s[i], kind, vault)
            } else {
                s[i]
            },
    )
}

/// The vault after a toggle: for each entity of the archetype, the `kind`
/// key is present with the captured payload exactly when the slot was live;
/// every other key is untouched.
pub open spec fn toggled_vault<P>(
    vault: Map<(u64, ComponentKind), P>,
    s: Seq<RecView<P>>,
    archetype: ArchetypeKind,
    kind: ComponentKind,
) -> Map<(u64, ComponentKind), P> {
    Map::new(
        |key: (u64, ComponentKind)|
            if key.1 == kind && has_archetype_entity(s, archetype, key.0) {
                spec_slot_of(s, key.0, kind) is Live
            } else {
                vault.contains_key(key)
            },
        |key: (u64, ComponentKind)|
            if key.1 == kind && has_archetype_entity(s, archetype, key.0) {
                match spec_slot_of(s, key.0, kind) {
                    Slot::Live(p) => p,
                    Slot::Vaulted => vault[key],
                }
            } else {
                vault[key]
            },
    )
}

/// The whole state after one permitted toggle: the regime bit flips, and
/// every tracked entity of the archetype flips its slot for the kind, the
/// payload moving into or out of the vault unchanged.
pub open spec fn toggle_spec<P>(
    v: EngineView<P>,
    archetype: ArchetypeKind,
    kind: ComponentKind,
) -> EngineView<P> {
    EngineView {
        entities: toggled_entities(v.entities, archetype, kind, v.vault),
        regime: v.regime.insert((archetype, kind), !v.regime[(archetype, kind)]),
        vault: toggled_vault(v.vault, v.entities, archetype, kind),
    }
}

/// A permitted toggle preserves the cross-component invariant.
pub proof fn lemma_toggle_preserves_inv<P>(
    v: EngineView<P>,
    archetype: ArchetypeKind,
    kind: ComponentKind,
)
    requires
        inv(v),
        spec_permits(archetype, kind),
    ensures
        inv(toggle_spec(v, archetype, kind)),
{
    let s = v.entities;
    let v1 = toggle_spec(v, archetype, kind);
    let s1 = v1.entities;
    assert forall|i: int|
        0 <= i < s.len() implies (#[trigger] s1[i]).entity == s[i].entity && s1[i].archetype
        == s[i].archetype && s1[i].comps.dom() == permitted_set(s1[i].archetype) by {
        assert(s[i].comps.dom() == permitted_set(s[i].archetype));
        if s[i].archetype == archetype {
            assert(permitted_set(archetype).contains(kind));
            assert(s1[i].comps.dom() =~= s[i].comps.dom());
        }
    }
    assert forall|i: int, k: ComponentKind|
        0 <= i < s1.len() && (#[trigger] s1[i].comps.contains_key(k)) implies ((s1[i].comps[
        k] is Vaulted) == v1.vault.contains_key((s1[i].entity, k))) && ((s1[i].comps[
        k] is Vaulted) == v1.regime[(s1[i].archetype, k)]) by {
        let e = s[i].entity;
        assert(s[i].comps.dom() == permitted_set(s[i].archetype));
        assert(s[i].comps.contains_key(k));
        if s[i].archetype == archetype {
            if k == kind {
                lemma_find_entity_at(s, e, i);
                assert(has_archetype_entity(s, archetype, e));
                assert(spec_slot_of(s, e, kind) == s[i].comps[kind]);
                assert(s1[i].comps[k] == rec_flip(s[i], kind, v.vault).comps[k]);
            } else {
                assert(s1[i].comps[k] == s[i].comps[k]);
                assert(!(v1.vault.contains_key((e, k)) != v.vault.contains_key((e, k))));
                assert(v1.regime[(archetype, k)] == v.regime[(archetype, k)]);
            }
        } else {
            assert(s1[i] == s[i]);
            if k == kind && has_archetype_entity(s, archetype, e) {
                let m = choose|m: int|
                    0 <= m < s.len() && (#[trigger] s[m]).entity == e && s[m].archetype
                        == archetype;
                assert(m != i);
                assert(s[m].entity != s[i].entity || m == i);
                assert(false);
            }
            assert(v1.vault.contains_key((e, k)) == v.vault.contains_key((e, k)));
            assert(v1.regime[(s[i].archetype, k)] == v.regime[(s[i].archetype, k)]);
        }
    }
    assert forall|key: (u64, ComponentKind)|
        #[trigger] v1.vault.contains_key(key) implies tracks_key(s1, key) by {
        if key.1 == kind && has_archetype_entity(s, archetype, key.0) {
            let m = choose|m: int|
                0 <= m < s.len() && (#[trigger] s[m]).entity == key.0 && s[m].archetype
                    == archetype;
            assert(s[m].comps.dom() == permitted_set(archetype));
            assert(permitted_set(archetype).contains(kind));
            assert(s1[m].entity == key.0);
            assert(s1[m].comps.contains_key(key.1));
        } else {
            assert(v.vault.contains_key(key));
            assert(tracks_key(s, key));
            let m = choose|m: int|
                0 <= m < s.len() && (#[trigger] s[m]).entity == key.0 && s[m].comps.contains_key(
                    key.1,
                );
            assert(s1[m].entity == key.0);
            assert(s1[m].comps.dom() == s[m].comps.dom() || s1[m] == s[m]) by {
                if s[m].archetype == archetype {
                    assert(s[m].comps.dom() == permitted_set(archetype));
                    assert(permitted_set(archetype).contains(kind));
                    assert(s1[m].comps.dom() =~= s[m].comps.dom());
                }
            }
            assert(s1[m].comps.contains_key(key.1));
        }
    }
}

/// Idempotent pair: toggling the same (archetype, kind) twice in succession
/// returns every entity's slot assignment and the vault's contents to their
/// pre-toggle values, exactly, payloads included.
pub proof fn lemma_toggle_twice_identity<P>(
    v: EngineView<P>,
    archetype: ArchetypeKind,
    kind: ComponentKind,
)
    requires
        inv(v),
        spec_permits(archetype, kind),
    ensures
        toggle_spec(toggle_spec(v, archetype, kind), archetype, kind) == v,
{
    let s = v.entities;
    let v1 = toggle_spec(v, archetype, kind);
    let s1 = v1.entities;
    let v2 = toggle_spec(v1, archetype, kind);
    lemma_toggle_preserves_inv(v, archetype, kind);
    assert(v2.regime =~= v.regime);
    assert forall|i: int| 0 <= i < s.len() implies #[trigger] v2.entities[i] == s[i] by {
        assert(s1[i].entity == s[i].entity && s1[i].archetype == s[i].archetype);
        if s[i].archetype == archetype {
            let e = s[i].entity;
            lemma_find_entity_at(s, e, i);
            assert(s[i].comps.dom() == permitted_set(archetype));
            assert(permitted_set(archetype).contains(kind));
            assert(s1[i] == rec_flip(s[i], kind, v.vault));
            assert(v2.entities[i] == rec_flip(s1[i], kind, v1.vault));
            assert(has_archetype_entity(s, archetype, e));
            match s[i].comps[kind] {
                Slot::Live(p) => {
                    assert(spec_slot_of(s, e, kind) == Slot::Live(p));
                    assert(v1.vault.contains_key((e, kind)));
                    assert(v1.vault[(e, kind)] == p);
                    assert(s1[i].comps[kind] == Slot::<P>::Vaulted);
                    assert(v2.entities[i].comps =~= s[i].comps);
                    assert(v2.entities[i] =~= s[i]);
                },
                Slot::Vaulted => {
                    assert(s1[i].comps[kind] == Slot::Live(v.vault[(e, kind)]));
                    assert(v2.entities[i].comps =~= s[i].comps);
                    assert(v2.entities[i] =~= s[i]);
                },
            }
        } else {
            assert(s1[i] == s[i]);
            assert(v2.entities[i] == s1[i]);
        }
    }
    assert(v2.entities =~= s);
    assert_maps_equal!(v2.vault, v.vault, key => {
        if key.1 == kind && has_archetype_entity(s, archetype, key.0) {
            let m = choose|m: int|
                0 <= m < s.len() && (#[trigger] s[m]).entity == key.0 && s[m].archetype
                    == archetype;
            lemma_find_entity_at(s, key.0, m);
            assert(s1[m].entity == key.0 && s1[m].archetype == archetype);
            assert forall|m2: int, j2: int|
                0 <= m2 < j2 < s1.len() implies (#[trigger] s1[m2]).entity != (
            #[trigger] s1[j2]).entity by {
                assert(s1[m2].entity == s[m2].entity && s1[j2].entity == s[j2].entity);
            }
            lemma_find_entity_at(s1, key.0, m);
            assert(has_archetype_entity(s1, archetype, key.0));
            assert(key == (key.0, kind));
            assert(s[m].comps.dom() == permitted_set(archetype));
            assert(permitted_set(archetype).contains(kind));
            assert(s1[m] == rec_flip(s[m], kind, v.vault));
            match s[m].comps[kind] {
                Slot::Live(p) => {
                    assert(s1[m].comps[kind] == Slot::<P>::Vaulted);
                    assert(spec_slot_of(s1, key.0, kind) == Slot::<P>::Vaulted);
                    assert(!v2.vault.contains_key(key));
                    assert(!v.vault.contains_key(key));
                },
                Slot::Vaulted => {
                    assert(v.vault.contains_key((key.0, kind)));
                    assert(s1[m].comps[kind] == Slot::Live(v.vault[(key.0, kind)]));
                    assert(spec_slot_of(s1, key.0, kind) == Slot::Live(v.vault[(key.0, kind)]));
                    assert(v2.vault.contains_key(key));
                    assert(v2.vault[key] == v.vault[key]);
                },
            }
        } else {
            if key.1 == kind {
                if has_archetype_entity(s1, archetype, key.0) {
                    let m = choose|m: int|
                        0 <= m < s1.len() && (#[trigger] s1[m]).entity == key.0 && s1[m].archetype
                            == archetype;
                    assert(s[m].entity == key.0 && s[m].archetype == archetype);
                    assert(has_archetype_entity(s, archetype, key.0));
                    assert(false);
                }
            }
            assert(v2.vault.contains_key(key) == v1.vault.contains_key(key));
            assert(v1.vault.contains_key(key) == v.vault.contains_key(key));
            if v.vault.contains_key(key) {
                assert(v1.vault[key] == v.vault[key]);
                assert(v2.vault[key] == v1.vault[key]);
            }
        }
    });
    assert(v2 =~= v);
}

/// During a toggle fan-out, whether this vault key belongs to an
/// archetype-matching record among the first `upto` records.
spec fn processed<P>(
    s: Seq<RecView<P>>,
    upto: int,
    archetype: ArchetypeKind,
    kind: ComponentKind,
    key: (u64, ComponentKind),
) -> bool {
    key.1 == kind && exists|m: int|
        0 <= m < upto && (#[trigger] s[m]).entity == key.0 && s[m].archetype == archetype
}

/// The toggle controller. All payload movement between live slots and the
/// vault goes through `toggle`, `register` and `unregister`.
pub struct ToggleController<P> {
    index: EntityIndex<P>,
    vault: ComponentVault<P>,
    regime: AggregateTable,
}

impl<P> View for ToggleController<P> {
    type V = EngineView<P>;

    closed spec fn view(&self) -> EngineView<P> {
        EngineView { entities: self.index@, regime: self.regime@, vault: self.vault@ }
    }
}

impl<P: Copy> ToggleController<P> {
    /// The controller's well-formedness: each part's own invariant, plus the
    /// cross-component invariant on the abstract state.
    pub closed spec fn wf(&self) -> bool {
        &&& self.index.wf()
        &&& self.vault.wf()
        &&& self.regime.wf()
        &&& inv(self@)
    }

    /// Well-formedness implies the public invariant of the view.
    pub proof fn lemma_wf_inv(&self)
        requires
            self.wf(),
        ensures
            inv(self@),
    {
    }

    /// A fresh controller: nothing tracked, nothing parked, every permitted
    /// pair in the active regime.
    pub fn new() -> (c: Self)
        ensures
            c.wf(),
            c@.entities == Seq::<RecView<P>>::empty(),
            c@.vault == Map::<(u64, ComponentKind), P>::empty(),
            forall|pair: (ArchetypeKind, ComponentKind)|
                spec_permits(pair.0, pair.1) ==> !(#[trigger] c@.regime[pair]),
    {
        let c = ToggleController {
            index: EntityIndex::new(),
            vault: ComponentVault::new(),
            regime: AggregateTable::new(),
        };
        proof {
            c.regime.lemma_dom();
        }
        c
    }

    /// Whether the (archetype, kind) group is currently in the parked
    /// regime; drives the button color.
    pub fn aggregate_parked(&self, archetype: ArchetypeKind, kind: ComponentKind) -> (r: bool)
        requires
            spec_permits(archetype, kind),
        ensures
            r == self@.regime[(archetype, kind)],
    {
        self.regime.get(archetype, kind)
    }

    /// How many vault entries an entity owns; zero exactly when the vault
    /// holds nothing for it.
    pub fn parked_count_for(&self, entity: u64) -> (n: usize)
        requires
            self.wf(),
        ensures
            (n == 0) <==> (forall|k: ComponentKind| !self@.vault.contains_key((entity, k))),
    {
        let n = self.vault.entry_count_for(entity);
        proof {
            if n == 0 {
                assert forall|k: ComponentKind| !self@.vault.contains_key((entity, k)) by {
                    assert(!self.vault@.contains_key((entity, k)));
                }
            } else {
                if forall|k: ComponentKind| !self@.vault.contains_key((entity, k)) {
                    assert forall|k: ComponentKind| !self.vault@.contains_key((entity, k)) by {
                        assert(!self@.vault.contains_key((entity, k)));
                    }
                    assert(false);
                }
            }
        }
        n
    }

    /// The identities of all tracked entities of an archetype, in
    /// registration order.
    pub fn entities_of(&self, archetype: ArchetypeKind) -> (r: Vec<u64>)
        ensures
            r@ == spec_entities_of(self@.entities, archetype),
    {
        self.index.entities_of(archetype)
    }

    /// The toggle state of one component of one tracked entity. Fails with
    /// `UnknownEntity` exactly when the entity is untracked, and with
    /// `NotApplicable` exactly when it is tracked but its archetype does not
    /// permit the kind; otherwise reports the slot, with the payload read
    /// from the slot itself when live and from the vault when parked.
    pub fn state_of(&self, entity: u64, kind: ComponentKind) -> (r: Result<
        ToggleState<P>,
        StateError,
    >)
        requires
            self.wf(),
        ensures
            ({
                let s = self@;
                let fi = find_entity(s.entities, entity);
                &&& (r == Err::<ToggleState<P>, StateError>(StateError::UnknownEntity)
                    <==> !has_entity(s.entities, entity))
                &&& (r == Err::<ToggleState<P>, StateError>(StateError::NotApplicable)
                    <==> has_entity(s.entities, entity) && !spec_permits(
                    s.entities[fi].archetype,
                    kind,
                ))
                &&& (has_entity(s.entities, entity) && spec_permits(
                    s.entities[fi].archetype,
                    kind,
                ) ==> r == Ok::<ToggleState<P>, StateError>(
                    match s.entities[fi].comps[kind] {
                        Slot::Live(p) => ToggleState::Active(p),
                        Slot::Vaulted => ToggleState::Parked(s.vault[(entity, kind)]),
                    },
                ))
            }),
    {
        proof {
            lemma_find_entity(self@.entities, entity);
        }
        match self.index.find(entity) {
            None => Err(StateError::UnknownEntity),
            Some(i) => {
                let archetype = self.index.archetype_at(i);
                if !permits(archetype, kind) {
                    Err(StateError::NotApplicable)
                } else {
                    proof {
                        assert(self@.entities[i as int].comps.dom() == permitted_set(archetype));
                        assert(permitted_set(archetype).contains(kind));
                    }
                    match self.index.slot_at(i, kind) {
                        Slot::Live(p) => Ok(ToggleState::Active(p)),
                        Slot::Vaulted => {
                            proof {
                                assert(self@.entities[i as int].entity == entity);
                                assert(self@.vault.contains_key((entity, kind)));
                            }
                            match self.vault.get(entity, kind) {
                                Some(p) => Ok(ToggleState::Parked(p)),
                                None => {
                                    proof {
                                        assert(false);
                                    }
                                    vstd::pervasive::unreached()
                                },
                            }
                        },
                    }
                }
            },
        }
    }
    /// Begins tracking a freshly spawned entity. The caller hands one spawn
    /// payload per kind the archetype permits, in the canonical order. Each
    /// applicable component adopts the regime currently in force for its
    /// (archetype, kind) pair: where the regime is parked the payload goes
    /// straight into the vault and the slot is vaulted, with no live
    /// component; elsewhere the slot holds the payload live.
    #[verifier::loop_isolation(false)]
    pub fn register(&mut self, entity: u64, archetype: ArchetypeKind, payloads: Vec<(
        ComponentKind,
        P,
    )>)
        requires
            old(self).wf(),
            !has_entity(old(self)@.entities, entity),
            payloads@.len() == spec_permitted_kinds(archetype).len(),
            forall|j: int|
                0 <= j < payloads@.len() ==> (#[trigger] payloads@[j]).0 == spec_permitted_kinds(
                    archetype,
                )[j],
        ensures
            final(self).wf(),
            final(self)@.regime == old(self)@.regime,
            final(self)@.entities == old(self)@.entities.push(
                (RecView {
                    entity,
                    archetype,
                    comps: adopted_comps(old(self)@.regime, archetype, assoc_map(payloads@)),
                }),
            ),
            final(self)@.vault == old(self)@.vault.union_prefer_right(
                adopted_vault(old(self)@.regime, entity, archetype, assoc_map(payloads@)),
            ),
    {
        let ghost v0 = self@;
        let ghost pk = spec_permitted_kinds(archetype);
        proof {
            lemma_permitted_kinds_agree(archetype);
            assert forall|i: int, j: int|
                0 <= i < j < payloads@.len() implies (#[trigger] payloads@[i]).0 != (
            #[trigger] payloads@[j]).0 by {
                assert(pk[i] != pk[j]);
            }
            lemma_assoc_map_dom(payloads@);
            assert forall|k: ComponentKind| !v0.vault.contains_key((entity, k)) by {
                if v0.vault.contains_key((entity, k)) {
                    assert(tracks_key(v0.entities, (entity, k)));
                    let i = choose|i: int|
                        0 <= i < v0.entities.len() && (#[trigger] v0.entities[i]).entity == (
                        entity,
                        k,
                        ).0 && v0.entities[i].comps.contains_key((entity, k).1);
                    assert(has_entity(v0.entities, entity));
                }
            }
        }
        proof {
            assert forall|k: ComponentKind| !(#[trigger] self.vault@.contains_key((entity, k))) by {
                assert(!v0.vault.contains_key((entity, k)));
            }
        }
        let n = payloads.len();
        let mut slots: Vec<(ComponentKind, Slot<P>)> = Vec::new();
        let mut j: usize = 0;
        while j < n
            invariant
                j <= n,
                self.index == old(self).index,
                self.regime == old(self).regime,
                self.vault.wf(),
                slots@.len() == j as int,
                forall|m: int| 0 <= m < j ==> (#[trigger] slots@[m]).0 == payloads@[m].0,
                forall|m: int|
                    0 <= m < j ==> (#[trigger] slots@[m]).1 == (if v0.regime[
                        (archetype, payloads@[m].0)
                    ] {
                        Slot::<P>::Vaulted
                    } else {
                        Slot::Live(payloads@[m].1)
                    }),
                forall|key: (u64, ComponentKind)|
                    key.0 != entity ==> (#[trigger] self.vault@.contains_key(key))
                        == v0.vault.contains_key(key),
                forall|key: (u64, ComponentKind)|
                    key.0 != entity && v0.vault.contains_key(key) ==> (
                    #[trigger] self.vault@[key]) == v0.vault[key],
                forall|m: int|
                    0 <= m < j && v0.regime[(archetype, (#[trigger] payloads@[m]).0)]
                        ==> self.vault@.contains_key((entity, payloads@[m].0)) && self.vault@[
                        (entity, payloads@[m].0)
                    ] == payloads@[m].1,
                forall|m: int|
                    0 <= m < j && !v0.regime[(archetype, (#[trigger] payloads@[m]).0)]
                        ==> !self.vault@.contains_key((entity, payloads@[m].0)),
                forall|k: ComponentKind|
                    (forall|m: int| 0 <= m < j ==> (#[trigger] payloads@[m]).0 != k) ==> !(
                    #[trigger] self.vault@.contains_key((entity, k))),
            decreases n - j,
        {
            let pair = payloads[j];
            let k = pair.0;
            let p = pair.1;
            proof {
                assert(pk[j as int] == k);
                assert(spec_permits(archetype, k));
            }
            let parked = self.regime.get(archetype, k);
            if parked {
                proof {
                    assert forall|m: int| 0 <= m < j implies (#[trigger] payloads@[m]).0 != k by {
                        assert(payloads@[m].0 != payloads@[j as int].0);
                    }
                    assert(!self.vault@.contains_key((entity, k)));
                }
                let res = self.vault.park(entity, k, p);
                match res {
                    Ok(_) => {},
                    Err(_) => {
                        proof {
                            assert(false);
                        }
                    },
                }
                slots.push((k, Slot::Vaulted));
            } else {
                slots.push((k, Slot::Live(p)));
            }
            j += 1;
        }
        proof {
            assert forall|m: int|
                0 <= m < slots@.len() implies (#[trigger] slots@[m]).0 == pk[m] by {
                assert(slots@[m].0 == payloads@[m].0);
            }
            assert forall|i2: int, j2: int|
                0 <= i2 < j2 < slots@.len() implies (#[trigger] slots@[i2]).0 != (
            #[trigger] slots@[j2]).0 by {
                assert(pk[i2] != pk[j2]);
            }
        }
        self.index.register(entity, archetype, slots);
        proof {
            let pm = assoc_map(payloads@);
            let target = adopted_comps(v0.regime, archetype, pm);
            lemma_assoc_map_dom(slots@);
            assert forall|k: ComponentKind|
                assoc_map(slots@).contains_key(k) == target.contains_key(k) by {
                if assoc_map(slots@).contains_key(k) {
                    let m = choose|m: int| 0 <= m < slots@.len() && (#[trigger] slots@[m]).0 == k;
                    assert(pk[m] == k);
                    assert(spec_permits(archetype, k));
                } else if spec_permits(archetype, k) {
                    assert(pk.contains(k));
                    let m = choose|m: int| 0 <= m < pk.len() && pk[m] == k;
                    assert(slots@[m].0 == k);
                    assert(false);
                }
            }
            assert forall|k: ComponentKind|
                target.contains_key(k) implies assoc_map(slots@)[k] == target[k] by {
                assert(pk.contains(k));
                let m = choose|m: int| 0 <= m < pk.len() && pk[m] == k;
                assert(slots@[m].0 == k);
                lemma_assoc_map_value(slots@, m);
                lemma_assoc_map_value(payloads@, m);
                assert(pm[k] == payloads@[m].1);
            }
            assert(assoc_map(slots@) =~= target);
            assert(self@.entities == v0.entities.push(
                (RecView { entity, archetype, comps: target }),
            ));
            let av = adopted_vault(v0.regime, entity, archetype, pm);
            let vtarget = v0.vault.union_prefer_right(av);
            assert_maps_equal!(self.vault@, vtarget, key => {
                if key.0 != entity {
                    assert(!av.contains_key(key));
                    assert(self.vault@.contains_key(key) == v0.vault.contains_key(key));
                } else {
                    if exists|m: int| 0 <= m < n && (#[trigger] payloads@[m]).0 == key.1 {
                        let m = choose|m: int| 0 <= m < n && (#[trigger] payloads@[m]).0 == key.1;
                        assert(pk[m] == key.1);
                        assert(spec_permits(archetype, key.1));
                        lemma_assoc_map_value(payloads@, m);
                        assert(pm[key.1] == payloads@[m].1);
                        assert(key == (entity, payloads@[m].0));
                        assert(!v0.vault.contains_key(key));
                    } else {
                        assert forall|m: int|
                            0 <= m < n implies (#[trigger] payloads@[m]).0 != key.1 by {}
                        assert(!self.vault@.contains_key((entity, key.1)));
                        assert(key == (entity, key.1));
                        if spec_permits(archetype, key.1) {
                            assert(pk.contains(key.1));
                            let m = choose|m: int| 0 <= m < pk.len() && pk[m] == key.1;
                            assert(payloads@[m].0 == key.1);
                            assert(false);
                        }
                        assert(!av.contains_key(key));
                        assert(!v0.vault.contains_key(key));
                    }
                }
            });
            self.reestablish_inv_register(v0, entity, archetype, pm);
        }
    }

    /// The invariant survives registration with regime adoption.
    proof fn reestablish_inv_register(
        &self,
        v0: EngineView<P>,
        entity: u64,
        archetype: ArchetypeKind,
        pm: Map<ComponentKind, P>,
    )
        requires
            inv(v0),
            !has_entity(v0.entities, entity),
            self@.regime == v0.regime,
            self@.entities == v0.entities.push(
                (RecView { entity, archetype, comps: adopted_comps(v0.regime, archetype, pm) }),
            ),
            self@.vault == v0.vault.union_prefer_right(
                adopted_vault(v0.regime, entity, archetype, pm),
            ),
            view_wf(self@.entities),
        ensures
            inv(self@),
    {
        let s = self@;
        let newlen = s.entities.len();
        let target = adopted_comps(v0.regime, archetype, pm);
        let av = adopted_vault(v0.regime, entity, archetype, pm);
        assert forall|i: int|
            0 <= i < newlen - 1 implies #[trigger] s.entities[i] == v0.entities[i]
                && s.entities[i].entity != entity by {
            assert(v0.entities[i].entity != entity);
        }
        assert forall|i: int, k: ComponentKind|
            0 <= i < newlen && (#[trigger] s.entities[i].comps.contains_key(k)) implies ((
        s.entities[i].comps[k] is Vaulted) == s.vault.contains_key((s.entities[i].entity, k)))
            && ((s.entities[i].comps[k] is Vaulted) == s.regime[(s.entities[i].archetype, k)]) by {
            if i < newlen - 1 {
                assert(s.entities[i] == v0.entities[i]);
                assert(!av.contains_key((s.entities[i].entity, k)));
                assert(s.vault.contains_key((s.entities[i].entity, k)) == v0.vault.contains_key(
                    (s.entities[i].entity, k),
                ));
            } else {
                assert(s.entities[i].comps == target);
                assert(spec_permits(archetype, k));
                if s.entities[i].comps[k] is Vaulted {
                    assert(v0.regime[(archetype, k)]);
                    assert(av.contains_key((entity, k)));
                } else {
                    assert(!v0.regime[(archetype, k)]);
                    assert(!av.contains_key((entity, k)));
                    assert(!v0.vault.contains_key((entity, k))) by {
                        if v0.vault.contains_key((entity, k)) {
                            assert(tracks_key(v0.entities, (entity, k)));
                            let m = choose|m: int|
                                0 <= m < v0.entities.len() && (#[trigger] v0.entities[m]).entity
                                    == entity && v0.entities[m].comps.contains_key(k);
                            assert(has_entity(v0.entities, entity));
                        }
                    }
                }
            }
        }
        assert forall|key: (u64, ComponentKind)|
            #[trigger] s.vault.contains_key(key) implies tracks_key(s.entities, key) by {
            if av.contains_key(key) {
                assert(s.entities[newlen - 1].entity == key.0);
                assert(s.entities[newlen - 1].comps.contains_key(key.1));
            } else {
                assert(v0.vault.contains_key(key));
                assert(tracks_key(v0.entities, key));
                let m = choose|m: int|
                    0 <= m < v0.entities.len() && (#[trigger] v0.entities[m]).entity == key.0
                        && v0.entities[m].comps.contains_key(key.1);
                assert(s.entities[m] == v0.entities[m]);
            }
        }
    }

    /// Applies a toggle request for (archetype, kind). A pair outside the
    /// applicability matrix is rejected with `InvalidToggle` and nothing —
    /// no slot, no vault entry, no table entry — changes. Otherwise the
    /// aggregate regime flips and every tracked entity of the archetype
    /// follows it: a live component is detached and its payload parked in
    /// the vault; a parked one is restored with its preserved payload and
    /// reattached.
    #[verifier::loop_isolation(false)]
    pub fn toggle(&mut self, archetype: ArchetypeKind, kind: ComponentKind) -> (r: Result<
        (),
        ToggleError,
    >)
        requires
            old(self).wf(),
        ensures
            final(self).wf(),
            !spec_permits(archetype, kind) ==> r == Err::<(), ToggleError>(
                ToggleError::InvalidToggle,
            ) && *final(self) == *old(self),
            spec_permits(archetype, kind) ==> r == Ok::<(), ToggleError>(()) && final(self)@
                == toggle_spec(old(self)@, archetype, kind),
    {
        if !permits(archetype, kind) {
            return Err(ToggleError::InvalidToggle);
        }
        let ghost v0 = self@;
        proof {
            lemma_toggle_preserves_inv(v0, archetype, kind);
        }
        self.regime.flip(archetype, kind);
        let n = self.index.len();
        let mut i: usize = 0;
        while i < n
            invariant
                i <= n,
                self.index.wf(),
                self.vault.wf(),
                self.regime.wf(),
                self.index@.len() == n,
                self.regime@ == v0.regime.insert((archetype, kind), !v0.regime[(archetype, kind)]),
                forall|m: int| i <= m < n ==> #[trigger] self.index@[m] == v0.entities[m],
                forall|m: int|
                    0 <= m < i ==> #[trigger] self.index@[m] == (if v0.entities[m].archetype
                        == archetype {
                        rec_flip(v0.entities[m], kind, v0.vault)
                    } else {
                        v0.entities[m]
                    }),
                forall|key: (u64, ComponentKind)|
                    !processed(v0.entities, i as int, archetype, kind, key) ==> (
                    #[trigger] self.vault@.contains_key(key)) == v0.vault.contains_key(key),
                forall|key: (u64, ComponentKind)|
                    !processed(v0.entities, i as int, archetype, kind, key)
                        && v0.vault.contains_key(key) ==> (#[trigger] self.vault@[key])
                        == v0.vault[key],
                forall|m: int|
                    0 <= m < i && (#[trigger] v0.entities[m]).archetype == archetype ==> match v0
                        .entities[m].comps[kind] {
                        Slot::Live(p) => self.vault@.contains_key((v0.entities[m].entity, kind))
                            && self.vault@[(v0.entities[m].entity, kind)] == p,
                        Slot::Vaulted => !self.vault@.contains_key((v0.entities[m].entity, kind)),
                    },
            decreases n - i,
        {
            let ghost prev_vault = self.vault@;
            let a_i = self.index.archetype_at(i);
            if a_i == archetype {
                let e = self.index.entity_at(i);
                proof {
                    assert(self.index@[i as int] == v0.entities[i as int]);
                    assert(v0.entities[i as int].comps.dom() == permitted_set(archetype));
                    assert(permitted_set(archetype).contains(kind));
                    assert(!processed(v0.entities, i as int, archetype, kind, (e, kind))) by {
                        if processed(v0.entities, i as int, archetype, kind, (e, kind)) {
                            let m = choose|m: int|
                                0 <= m < i && (#[trigger] v0.entities[m]).entity == e && v0
                                    .entities[m].archetype == archetype;
                            assert(v0.entities[m].entity != v0.entities[i as int].entity);
                        }
                    }
                }
                match self.index.slot_at(i, kind) {
                    Slot::Live(p) => {
                        let _prev = self.index.set_slot(i, kind, Slot::Vaulted);
                        proof {
                            assert(!v0.vault.contains_key((e, kind)));
                            assert(!self.vault@.contains_key((e, kind)));
                        }
                        let res = self.vault.park(e, kind, p);
                        match res {
                            Ok(_) => {},
                            Err(_) => {
                                proof {
                                    assert(false);
                                }
                            },
                        }
                    },
                    Slot::Vaulted => {
                        proof {
                            assert(v0.vault.contains_key((e, kind)));
                            assert(self.vault@.contains_key((e, kind)));
                            assert(self.vault@[(e, kind)] == v0.vault[(e, kind)]);
                        }
                        let res = self.vault.restore(e, kind);
                        match res {
                            Ok(p) => {
                                proof {
                                    assert(p == v0.vault[(e, kind)]);
                                }
                                let _prev = self.index.set_slot(i, kind, Slot::Live(p));
                            },
                            Err(_) => {
                                proof {
                                    assert(false);
                                }
                            },
                        }
                    },
                }
                proof {
                    assert(self.index@[i as int] =~= rec_flip(
                        v0.entities[i as int],
                        kind,
                        v0.vault,
                    ));
                    assert forall|key: (u64, ComponentKind)|
                        !processed(v0.entities, i as int + 1, archetype, kind, key) implies (((
                    #[trigger] self.vault@.contains_key(key)) == v0.vault.contains_key(key)) && (
                    v0.vault.contains_key(key) ==> self.vault@[key] == v0.vault[key])) by {
                        assert(!processed(v0.entities, i as int, archetype, kind, key)) by {
                            if processed(v0.entities, i as int, archetype, kind, key) {
                                let m = choose|m: int|
                                    0 <= m < i && (#[trigger] v0.entities[m]).entity == key.0 && v0
                                        .entities[m].archetype == archetype;
                                assert(processed(
                                    v0.entities,
                                    i as int + 1,
                                    archetype,
                                    kind,
                                    key,
                                ));
                            }
                        }
                        assert(key != (e, kind)) by {
                            if key == (e, kind) {
                                assert(v0.entities[i as int].entity == key.0);
                                assert(processed(
                                    v0.entities,
                                    i as int + 1,
                                    archetype,
                                    kind,
                                    key,
                                ));
                            }
                        }
                        assert(self.vault@.contains_key(key) == prev_vault.contains_key(key));
                        if prev_vault.contains_key(key) {
                            assert(self.vault@[key] == prev_vault[key]);
                        }
                    }
                    assert forall|m: int|
                        0 <= m < i + 1 && (#[trigger] v0.entities[m]).archetype == archetype
                        implies match v0.entities[m].comps[kind] {
                        Slot::Live(p) => self.vault@.contains_key((v0.entities[m].entity, kind))
                            && self.vault@[(v0.entities[m].entity, kind)] == p,
                        Slot::Vaulted => !self.vault@.contains_key((v0.entities[m].entity, kind)),
                    } by {
                        if m < i as int {
                            assert(v0.entities[m].entity != v0.entities[i as int].entity);
                            assert((v0.entities[m].entity, kind) != (e, kind));
                        }
                    }
                }
            } else {
                proof {
                    assert forall|key: (u64, ComponentKind)|
                        !processed(v0.entities, i as int + 1, archetype, kind, key) implies (((
                    #[trigger] self.vault@.contains_key(key)) == v0.vault.contains_key(key)) && (
                    v0.vault.contains_key(key) ==> self.vault@[key] == v0.vault[key])) by {
                        assert(!processed(v0.entities, i as int, archetype, kind, key)) by {
                            if processed(v0.entities, i as int, archetype, kind, key) {
                                let m = choose|m: int|
                                    0 <= m < i && (#[trigger] v0.entities[m]).entity == key.0 && v0
                                        .entities[m].archetype == archetype;
                                assert(processed(
                                    v0.entities,
                                    i as int + 1,
                                    archetype,
                                    kind,
                                    key,
                                ));
                            }
                        }
                    }
                }
            }
            i += 1;
        }
        proof {
            let target = toggle_spec(v0, archetype, kind);
            assert forall|m: int|
                0 <= m < n implies #[trigger] self.index@[m] == target.entities[m] by {}
            assert(self.index@ =~= target.entities);
            assert_maps_equal!(self.vault@, target.vault, key => {
                if key.1 == kind && has_archetype_entity(v0.entities, archetype, key.0) {
                    let m = choose|m: int|
                        0 <= m < v0.entities.len() && (#[trigger] v0.entities[m]).entity == key.0
                            && v0.entities[m].archetype == archetype;
                    lemma_find_entity_at(v0.entities, key.0, m);
                    assert(spec_slot_of(v0.entities, key.0, kind) == v0.entities[m].comps[kind]);
                    assert(key == (key.0, kind));
                } else {
                    assert(!processed(v0.entities, n as int, archetype, kind, key)) by {
                        if processed(v0.entities, n as int, archetype, kind, key) {
                            let m = choose|m: int|
                                0 <= m < n && (#[trigger] v0.entities[m]).entity == key.0 && v0
                                    .entities[m].archetype == archetype;
                            assert(has_archetype_entity(v0.entities, archetype, key.0));
                        }
                    }
                }
            });
            assert(self@ =~= target);
        }
        Ok(())
    }

    /// Stops tracking an entity and purges every vault entry it owned, so no
    /// state is retained for a dead entity. Unknown entities are a no-op on
    /// the index; the purge still guarantees the vault holds nothing for
    /// them.
    pub fn unregister(&mut self, entity: u64)
        requires
            old(self).wf(),
        ensures
            final(self).wf(),
            final(self)@.regime == old(self)@.regime,
            has_entity(old(self)@.entities, entity) ==> final(self)@.entities == old(
                self,
            )@.entities.remove(find_entity(old(self)@.entities, entity)),
            !has_entity(old(self)@.entities, entity) ==> final(self)@.entities == old(
                self,
            )@.entities,
            final(self)@.vault == old(self)@.vault.remove_keys(entity_keys(entity)),
            forall|k: ComponentKind| !final(self)@.vault.contains_key((entity, k)),
            !has_entity(final(self)@.entities, entity),
    {
        let ghost v0 = self@;
        proof {
            lemma_find_entity(v0.entities, entity);
        }
        let found = self.index.unregister(entity);
        self.vault.purge(entity);
        proof {
            self.index.lemma_wf_view();
            self.regime.lemma_dom();
            let s = self@;
            let fi = find_entity(v0.entities, entity);
            assert forall|i: int|
                0 <= i < s.entities.len() implies #[trigger] s.entities[i] == v0.entities[
                if i < fi || !has_entity(v0.entities, entity) {
                    i
                } else {
                    i + 1
                }
            ] && s.entities[i].entity != entity by {
                if has_entity(v0.entities, entity) {
                    assert(s.entities == v0.entities.remove(fi));
                }
            }
            assert forall|i: int, k: ComponentKind|
                0 <= i < s.entities.len() && (#[trigger] s.entities[i].comps.contains_key(k))
                    implies ((s.entities[i].comps[k] is Vaulted) == s.vault.contains_key(
                (s.entities[i].entity, k),
            )) && ((s.entities[i].comps[k] is Vaulted) == s.regime[
                (s.entities[i].archetype, k)
            ]) by {
                let i0: int = if i < fi || !has_entity(v0.entities, entity) {
                    i
                } else {
                    i + 1
                };
                assert(s.entities[i] == v0.entities[i0]);
                assert(!entity_keys(entity).contains((s.entities[i].entity, k)));
                assert(s.vault.contains_key((s.entities[i].entity, k)) == v0.vault.contains_key(
                    (s.entities[i].entity, k),
                ));
            }
            assert forall|key: (u64, ComponentKind)|
                #[trigger] s.vault.contains_key(key) implies tracks_key(s.entities, key) by {
                assert(v0.vault.contains_key(key));
                assert(key.0 != entity);
                assert(tracks_key(v0.entities, key));
                let m = choose|m: int|
                    0 <= m < v0.entities.len() && (#[trigger] v0.entities[m]).entity == key.0
                        && v0.entities[m].comps.contains_key(key.1);
                if has_entity(v0.entities, entity) {
                    assert(v0.entities[fi].entity == entity);
                    assert(m != fi);
                    if m < fi {
                        assert(s.entities[m] == v0.entities[m]);
                    } else {
                        assert(s.entities[m - 1] == v0.entities[m]);
                    }
                }
            }
        }
    }
}

} // verus!
