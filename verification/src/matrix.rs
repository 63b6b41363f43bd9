//! The applicability matrix: which component kinds each archetype may carry.
//!
//! The table is fixed at startup and never mutated; every other component of
//! the engine uses it as a guard. Toggling a kind outside an archetype's
//! permitted set is rejected with no observable effect.

use vstd::prelude::*;

use crate::kinds::{ArchetypeKind, ComponentKind};

verus! {

/// The fixed applicability table:
///
/// |              | Ball | Paddle | Wall | Brick | Score |
/// |--------------|------|--------|------|-------|-------|
/// | Sprite       | Y    | Y      | Y    | Y     | Y     |
/// | Transform    | Y    | Y      | Y    | Y     | Y     |
/// | Collider     | Y    | Y      | Y    | Y     | N     |
/// | Velocity     | Y    | N      | N    | N     | N     |
/// | Controllable | N    | Y      | N    | N     | N     |
/// | Destructor   | Y    | N      | N    | N     | N     |
/// | Destructable | N    | N      | N    | Y     | N     |
pub open spec fn spec_permits(archetype: ArchetypeKind, kind: ComponentKind) -> bool {
    match kind {
        ComponentKind::Sprite => true,
        ComponentKind::Transform => true,
        ComponentKind::Collider => !(archetype is Score),
        ComponentKind::Velocity => archetype is Ball,
        ComponentKind::Controllable => archetype is Paddle,
        ComponentKind::Destructor => archetype is Ball,
        ComponentKind::Destructable => archetype is Brick,
    }
}

/// Constant-time lookup against the fixed table.
#[verifier::when_used_as_spec(spec_permits)]
pub fn permits(archetype: ArchetypeKind, kind: ComponentKind) -> (r: bool)
    ensures
        r == spec_permits(archetype, kind),
{
    match kind {
        ComponentKind::Sprite => true,
        ComponentKind::Transform => true,
        ComponentKind::Collider => !matches!(archetype, ArchetypeKind::Score),
        ComponentKind::Velocity => matches!(archetype, ArchetypeKind::Ball),
        ComponentKind::Controllable => matches!(archetype, ArchetypeKind::Paddle),
        ComponentKind::Destructor => matches!(archetype, ArchetypeKind::Ball),
        ComponentKind::Destructable => matches!(archetype, ArchetypeKind::Brick),
    }
}

/// The kinds an archetype permits, in the canonical component order.
pub open spec fn spec_permitted_kinds(archetype: ArchetypeKind) -> Seq<ComponentKind> {
    match archetype {
        ArchetypeKind::Ball => seq![
            ComponentKind::Sprite,
            ComponentKind::Transform,
            ComponentKind::Collider,
            ComponentKind::Velocity,
            ComponentKind::Destructor,
        ],
        ArchetypeKind::Paddle => seq![
            ComponentKind::Sprite,
            ComponentKind::Transform,
            ComponentKind::Collider,
            ComponentKind::Controllable,
        ],
        ArchetypeKind::Wall => seq![
            ComponentKind::Sprite,
            ComponentKind::Transform,
            ComponentKind::Collider,
        ],
        ArchetypeKind::Brick => seq![
            ComponentKind::Sprite,
            ComponentKind::Transform,
            ComponentKind::Collider,
            ComponentKind::Destructable,
        ],
        ArchetypeKind::Score => seq![ComponentKind::Sprite, ComponentKind::Transform],
    }
}

/// The permitted kinds of an archetype, as a set.
pub open spec fn permitted_set(archetype: ArchetypeKind) -> Set<ComponentKind> {
    Set::new(|k: ComponentKind| spec_permits(archetype, k))
}

/// The permitted-kind sequence lists exactly the kinds the matrix permits,
/// each once.
pub proof fn lemma_permitted_kinds_agree(archetype: ArchetypeKind)
    ensures
        forall|i: int|
            0 <= i < spec_permitted_kinds(archetype).len() ==> spec_permits(
                archetype,
                #[trigger] spec_permitted_kinds(archetype)[i],
            ),
        forall|k: ComponentKind|
            spec_permits(archetype, k) ==> spec_permitted_kinds(archetype).contains(k),
        spec_permitted_kinds(archetype).no_duplicates(),
{
    let s = spec_permitted_kinds(archetype);
    assert forall|k: ComponentKind| spec_permits(archetype, k) implies s.contains(k) by {
        match k {
            ComponentKind::Sprite => assert(s[0] == k),
            ComponentKind::Transform => assert(s[1] == k),
            ComponentKind::Collider => assert(s[2] == k),
            ComponentKind::Velocity => assert(s[3] == k),
            ComponentKind::Controllable => assert(s[3] == k),
            ComponentKind::Destructor => {
                if archetype is Ball {
                    assert(s[4] == k);
                }
            },
            ComponentKind::Destructable => {
                if archetype is Brick {
                    assert(s[3] == k);
                }
            },
        }
    }
}

/// The kinds an archetype permits, in the canonical component order.
pub fn permitted_kinds(archetype: ArchetypeKind) -> (r: Vec<ComponentKind>)
    ensures
        r@ == spec_permitted_kinds(archetype),
{
    let mut r: Vec<ComponentKind> = Vec::new();
    r.push(ComponentKind::Sprite);
    r.push(ComponentKind::Transform);
    match archetype {
        ArchetypeKind::Ball => {
            r.push(ComponentKind::Collider);
            r.push(ComponentKind::Velocity);
            r.push(ComponentKind::Destructor);
        },
        ArchetypeKind::Paddle => {
            r.push(ComponentKind::Collider);
            r.push(ComponentKind::Controllable);
        },
        ArchetypeKind::Wall => {
            r.push(ComponentKind::Collider);
        },
        ArchetypeKind::Brick => {
            r.push(ComponentKind::Collider);
            r.push(ComponentKind::Destructable);
        },
        ArchetypeKind::Score => {},
    }
    proof {
        assert(r@ =~= spec_permitted_kinds(archetype));
    }
    r
}

} // verus!
