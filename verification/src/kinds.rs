//! The fixed vocabularies: entity archetypes and component kinds.

use vstd::prelude::*;

verus! {

/// A named category of game entity, fixed at spawn time.
#[derive(Clone, Copy, PartialEq, Eq, Structural, Debug)]
pub enum ArchetypeKind {
    Ball,
    Paddle,
    Wall,
    Brick,
    Score,
}

/// A named behavioral trait an entity may carry.
#[derive(Clone, Copy, PartialEq, Eq, Structural, Debug)]
pub enum ComponentKind {
    Sprite,
    Transform,
    Collider,
    Velocity,
    Controllable,
    Destructor,
    Destructable,
}

/// Every archetype, in canonical order.
pub open spec fn spec_all_archetypes() -> Seq<ArchetypeKind> {
    seq![
        ArchetypeKind::Ball,
        ArchetypeKind::Paddle,
        ArchetypeKind::Wall,
        ArchetypeKind::Brick,
        ArchetypeKind::Score,
    ]
}

/// Every component kind, in canonical order.
pub open spec fn spec_all_kinds() -> Seq<ComponentKind> {
    seq![
        ComponentKind::Sprite,
        ComponentKind::Transform,
        ComponentKind::Collider,
        ComponentKind::Velocity,
        ComponentKind::Controllable,
        ComponentKind::Destructor,
        ComponentKind::Destructable,
    ]
}

pub proof fn lemma_all_archetypes_complete(a: ArchetypeKind)
    ensures
        spec_all_archetypes().contains(a),
{
    match a {
        ArchetypeKind::Ball => assert(spec_all_archetypes()[0] == a),
        ArchetypeKind::Paddle => assert(spec_all_archetypes()[1] == a),
        ArchetypeKind::Wall => assert(spec_all_archetypes()[2] == a),
        ArchetypeKind::Brick => assert(spec_all_archetypes()[3] == a),
        ArchetypeKind::Score => assert(spec_all_archetypes()[4] == a),
    }
}

/// Every archetype, in canonical order, as a vector.
pub fn all_archetypes() -> (r: Vec<ArchetypeKind>)
    ensures
        r@ == spec_all_archetypes(),
{
    let mut r: Vec<ArchetypeKind> = Vec::new();
    r.push(ArchetypeKind::Ball);
    r.push(ArchetypeKind::Paddle);
    r.push(ArchetypeKind::Wall);
    r.push(ArchetypeKind::Brick);
    r.push(ArchetypeKind::Score);
    proof {
        assert(r@ =~= spec_all_archetypes());
    }
    r
}

/// Every component kind, in canonical order, as a vector.
pub fn all_kinds() -> (r: Vec<ComponentKind>)
    ensures
        r@ == spec_all_kinds(),
{
    let mut r: Vec<ComponentKind> = Vec::new();
    r.push(ComponentKind::Sprite);
    r.push(ComponentKind::Transform);
    r.push(ComponentKind::Collider);
    r.push(ComponentKind::Velocity);
    r.push(ComponentKind::Controllable);
    r.push(ComponentKind::Destructor);
    r.push(ComponentKind::Destructable);
    proof {
        assert(r@ =~= spec_all_kinds());
    }
    r
}

} // verus!
