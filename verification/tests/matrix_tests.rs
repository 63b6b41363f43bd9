use toggle_engine::kinds::ArchetypeKind;
use toggle_engine::kinds::ArchetypeKind::{Ball, Brick, Paddle, Score, Wall};
use toggle_engine::kinds::ComponentKind;
use toggle_engine::kinds::ComponentKind::{Collider, Controllable, Destructable, Destructor,
    Sprite, Transform, Velocity};
use toggle_engine::kinds::{all_archetypes, all_kinds};
use toggle_engine::matrix::{permits, permitted_kinds};

#[test]
fn applicability_table_matches_design() {
    let expected = [
        (Sprite, [true, true, true, true, true]),
        (Transform, [true, true, true, true, true]),
        (Collider, [true, true, true, true, false]),
        (Velocity, [true, false, false, false, false]),
        (Controllable, [false, true, false, false, false]),
        (Destructor, [true, false, false, false, false]),
        (Destructable, [false, false, false, true, false]),
    ];
    let archetypes = [Ball, Paddle, Wall, Brick, Score];
    for (kind, row) in expected {
        for (archetype, allowed) in archetypes.iter().zip(row) {
            assert_eq!(
                permits(*archetype, kind),
                allowed,
                "{:?}/{:?}",
                archetype,
                kind
            );
        }
    }
}

#[test]
fn permitted_kinds_per_archetype() {
    assert_eq!(
        permitted_kinds(ArchetypeKind::Ball),
        vec![Sprite, Transform, Collider, Velocity, Destructor]
    );
    assert_eq!(
        permitted_kinds(ArchetypeKind::Paddle),
        vec![Sprite, Transform, Collider, Controllable]
    );
    assert_eq!(permitted_kinds(ArchetypeKind::Wall), vec![Sprite, Transform, Collider]);
    assert_eq!(
        permitted_kinds(ArchetypeKind::Brick),
        vec![Sprite, Transform, Collider, Destructable]
    );
    assert_eq!(permitted_kinds(ArchetypeKind::Score), vec![Sprite, Transform]);
}

#[test]
fn canonical_listings() {
    assert_eq!(all_archetypes().len(), 5);
    assert_eq!(all_kinds().len(), 7);
    assert_eq!(all_archetypes()[0], ArchetypeKind::Ball);
    assert_eq!(all_kinds()[3], ComponentKind::Velocity);
}

#[test]
fn permitted_kinds_agree_with_permits() {
    for archetype in all_archetypes() {
        let listed = permitted_kinds(archetype);
        for kind in all_kinds() {
            assert_eq!(listed.contains(&kind), permits(archetype, kind));
        }
    }
}
