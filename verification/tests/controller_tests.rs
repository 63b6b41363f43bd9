use toggle_engine::controller::{StateError, ToggleController, ToggleError, ToggleState};
use toggle_engine::kinds::{ArchetypeKind, ComponentKind};
use toggle_engine::matrix::permitted_kinds;
use toggle_engine::ui::ButtonColor;

type Pay = (f32, f32);

const BALL_SPEED: f32 = 400.0;

fn velocity_payload() -> Pay {
    (0.5 * BALL_SPEED, -0.5 * BALL_SPEED)
}

/// Spawn payloads for one entity: every permitted kind gets a payload, the
/// velocity slot the given one, in the canonical order `register` expects.
fn payloads_for(archetype: ArchetypeKind, velocity: Pay) -> Vec<(ComponentKind, Pay)> {
    permitted_kinds(archetype)
        .into_iter()
        .map(|k| {
            if k == ComponentKind::Velocity {
                (k, velocity)
            } else {
                (k, (0.0, 0.0))
            }
        })
        .collect()
}

#[test]
fn ball_velocity_click_parks_then_restores_exact_payload() {
    let mut ctl: ToggleController<Pay> = ToggleController::new();
    ctl.register(1, ArchetypeKind::Ball, payloads_for(ArchetypeKind::Ball, velocity_payload()));
    assert_eq!(
        ctl.state_of(1, ComponentKind::Velocity),
        Ok(ToggleState::Active(velocity_payload()))
    );
    assert!(!ctl.aggregate_parked(ArchetypeKind::Ball, ComponentKind::Velocity));

    let first = ctl.click(ArchetypeKind::Ball, ComponentKind::Velocity);
    assert_eq!(first, Ok(ButtonColor::Engaged));
    assert_eq!(
        ctl.state_of(1, ComponentKind::Velocity),
        Ok(ToggleState::Parked(velocity_payload()))
    );
    assert!(ctl.aggregate_parked(ArchetypeKind::Ball, ComponentKind::Velocity));

    let second = ctl.click(ArchetypeKind::Ball, ComponentKind::Velocity);
    assert_eq!(second, Ok(ButtonColor::Normal));
    assert_eq!(
        ctl.state_of(1, ComponentKind::Velocity),
        Ok(ToggleState::Active(velocity_payload()))
    );
    assert!(!ctl.aggregate_parked(ArchetypeKind::Ball, ComponentKind::Velocity));
}

#[test]
fn wall_does_not_permit_velocity_and_click_changes_nothing() {
    let mut ctl: ToggleController<Pay> = ToggleController::new();
    ctl.register(3, ArchetypeKind::Wall, payloads_for(ArchetypeKind::Wall, (0.0, 0.0)));
    let r = ctl.click(ArchetypeKind::Wall, ComponentKind::Velocity);
    assert_eq!(r, Err(ToggleError::InvalidToggle));
    assert_eq!(
        ctl.state_of(3, ComponentKind::Sprite),
        Ok(ToggleState::Active((0.0, 0.0)))
    );
    assert_eq!(
        ctl.state_of(3, ComponentKind::Velocity),
        Err(StateError::NotApplicable)
    );
    assert_eq!(ctl.parked_count_for(3), 0);
    assert!(!ctl.aggregate_parked(ArchetypeKind::Wall, ComponentKind::Sprite));
}

#[test]
fn invalid_toggle_leaves_other_state_untouched() {
    let mut ctl: ToggleController<Pay> = ToggleController::new();
    ctl.register(1, ArchetypeKind::Ball, payloads_for(ArchetypeKind::Ball, velocity_payload()));
    assert_eq!(
        ctl.toggle(ArchetypeKind::Score, ComponentKind::Collider),
        Err(ToggleError::InvalidToggle)
    );
    assert_eq!(
        ctl.state_of(1, ComponentKind::Velocity),
        Ok(ToggleState::Active(velocity_payload()))
    );
    assert_eq!(ctl.parked_count_for(1), 0);
}

#[test]
fn toggle_twice_restores_every_state_and_payload() {
    let mut ctl: ToggleController<Pay> = ToggleController::new();
    ctl.register(1, ArchetypeKind::Ball, payloads_for(ArchetypeKind::Ball, (200.0, -200.0)));
    ctl.register(2, ArchetypeKind::Ball, payloads_for(ArchetypeKind::Ball, (-80.0, 40.0)));
    ctl.register(5, ArchetypeKind::Paddle, payloads_for(ArchetypeKind::Paddle, (0.0, 0.0)));

    let before_1 = ctl.state_of(1, ComponentKind::Velocity);
    let before_2 = ctl.state_of(2, ComponentKind::Velocity);
    let before_5 = ctl.state_of(5, ComponentKind::Controllable);

    assert_eq!(ctl.toggle(ArchetypeKind::Ball, ComponentKind::Velocity), Ok(()));
    assert_eq!(
        ctl.state_of(1, ComponentKind::Velocity),
        Ok(ToggleState::Parked((200.0, -200.0)))
    );
    assert_eq!(
        ctl.state_of(2, ComponentKind::Velocity),
        Ok(ToggleState::Parked((-80.0, 40.0)))
    );
    assert_eq!(ctl.state_of(5, ComponentKind::Controllable), before_5);

    assert_eq!(ctl.toggle(ArchetypeKind::Ball, ComponentKind::Velocity), Ok(()));
    assert_eq!(ctl.state_of(1, ComponentKind::Velocity), before_1);
    assert_eq!(ctl.state_of(2, ComponentKind::Velocity), before_2);
    assert_eq!(ctl.state_of(5, ComponentKind::Controllable), before_5);
    assert_eq!(ctl.parked_count_for(1), 0);
    assert_eq!(ctl.parked_count_for(2), 0);
}

#[test]
fn toggle_affects_only_the_requested_archetype_and_kind() {
    let mut ctl: ToggleController<Pay> = ToggleController::new();
    ctl.register(1, ArchetypeKind::Ball, payloads_for(ArchetypeKind::Ball, velocity_payload()));
    ctl.register(2, ArchetypeKind::Paddle, payloads_for(ArchetypeKind::Paddle, (0.0, 0.0)));
    assert_eq!(ctl.toggle(ArchetypeKind::Ball, ComponentKind::Velocity), Ok(()));
    assert_eq!(
        ctl.state_of(1, ComponentKind::Sprite),
        Ok(ToggleState::Active((0.0, 0.0)))
    );
    assert_eq!(
        ctl.state_of(2, ComponentKind::Sprite),
        Ok(ToggleState::Active((0.0, 0.0)))
    );
    assert_eq!(
        ctl.state_of(2, ComponentKind::Controllable),
        Ok(ToggleState::Active((0.0, 0.0)))
    );
    assert!(!ctl.aggregate_parked(ArchetypeKind::Ball, ComponentKind::Sprite));
}

#[test]
fn spawn_while_parked_adopts_parked_regime() {
    let mut ctl: ToggleController<Pay> = ToggleController::new();
    ctl.register(1, ArchetypeKind::Ball, payloads_for(ArchetypeKind::Ball, velocity_payload()));
    assert_eq!(ctl.toggle(ArchetypeKind::Ball, ComponentKind::Velocity), Ok(()));

    ctl.register(2, ArchetypeKind::Ball, payloads_for(ArchetypeKind::Ball, (120.0, 80.0)));
    assert_eq!(
        ctl.state_of(2, ComponentKind::Velocity),
        Ok(ToggleState::Parked((120.0, 80.0)))
    );
    assert_eq!(ctl.parked_count_for(2), 1);
    assert_eq!(
        ctl.state_of(2, ComponentKind::Sprite),
        Ok(ToggleState::Active((0.0, 0.0)))
    );

    assert_eq!(ctl.toggle(ArchetypeKind::Ball, ComponentKind::Velocity), Ok(()));
    assert_eq!(
        ctl.state_of(2, ComponentKind::Velocity),
        Ok(ToggleState::Active((120.0, 80.0)))
    );
    assert_eq!(ctl.parked_count_for(2), 0);
}

#[test]
fn despawn_with_parked_component_purges_vault() {
    let mut ctl: ToggleController<Pay> = ToggleController::new();
    ctl.register(1, ArchetypeKind::Ball, payloads_for(ArchetypeKind::Ball, velocity_payload()));
    assert_eq!(ctl.toggle(ArchetypeKind::Ball, ComponentKind::Velocity), Ok(()));
    assert_eq!(ctl.parked_count_for(1), 1);

    ctl.unregister(1);
    assert_eq!(ctl.parked_count_for(1), 0);
    assert_eq!(
        ctl.state_of(1, ComponentKind::Velocity),
        Err(StateError::UnknownEntity)
    );
    assert_eq!(ctl.entities_of(ArchetypeKind::Ball), Vec::<u64>::new());
}

#[test]
fn unregister_of_unknown_entity_is_a_no_op() {
    let mut ctl: ToggleController<Pay> = ToggleController::new();
    ctl.register(1, ArchetypeKind::Brick, payloads_for(ArchetypeKind::Brick, (0.0, 0.0)));
    ctl.unregister(42);
    assert_eq!(
        ctl.state_of(1, ComponentKind::Destructable),
        Ok(ToggleState::Active((0.0, 0.0)))
    );
    assert_eq!(ctl.entities_of(ArchetypeKind::Brick), vec![1]);
}

#[test]
fn toggle_with_no_entities_still_flips_the_regime() {
    let mut ctl: ToggleController<Pay> = ToggleController::new();
    assert_eq!(ctl.toggle(ArchetypeKind::Ball, ComponentKind::Velocity), Ok(()));
    assert!(ctl.aggregate_parked(ArchetypeKind::Ball, ComponentKind::Velocity));
    ctl.register(9, ArchetypeKind::Ball, payloads_for(ArchetypeKind::Ball, (7.0, 8.0)));
    assert_eq!(
        ctl.state_of(9, ComponentKind::Velocity),
        Ok(ToggleState::Parked((7.0, 8.0)))
    );
}

#[test]
fn entities_of_lists_archetype_members_in_registration_order() {
    let mut ctl: ToggleController<Pay> = ToggleController::new();
    ctl.register(4, ArchetypeKind::Ball, payloads_for(ArchetypeKind::Ball, (1.0, 1.0)));
    ctl.register(7, ArchetypeKind::Wall, payloads_for(ArchetypeKind::Wall, (0.0, 0.0)));
    ctl.register(2, ArchetypeKind::Ball, payloads_for(ArchetypeKind::Ball, (2.0, 2.0)));
    assert_eq!(ctl.entities_of(ArchetypeKind::Ball), vec![4, 2]);
    assert_eq!(ctl.entities_of(ArchetypeKind::Wall), vec![7]);
    assert_eq!(ctl.entities_of(ArchetypeKind::Score), Vec::<u64>::new());
    ctl.unregister(4);
    assert_eq!(ctl.entities_of(ArchetypeKind::Ball), vec![2]);
}

#[test]
fn state_of_reports_each_error_exactly() {
    let mut ctl: ToggleController<Pay> = ToggleController::new();
    assert_eq!(
        ctl.state_of(1, ComponentKind::Sprite),
        Err(StateError::UnknownEntity)
    );
    ctl.register(1, ArchetypeKind::Score, payloads_for(ArchetypeKind::Score, (0.0, 0.0)));
    assert_eq!(
        ctl.state_of(1, ComponentKind::Collider),
        Err(StateError::NotApplicable)
    );
    assert_eq!(
        ctl.state_of(1, ComponentKind::Transform),
        Ok(ToggleState::Active((0.0, 0.0)))
    );
}
