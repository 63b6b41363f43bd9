use toggle_engine::kinds::ComponentKind;
use toggle_engine::vault::{ComponentVault, VaultError};

type Pay = (f32, f32);

#[test]
fn park_restore_round_trip_preserves_payload() {
    let mut vault: ComponentVault<Pay> = ComponentVault::new();
    let payload = (0.5 * 400.0, -0.5 * 400.0);
    assert_eq!(vault.park(7, ComponentKind::Velocity, payload), Ok(()));
    let restored = vault.restore(7, ComponentKind::Velocity);
    assert_eq!(restored, Ok(payload));
    assert_eq!(vault.entry_count_for(7), 0);
}

#[test]
fn double_park_is_rejected_and_keeps_first_payload() {
    let mut vault: ComponentVault<Pay> = ComponentVault::new();
    assert_eq!(vault.park(1, ComponentKind::Velocity, (1.0, 2.0)), Ok(()));
    assert_eq!(
        vault.park(1, ComponentKind::Velocity, (9.0, 9.0)),
        Err(VaultError::AlreadyParked)
    );
    assert_eq!(vault.restore(1, ComponentKind::Velocity), Ok((1.0, 2.0)));
}

#[test]
fn restore_of_absent_key_is_rejected() {
    let mut vault: ComponentVault<Pay> = ComponentVault::new();
    assert_eq!(
        vault.restore(1, ComponentKind::Velocity),
        Err(VaultError::NotParked)
    );
    assert_eq!(vault.park(1, ComponentKind::Sprite, (0.0, 0.0)), Ok(()));
    assert_eq!(
        vault.restore(1, ComponentKind::Velocity),
        Err(VaultError::NotParked)
    );
}

#[test]
fn purge_removes_all_entries_for_one_entity_only() {
    let mut vault: ComponentVault<Pay> = ComponentVault::new();
    assert_eq!(vault.park(1, ComponentKind::Velocity, (1.0, 0.0)), Ok(()));
    assert_eq!(vault.park(1, ComponentKind::Sprite, (2.0, 0.0)), Ok(()));
    assert_eq!(vault.park(2, ComponentKind::Velocity, (3.0, 0.0)), Ok(()));
    vault.purge(1);
    assert_eq!(vault.entry_count_for(1), 0);
    assert!(!vault.contains(1, ComponentKind::Velocity));
    assert!(!vault.contains(1, ComponentKind::Sprite));
    assert_eq!(vault.get(2, ComponentKind::Velocity), Some((3.0, 0.0)));
}

#[test]
fn purge_of_unknown_entity_is_a_no_op() {
    let mut vault: ComponentVault<Pay> = ComponentVault::new();
    assert_eq!(vault.park(4, ComponentKind::Collider, (5.0, 6.0)), Ok(()));
    vault.purge(99);
    assert_eq!(vault.get(4, ComponentKind::Collider), Some((5.0, 6.0)));
    assert_eq!(vault.entry_count_for(99), 0);
}

#[test]
fn keys_are_per_entity_and_kind() {
    let mut vault: ComponentVault<Pay> = ComponentVault::new();
    assert_eq!(vault.park(1, ComponentKind::Velocity, (1.0, 1.0)), Ok(()));
    assert_eq!(vault.park(2, ComponentKind::Velocity, (2.0, 2.0)), Ok(()));
    assert_eq!(vault.get(1, ComponentKind::Velocity), Some((1.0, 1.0)));
    assert_eq!(vault.get(2, ComponentKind::Velocity), Some((2.0, 2.0)));
    assert_eq!(vault.get(1, ComponentKind::Sprite), None);
}
