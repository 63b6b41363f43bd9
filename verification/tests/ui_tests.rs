use toggle_engine::kinds::{ArchetypeKind, ComponentKind};
use toggle_engine::matrix::permits;
use toggle_engine::ui::{button_step, cell_color, grid_cells, ButtonColor, ButtonPhase, FrameInput};

fn frame(pressed: bool, over_cell: bool) -> FrameInput {
    FrameInput { pressed, over_cell }
}

/// Runs a sequence of frame samples from idle and counts fired toggles.
fn fires(frames: &[FrameInput]) -> usize {
    let mut phase = ButtonPhase::Idle;
    let mut count = 0;
    for f in frames {
        let (next, fired) = button_step(phase, *f);
        phase = next;
        if fired {
            count += 1;
        }
    }
    count
}

#[test]
fn held_for_many_frames_fires_exactly_once_on_release() {
    let n = 60;
    let mut frames = vec![frame(true, true); n];
    frames.push(frame(false, true));
    assert_eq!(fires(&frames), 1);
}

#[test]
fn single_frame_click_fires_once() {
    assert_eq!(fires(&[frame(true, true), frame(false, true)]), 1);
}

#[test]
fn release_outside_the_cell_cancels_without_firing() {
    assert_eq!(
        fires(&[frame(true, true), frame(true, false), frame(false, false)]),
        0
    );
}

#[test]
fn press_that_begins_outside_the_cell_never_arms() {
    assert_eq!(
        fires(&[frame(true, false), frame(true, false), frame(false, true)]),
        0
    );
}

#[test]
fn two_full_clicks_fire_twice() {
    assert_eq!(
        fires(&[
            frame(true, true),
            frame(false, true),
            frame(false, true),
            frame(true, true),
            frame(true, true),
            frame(false, true),
        ]),
        2
    );
}

#[test]
fn idle_frames_fire_nothing() {
    assert_eq!(fires(&[frame(false, true); 10]), 0);
}

#[test]
fn cell_color_is_a_pure_function_of_the_aggregate() {
    assert_eq!(cell_color(false), ButtonColor::Normal);
    assert_eq!(cell_color(true), ButtonColor::Engaged);
}

#[test]
fn grid_has_one_idle_cell_per_permitted_pair() {
    let grid = grid_cells();
    assert_eq!(grid.len(), 18);
    for cell in &grid {
        assert!(permits(cell.archetype, cell.kind));
        assert_eq!(cell.phase, ButtonPhase::Idle);
    }
    assert_eq!(grid[0].archetype, ArchetypeKind::Ball);
    assert_eq!(grid[0].kind, ComponentKind::Sprite);
    assert!(grid
        .iter()
        .any(|c| c.archetype == ArchetypeKind::Brick && c.kind == ComponentKind::Destructable));
    assert!(!grid
        .iter()
        .any(|c| c.archetype == ArchetypeKind::Wall && c.kind == ComponentKind::Velocity));
    for (i, a) in grid.iter().enumerate() {
        for b in grid.iter().skip(i + 1) {
            assert!(a.archetype != b.archetype || a.kind != b.kind);
        }
    }
}
