//! The UI binding: one button cell per permitted (archetype, kind) pair, an
//! edge-triggered pointer state machine per cell, and the cell color as a
//! pure function of the aggregate toggle. The hosting engine samples the
//! pointer each frame and paints rectangles; everything it needs to decide
//! is here.

use vstd::prelude::*;

use crate::controller::{toggle_spec, ToggleController, ToggleError};
use crate::kinds::{ArchetypeKind, ComponentKind, spec_all_archetypes, all_archetypes};
use crate::matrix::{lemma_permitted_kinds_agree, permitted_kinds, spec_permits,
    spec_permitted_kinds};

verus! {

/// The pointer-interaction state of one button cell.
#[derive(Clone, Copy, PartialEq, Eq, Structural, Debug)]
pub enum ButtonPhase {
    Idle,
    Pressed,
}

/// One frame's sampled pointer state, relative to one cell.
#[derive(Clone, Copy, PartialEq, Eq, Structural, Debug)]
pub struct FrameInput {
    /// The pointer button is down this frame.
    pub pressed: bool,
    /// The pointer is over this cell this frame.
    pub over_cell: bool,
}

/// The edge-triggered transition. A press that begins over the cell arms it;
/// releasing while still over the cell fires exactly one toggle; releasing
/// elsewhere cancels without firing; holding the button changes nothing, no
/// matter for how many frames.
pub open spec fn spec_button_step(phase: ButtonPhase, input: FrameInput) -> (ButtonPhase, bool) {
    match phase {
        ButtonPhase::Idle => {
            if input.pressed && input.over_cell {
                (ButtonPhase::Pressed, false)
            } else {
                (ButtonPhase::Idle, false)
            }
        },
        ButtonPhase::Pressed => {
            if input.pressed {
                (ButtonPhase::Pressed, false)
            } else if input.over_cell {
                (ButtonPhase::Idle, true)
            } else {
                (ButtonPhase::Idle, false)
            }
        },
    }
}

/// Advances one cell's state by one frame; the second component says whether
/// this frame fires the cell's toggle.
#[verifier::when_used_as_spec(spec_button_step)]
pub fn button_step(phase: ButtonPhase, input: FrameInput) -> (r: (ButtonPhase, bool))
    ensures
        r == spec_button_step(phase, input),
{
    match phase {
        ButtonPhase::Idle => {
            if input.pressed && input.over_cell {
                (ButtonPhase::Pressed, false)
            } else {
                (ButtonPhase::Idle, false)
            }
        },
        ButtonPhase::Pressed => {
            if input.pressed {
                (ButtonPhase::Pressed, false)
            } else if input.over_cell {
                (ButtonPhase::Idle, true)
            } else {
                (ButtonPhase::Idle, false)
            }
        },
    }
}

/// How many times a run of frame samples fires the toggle, starting from a
/// given phase.
pub open spec fn spec_fire_count(phase: ButtonPhase, inputs: Seq<FrameInput>) -> nat
    decreases inputs.len(),
{
    if inputs.len() == 0 {
        0
    } else {
        let stepped = spec_button_step(phase, inputs[0]);
        (if stepped.1 {
            1nat
        } else {
            0nat
        }) + spec_fire_count(stepped.0, inputs.skip(1))
    }
}

/// A pointer held down over one cell for `n` frames and then released over
/// it, as a run of frame samples.
pub open spec fn held_then_released(n: nat) -> Seq<FrameInput> {
    Seq::new(n, |i: int| FrameInput { pressed: true, over_cell: true }).push(
        FrameInput { pressed: false, over_cell: true },
    )
}

proof fn lemma_fires_once_from_pressed(k: nat)
    ensures
        spec_fire_count(ButtonPhase::Pressed, held_then_released(k)) == 1,
    decreases k,
{
    let s = held_then_released(k);
    if k == 0 {
        assert(s.len() == 1);
        assert(s[0] == FrameInput { pressed: false, over_cell: true });
        assert(spec_button_step(ButtonPhase::Pressed, s[0]) == (ButtonPhase::Idle, true));
        assert(s.skip(1) =~= Seq::<FrameInput>::empty());
        assert(spec_fire_count(ButtonPhase::Idle, s.skip(1)) == 0);
    } else {
        lemma_fires_once_from_pressed((k - 1) as nat);
        assert(s[0] == FrameInput { pressed: true, over_cell: true });
        assert(spec_button_step(ButtonPhase::Pressed, s[0]) == (ButtonPhase::Pressed, false));
        assert(s.skip(1) =~= held_then_released((k - 1) as nat));
        assert(spec_fire_count(ButtonPhase::Pressed, s.skip(1)) == 1);
    }
}

/// Edge-triggered click: a pointer held down over one cell for any positive
/// number of frames and released once over it fires the toggle exactly once,
/// not once per frame.
pub proof fn lemma_held_click_fires_once(n: nat)
    requires
        n >= 1,
    ensures
        spec_fire_count(ButtonPhase::Idle, held_then_released(n)) == 1,
{
    let s = held_then_released(n);
    assert(s[0] == FrameInput { pressed: true, over_cell: true });
    lemma_fires_once_from_pressed((n - 1) as nat);
    assert(s.skip(1) =~= held_then_released((n - 1) as nat));
}

/// A cell's color, as a pure function of its pair's aggregate toggle.
#[derive(Clone, Copy, PartialEq, Eq, Structural, Debug)]
pub enum ButtonColor {
    /// The group is active; the cell shows the default color.
    Normal,
    /// The group is parked; the cell shows the "on" color.
    Engaged,
}

pub open spec fn spec_cell_color(parked: bool) -> ButtonColor {
    if parked {
        ButtonColor::Engaged
    } else {
        ButtonColor::Normal
    }
}

/// The color a cell shows for a given aggregate state.
#[verifier::when_used_as_spec(spec_cell_color)]
pub fn cell_color(parked: bool) -> (c: ButtonColor)
    ensures
        c == spec_cell_color(parked),
{
    if parked {
        ButtonColor::Engaged
    } else {
        ButtonColor::Normal
    }
}

/// One UI cell, bound to exactly one permitted (archetype, kind) pair.
#[derive(Clone, Copy, PartialEq, Eq, Structural, Debug)]
pub struct ButtonCell {
    pub archetype: ArchetypeKind,
    pub kind: ComponentKind,
    pub phase: ButtonPhase,
}

/// The cells of one archetype's column, one per permitted kind, idle.
pub open spec fn cells_for(archetype: ArchetypeKind) -> Seq<ButtonCell> {
    spec_permitted_kinds(archetype).map_values(
        |k: ComponentKind| ButtonCell { archetype, kind: k, phase: ButtonPhase::Idle },
    )
}

/// The columns of the given archetypes, in order.
pub open spec fn grid_for(archs: Seq<ArchetypeKind>) -> Seq<ButtonCell>
    decreases archs.len(),
{
    if archs.len() == 0 {
        Seq::empty()
    } else {
        grid_for(archs.drop_last()) + cells_for(archs.last())
    }
}

/// The full button grid, archetype-major: one idle cell per pair the matrix
/// permits, and none for any other pair.
pub open spec fn spec_grid_cells() -> Seq<ButtonCell> {
    grid_for(spec_all_archetypes())
}

/// Every cell of the grid is bound to a permitted pair and starts idle.
pub proof fn lemma_grid_cells_permitted(archs: Seq<ArchetypeKind>)
    ensures
        forall|i: int|
            0 <= i < grid_for(archs).len() ==> spec_permits(
                (#[trigger] grid_for(archs)[i]).archetype,
                grid_for(archs)[i].kind,
            ) && grid_for(archs)[i].phase is Idle,
    decreases archs.len(),
{
    if archs.len() == 0 {
    } else {
        let a = archs.last();
        let rest = grid_for(archs.drop_last());
        lemma_grid_cells_permitted(archs.drop_last());
        lemma_permitted_kinds_agree(a);
        assert forall|i: int|
            0 <= i < grid_for(archs).len() implies spec_permits(
            (#[trigger] grid_for(archs)[i]).archetype,
            grid_for(archs)[i].kind,
        ) && grid_for(archs)[i].phase is Idle by {
            if i < rest.len() {
                assert(grid_for(archs)[i] == rest[i]);
            } else {
                assert(grid_for(archs)[i] == cells_for(a)[i - rest.len()]);
                assert(cells_for(a)[i - rest.len()].kind == spec_permitted_kinds(a)[i
                    - rest.len()]);
            }
        }
    }
}

/// Every pair the matrix permits has its cell in the grid.
pub proof fn lemma_grid_cells_complete(archetype: ArchetypeKind, kind: ComponentKind)
    requires
        spec_permits(archetype, kind),
    ensures
        spec_grid_cells().contains(
            ButtonCell { archetype, kind, phase: ButtonPhase::Idle },
        ),
{
    crate::kinds::lemma_all_archetypes_complete(archetype);
    lemma_permitted_kinds_agree(archetype);
    let c = ButtonCell { archetype, kind, phase: ButtonPhase::Idle };
    let ks = spec_permitted_kinds(archetype);
    let j = choose|j: int| 0 <= j < ks.len() && ks[j] == kind;
    assert(cells_for(archetype)[j] == c);
    lemma_grid_for_carries(spec_all_archetypes(), c);
}

proof fn lemma_grid_for_carries(archs: Seq<ArchetypeKind>, c: ButtonCell)
    requires
        archs.contains(c.archetype),
        cells_for(c.archetype).contains(c),
    ensures
        grid_for(archs).contains(c),
    decreases archs.len(),
{
    let a = archs.last();
    let rest = grid_for(archs.drop_last());
    if a == c.archetype {
        let j = choose|j: int| 0 <= j < cells_for(a).len() && cells_for(a)[j] == c;
        assert(grid_for(archs)[rest.len() + j] == c);
    } else {
        let m = choose|m: int| 0 <= m < archs.len() && archs[m] == c.archetype;
        assert(archs.drop_last()[m] == c.archetype);
        assert(archs.drop_last().contains(c.archetype));
        lemma_grid_for_carries(archs.drop_last(), c);
        let j = choose|j: int| 0 <= j < rest.len() && rest[j] == c;
        assert(grid_for(archs)[j] == c);
    }
}

/// Builds the button grid: one idle cell per permitted (archetype, kind)
/// pair, archetype-major, and no cell for any non-permitted pair.
#[verifier::loop_isolation(false)]
pub fn grid_cells() -> (r: Vec<ButtonCell>)
    ensures
        r@ == spec_grid_cells(),
        forall|i: int|
            0 <= i < r@.len() ==> spec_permits((#[trigger] r@[i]).archetype, r@[i].kind)
                && r@[i].phase is Idle,
{
    proof {
        lemma_grid_cells_permitted(spec_all_archetypes());
    }
    let archs = all_archetypes();
    let na = archs.len();
    let mut r: Vec<ButtonCell> = Vec::new();
    proof {
        assert(spec_all_archetypes().take(0) =~= Seq::<ArchetypeKind>::empty());
        assert(r@ =~= grid_for(spec_all_archetypes().take(0)));
    }
    let mut ai: usize = 0;
    while ai < na
        invariant
            ai <= na,
            r@ == grid_for(spec_all_archetypes().take(ai as int)),
        decreases na - ai,
    {
        let archetype = archs[ai];
        let kinds = permitted_kinds(archetype);
        let nk = kinds.len();
        let ghost col = cells_for(archetype);
        let ghost base = r@;
        let mut ki: usize = 0;
        proof {
            assert(base + col.take(0) =~= base);
        }
        while ki < nk
            invariant
                ki <= nk,
                nk == col.len(),
                kinds@ == spec_permitted_kinds(archetype),
                r@ == base + col.take(ki as int),
            decreases nk - ki,
        {
            r.push(ButtonCell { archetype, kind: kinds[ki], phase: ButtonPhase::Idle });
            proof {
                assert(col[ki as int] == ButtonCell {
                    archetype,
                    kind: spec_permitted_kinds(archetype)[ki as int],
                    phase: ButtonPhase::Idle,
                });
                assert(r@ =~= base + col.take(ki as int + 1));
            }
            ki += 1;
        }
        proof {
            assert(col.take(nk as int) =~= col);
            assert(spec_all_archetypes().take(ai as int + 1).drop_last() =~= spec_all_archetypes()
                .take(ai as int));
            assert(spec_all_archetypes().take(ai as int + 1).last() == archetype);
            assert(r@ =~= grid_for(spec_all_archetypes().take(ai as int + 1)));
        }
        ai += 1;
    }
    proof {
        assert(spec_all_archetypes().take(na as int) =~= spec_all_archetypes());
    }
    r
}

impl<P: Copy> ToggleController<P> {
    /// Handles one fired click on a cell: applies the toggle once, then
    /// reports the color the cell must repaint to, read from the resulting
    /// aggregate toggle. A click on a non-permitted pair is dropped with
    /// `InvalidToggle` and leaves every part of the state, and so the cell's
    /// color, unchanged.
    pub fn click(&mut self, archetype: ArchetypeKind, kind: ComponentKind) -> (r: Result<
        ButtonColor,
        ToggleError,
    >)
        requires
            old(self).wf(),
        ensures
            final(self).wf(),
            !spec_permits(archetype, kind) ==> r == Err::<ButtonColor, ToggleError>(
                ToggleError::InvalidToggle,
            ) && *final(self) == *old(self),
            spec_permits(archetype, kind) ==> final(self)@ == toggle_spec(
                old(self)@,
                archetype,
                kind,
            ) && r == Ok::<ButtonColor, ToggleError>(
                spec_cell_color(final(self)@.regime[(archetype, kind)]),
            ),
    {
        match self.toggle(archetype, kind) {
            Ok(_) => {
                let parked = self.aggregate_parked(archetype, kind);
                Ok(cell_color(parked))
            },
            Err(e) => Err(e),
        }
    }
}

} // verus!
