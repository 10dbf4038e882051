//! The selection state of the shape editor: tools, picking a source and a
//! target figure for the two-figure tools, vertex selection, and replacing
//! two figures by the result of combining them.

use vstd::prelude::*;

verus! {

/// A tool of the shape editor.
#[derive(Clone, Copy, Debug, PartialEq, Eq, Structural)]
pub enum CadTool {
    Move,
    Resize,
    Rotate,
    Align,
    Join,
    Subtract,
}

/// Which figure a two-figure tool waits for next.
#[derive(Clone, Copy, Debug, PartialEq, Eq, Structural)]
pub enum PairPhase {
    PickSource,
    PickTarget,
}

/// What a click of a two-figure tool asks the editor to do.
#[derive(Clone, Copy, Debug, PartialEq, Eq, Structural)]
pub enum PairRequest {
    Nothing,
    Align { source: usize, target: usize },
    Join { source: usize, target: usize },
    Subtract { source: usize, target: usize },
}

/// The editor's selection: the selected figure, the tool, the two-figure
/// picking phase with its source, and the selected vertices.
#[derive(Clone, Debug)]
pub struct CadSelection {
    pub selected: Option<usize>,
    pub tool: CadTool,
    pub pair_phase: PairPhase,
    pub pending_source: Option<usize>,
    pub selected_vertices: Vec<usize>,
}

impl CadSelection {
    /// Nothing selected, the move tool, waiting for a source.
    pub fn new() -> (s: Self)
        ensures
            s.selected is None,
            s.tool == CadTool::Move,
            s.pair_phase == PairPhase::PickSource,
            s.pending_source is None,
            s.selected_vertices@.len() == 0,
    {
        CadSelection {
            selected: None,
            tool: CadTool::Move,
            pair_phase: PairPhase::PickSource,
            pending_source: None,
            selected_vertices: Vec::new(),
        }
    }
}

/// Takes up a tool and starts its picking over.
pub fn switch_tool(state: &mut CadSelection, tool: CadTool)
    ensures
        final(state).tool == tool,
        final(state).pending_source is None,
        final(state).pair_phase == PairPhase::PickSource,
        final(state).selected == old(state).selected,
        final(state).selected_vertices@ == old(state).selected_vertices@,
{
    state.tool = tool;
    state.pending_source = None;
    state.pair_phase = PairPhase::PickSource;
}

/// The tools that act on a source and a target figure.
pub open spec fn spec_is_pair_tool(tool: CadTool) -> bool {
    tool == CadTool::Align || tool == CadTool::Join || tool == CadTool::Subtract
}

/// Whether a tool acts on a source and a target figure.
pub fn is_pair_tool(tool: CadTool) -> (res: bool)
    ensures
        res == spec_is_pair_tool(tool),
{
    match tool {
        CadTool::Align | CadTool::Join | CadTool::Subtract => true,
        _ => false,
    }
}

/// Selects a vertex of a figure. An additive pick on the selected figure
/// adds to the selected vertices; any other pick starts them over. A vertex
/// is never listed twice.
pub fn add_vertex_selection(state: &mut CadSelection, figure_idx: usize, vertex_idx: usize, additive: bool)
    ensures
        final(state).selected == Some(figure_idx),
        ({
            let kept = if old(state).selected == Some(figure_idx) && additive {
                old(state).selected_vertices@
            } else {
                Seq::<usize>::empty()
            };
            final(state).selected_vertices@ == if kept.contains(vertex_idx) { kept } else { kept.push(vertex_idx) }
        }),
        final(state).tool == old(state).tool,
        final(state).pair_phase == old(state).pair_phase,
        final(state).pending_source == old(state).pending_source,
{
    if state.selected != Some(figure_idx) || !additive {
        state.selected_vertices.clear();
    }
    state.selected = Some(figure_idx);
    let mut found = false;
    let mut i: usize = 0;
    while i < state.selected_vertices.len()
        invariant
            i <= state.selected_vertices.len(),
            found == (exists|j: int| 0 <= j < i && state.selected_vertices@[j] == vertex_idx),
        decreases state.selected_vertices.len() - i,
    {
        if state.selected_vertices[i] == vertex_idx {
            found = true;
        }
        i = i + 1;
    }
    if !found {
        state.selected_vertices.push(vertex_idx);
    }
}

/// Removes figures `a` and `b` and appends `result`, if any, returning the
/// result's position. Nothing changes, and `None` comes back, unless `a`
/// and `b` are two different figures.
pub fn replace_pair_with_result<T>(figures: &mut Vec<T>, a: usize, b: usize, result: Option<T>) -> (pos: Option<usize>)
    ensures
        a >= old(figures).len() || b >= old(figures).len() || a == b ==> {
            &&& final(figures)@ == old(figures)@
            &&& pos is None
        },
        a < old(figures).len() && b < old(figures).len() && a != b ==> {
            let lo = if a < b { a as int } else { b as int };
            let hi = if a < b { b as int } else { a as int };
            let rest = old(figures)@.remove(hi).remove(lo);
            &&& final(figures)@ == match result {
                Some(x) => rest.push(x),
                None => rest,
            }
            &&& pos == match result {
                Some(_) => Some(rest.len() as usize),
                None => None::<usize>,
            }
        },
{
    if a >= figures.len() || b >= figures.len() || a == b {
        return None;
    }
    let hi = if a > b { a } else { b };
    let lo = if a < b { a } else { b };
    figures.remove(hi);
    figures.remove(lo);
    match result {
        Some(fig) => {
            figures.push(fig);
            Some(figures.len() - 1)
        },
        None => None,
    }
}

/// A click on figure `picked` with a two-figure tool. Waiting for a
/// source, the figure becomes the selected source. Waiting for a target,
/// a click on the source only selects it again; a click on another figure
/// asks for the tool's action on the source and that figure (selecting the
/// source when aligning) and starts the picking over.
pub fn pair_selection_click(state: &mut CadSelection, picked_figure: usize) -> (req: PairRequest)
    ensures
        final(state).tool == old(state).tool,
        final(state).selected_vertices@ == old(state).selected_vertices@,
        old(state).pair_phase == PairPhase::PickSource ==> {
            &&& final(state).pending_source == Some(picked_figure)
            &&& final(state).selected == Some(picked_figure)
            &&& final(state).pair_phase == PairPhase::PickTarget
            &&& req == PairRequest::Nothing
        },
        old(state).pair_phase == PairPhase::PickTarget && old(state).pending_source is None ==> {
            &&& final(state).pair_phase == PairPhase::PickSource
            &&& final(state).pending_source is None
            &&& final(state).selected == old(state).selected
            &&& req == PairRequest::Nothing
        },
        old(state).pair_phase == PairPhase::PickTarget && old(state).pending_source == Some(picked_figure) ==> {
            &&& final(state).pair_phase == PairPhase::PickTarget
            &&& final(state).pending_source == old(state).pending_source
            &&& final(state).selected == Some(picked_figure)
            &&& req == PairRequest::Nothing
        },
        old(state).pair_phase == PairPhase::PickTarget && old(state).pending_source is Some
            && old(state).pending_source.unwrap() != picked_figure ==> {
            let s = old(state).pending_source.unwrap();
            &&& final(state).pair_phase == PairPhase::PickSource
            &&& final(state).pending_source is None
            &&& final(state).selected == if old(state).tool == CadTool::Align { Some(s) } else { old(state).selected }
            &&& req == match old(state).tool {
                CadTool::Align => (PairRequest::Align { source: s, target: picked_figure }),
                CadTool::Join => (PairRequest::Join { source: s, target: picked_figure }),
                CadTool::Subtract => (PairRequest::Subtract { source: s, target: picked_figure }),
                _ => PairRequest::Nothing,
            }
        },
{
    match state.pair_phase {
        PairPhase::PickSource => {
            state.pending_source = Some(picked_figure);
            state.selected = Some(picked_figure);
            state.pair_phase = PairPhase::PickTarget;
            PairRequest::Nothing
        },
        PairPhase::PickTarget => {
            let source_idx = match state.pending_source {
                Some(s) => s,
                None => {
                    state.pair_phase = PairPhase::PickSource;
                    return PairRequest::Nothing;
                },
            };
            if source_idx == picked_figure {
                state.selected = Some(picked_figure);
                return PairRequest::Nothing;
            }
            let req = match state.tool {
                CadTool::Align => {
                    state.selected = Some(source_idx);
                    PairRequest::Align { source: source_idx, target: picked_figure }
                },
                CadTool::Join => PairRequest::Join { source: source_idx, target: picked_figure },
                CadTool::Subtract => PairRequest::Subtract { source: source_idx, target: picked_figure },
                _ => PairRequest::Nothing,
            };
            state.pending_source = None;
            state.pair_phase = PairPhase::PickSource;
            req
        },
    }
}

} // verus!
