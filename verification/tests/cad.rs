use gridgame::cad::{
    add_vertex_selection, is_pair_tool, pair_selection_click, replace_pair_with_result, switch_tool, CadSelection,
    CadTool, PairPhase, PairRequest,
};

#[test]
fn switching_tools_restarts_the_pick() {
    let mut s = CadSelection::new();
    s.pair_phase = PairPhase::PickTarget;
    s.pending_source = Some(3);
    switch_tool(&mut s, CadTool::Join);
    assert_eq!(s.tool, CadTool::Join);
    assert_eq!(s.pair_phase, PairPhase::PickSource);
    assert_eq!(s.pending_source, None);
    assert!(is_pair_tool(CadTool::Align));
    assert!(is_pair_tool(CadTool::Subtract));
    assert!(!is_pair_tool(CadTool::Rotate));
}

#[test]
fn pair_tools_pick_a_source_then_a_target() {
    let mut s = CadSelection::new();
    switch_tool(&mut s, CadTool::Subtract);
    assert_eq!(pair_selection_click(&mut s, 2), PairRequest::Nothing);
    assert_eq!(s.selected, Some(2));
    assert_eq!(s.pair_phase, PairPhase::PickTarget);
    assert_eq!(pair_selection_click(&mut s, 2), PairRequest::Nothing);
    assert_eq!(s.pair_phase, PairPhase::PickTarget);
    assert_eq!(pair_selection_click(&mut s, 5), PairRequest::Subtract { source: 2, target: 5 });
    assert_eq!(s.pair_phase, PairPhase::PickSource);
    assert_eq!(s.pending_source, None);
}

#[test]
fn aligning_selects_the_source() {
    let mut s = CadSelection::new();
    switch_tool(&mut s, CadTool::Align);
    pair_selection_click(&mut s, 1);
    assert_eq!(pair_selection_click(&mut s, 4), PairRequest::Align { source: 1, target: 4 });
    assert_eq!(s.selected, Some(1));
}

#[test]
fn vertex_selection_adds_or_restarts() {
    let mut s = CadSelection::new();
    add_vertex_selection(&mut s, 0, 7, true);
    add_vertex_selection(&mut s, 0, 9, true);
    add_vertex_selection(&mut s, 0, 7, true);
    assert_eq!(s.selected_vertices, vec![7, 9]);
    add_vertex_selection(&mut s, 0, 3, false);
    assert_eq!(s.selected_vertices, vec![3]);
    add_vertex_selection(&mut s, 1, 4, true);
    assert_eq!(s.selected, Some(1));
    assert_eq!(s.selected_vertices, vec![4]);
}

#[test]
fn replacing_a_pair_removes_both_and_appends_the_result() {
    let mut figures = vec![10, 20, 30, 40];
    assert_eq!(replace_pair_with_result(&mut figures, 3, 1, Some(99)), Some(2));
    assert_eq!(figures, vec![10, 30, 99]);
    assert_eq!(replace_pair_with_result(&mut figures, 0, 0, Some(5)), None);
    assert_eq!(figures, vec![10, 30, 99]);
    assert_eq!(replace_pair_with_result(&mut figures, 0, 3, Some(5)), None);
    assert_eq!(replace_pair_with_result(&mut figures, 0, 1, None), None);
    assert_eq!(figures, vec![99]);
}
