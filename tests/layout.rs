use editcore::split::{Pane, SplitDirection, SplitManager, SplitNode};

fn rect(p: &Pane) -> (u16, u16, u16, u16) {
    (p.x, p.y, p.width, p.height)
}

#[test]
fn split_current_tiles_the_pane() {
    let mut m = SplitManager::new(0, 100, 41, 20);
    assert!(m.split_current(SplitDirection::Vertical, 1));
    let panes = m.root.get_all_panes();
    assert_eq!(panes.len(), 2);
    assert_eq!(rect(&panes[0]), (20, 0, 40, 41));
    assert_eq!(rect(&panes[1]), (60, 0, 40, 41));
    assert_eq!(panes[1].buffer_index, 1);
    m.next_pane();
    assert!(m.split_current(SplitDirection::Horizontal, 2));
    let panes = m.root.get_all_panes();
    assert_eq!(panes.len(), 3);
    assert_eq!(rect(&panes[1]), (60, 0, 40, 20));
    assert_eq!(rect(&panes[2]), (60, 20, 40, 21));
    assert_eq!(m.get_active_buffer_index(), Some(1));
}

#[test]
fn resize_keeps_tiling() {
    let mut m = SplitManager::new(0, 80, 24, 0);
    m.split_current(SplitDirection::Vertical, 1);
    m.split_current(SplitDirection::Horizontal, 2);
    m.resize(0, 0, 101, 31);
    let panes = m.root.get_all_panes();
    assert_eq!(rect(&panes[0]), (0, 0, 50, 15));
    assert_eq!(rect(&panes[1]), (0, 15, 50, 16));
    assert_eq!(rect(&panes[2]), (50, 0, 51, 31));
    let area: u32 = panes.iter().map(|p| p.width as u32 * p.height as u32).sum();
    assert_eq!(area, 101 * 31);
}

#[test]
fn pane_cycling_wraps() {
    let mut m = SplitManager::new(0, 80, 24, 0);
    m.split_current(SplitDirection::Vertical, 1);
    m.split_current(SplitDirection::Vertical, 2);
    assert_eq!(m.get_pane_count(), 3);
    assert_eq!(m.count_panes(), 3);
    m.previous_pane();
    assert_eq!(m.active_pane_index, 2);
    m.next_pane();
    assert_eq!(m.active_pane_index, 0);
    m.next_pane();
    assert_eq!(m.active_pane_index, 1);
}

#[test]
fn click_selects_pane_under_point() {
    let mut m = SplitManager::new(0, 80, 24, 0);
    m.split_current(SplitDirection::Vertical, 1);
    assert!(m.handle_click(45, 3));
    assert_eq!(m.active_pane_index, 1);
    assert_eq!(m.get_active_pane().unwrap().buffer_index, 1);
    assert!(!m.handle_click(90, 3));
    assert_eq!(m.active_pane_index, 1);
    assert_eq!(m.root.find_pane_at(0, 0), Some(0));
}

#[test]
fn split_only_splits_a_leaf() {
    let mut n = SplitNode::new_leaf(Pane::new(3, 0, 0, 10, 10));
    assert!(n.split(SplitDirection::Horizontal, 4));
    assert!(!n.split(SplitDirection::Horizontal, 5));
    let panes = n.get_all_panes_immutable();
    assert_eq!(rect(&panes[0]), (0, 0, 10, 5));
    assert_eq!(rect(&panes[1]), (0, 5, 10, 5));
}

#[test]
fn viewport_follows_cursor() {
    let mut p = Pane::new(0, 0, 0, 80, 12);
    p.adjust_viewport(5);
    assert_eq!(p.viewport_offset, 0);
    p.adjust_viewport(10);
    assert_eq!(p.viewport_offset, 1);
    p.adjust_viewport(0);
    assert_eq!(p.viewport_offset, 0);
    p.resize(1, 2, 3, 4);
    assert_eq!(rect(&p), (1, 2, 3, 4));
}

#[test]
fn horizontal_offset_keeps_margin() {
    let mut p = Pane::new(0, 0, 0, 80, 12);
    p.adjust_horizontal_offset(30, 20);
    assert_eq!(p.horizontal_offset, 16);
    p.adjust_horizontal_offset(18, 20);
    assert_eq!(p.horizontal_offset, 13);
    p.adjust_horizontal_offset(3, 20);
    assert_eq!(p.horizontal_offset, 0);
}
