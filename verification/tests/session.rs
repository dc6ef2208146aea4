use fractui::geom::{Direction, Rect};
use fractui::input::{Event, KeyCode, MouseEvent, MouseEventKind};
use fractui::pane::{Effect, FractalPane, InputField, DEFAULT_SCALE_BITS, MAX_ITER_DEFAULT};
use fractui::session::App;
use fractui::tree::PaneNode;

fn key(app: &mut App, k: KeyCode) -> Effect {
    app.handle_event(Event::Key(k))
}

fn leaf_ids(app: &App) -> Vec<usize> {
    app.collect_ids()
}

#[test]
fn new_session_has_one_leaf() {
    let app = App::new();
    assert_eq!(app.active_pane_id, 0);
    assert_eq!(app.next_id, 1);
    assert_eq!(leaf_ids(&app), vec![0]);
    match &app.root {
        PaneNode::Pane(p) => assert_eq!(p.id, 0),
        _ => panic!("fresh session should hold a single leaf"),
    }
}

#[test]
fn split_appends_fresh_leaf_and_focuses_it() {
    let mut app = App::new();
    key(&mut app, KeyCode::Char('R'));
    assert_eq!(leaf_ids(&app), vec![0, 1]);
    assert_eq!(app.active_pane_id, 1);
    assert_eq!(app.next_id, 2);
    match &app.root {
        PaneNode::Split { direction, children } => {
            assert_eq!(*direction, Direction::Horizontal);
            assert_eq!(children.len(), 2);
            match (&children[0], &children[1]) {
                (PaneNode::Pane(a), PaneNode::Pane(b)) => {
                    assert_eq!(a.id, 0);
                    assert_eq!(b.id, 1);
                }
                _ => panic!("both children should be leaves"),
            }
        }
        _ => panic!("split should produce a split root"),
    }
}

#[test]
fn split_prepend_puts_fresh_leaf_first() {
    let mut app = App::new();
    key(&mut app, KeyCode::Char('L'));
    assert_eq!(leaf_ids(&app), vec![1, 0]);
    assert_eq!(app.active_pane_id, 1);
}

#[test]
fn close_collapses_to_surviving_leaf() {
    let mut app = App::new();
    key(&mut app, KeyCode::Char('R'));
    assert_eq!(leaf_ids(&app), vec![0, 1]);
    key(&mut app, KeyCode::Char('X'));
    assert_eq!(leaf_ids(&app), vec![0]);
    assert_eq!(app.active_pane_id, 0);
    match &app.root {
        PaneNode::Pane(p) => assert_eq!(p.id, 0),
        _ => panic!("closing one child of a pair must leave a bare leaf"),
    }
}

#[test]
fn close_on_single_leaf_is_a_no_op() {
    let mut app = App::new();
    key(&mut app, KeyCode::Char('X'));
    assert_eq!(leaf_ids(&app), vec![0]);
    assert_eq!(app.active_pane_id, 0);
}

#[test]
fn split_then_close_round_trip_restores_tree() {
    let mut app = App::new();
    key(&mut app, KeyCode::Char('D'));
    key(&mut app, KeyCode::Char('R'));
    let ids_before = leaf_ids(&app);
    key(&mut app, KeyCode::Char('U'));
    key(&mut app, KeyCode::Char('X'));
    assert_eq!(leaf_ids(&app), ids_before);
}

#[test]
fn ids_are_never_reused() {
    let mut app = App::new();
    key(&mut app, KeyCode::Char('R'));
    key(&mut app, KeyCode::Char('X'));
    key(&mut app, KeyCode::Char('R'));
    assert_eq!(leaf_ids(&app), vec![0, 2]);
}

#[test]
fn tab_cycles_focus_in_depth_first_order() {
    let mut app = App::new();
    key(&mut app, KeyCode::Char('R'));
    assert_eq!(app.active_pane_id, 1);
    key(&mut app, KeyCode::Tab);
    assert_eq!(app.active_pane_id, 0);
    key(&mut app, KeyCode::Tab);
    assert_eq!(app.active_pane_id, 1);
}

#[test]
fn digit_selects_pane_by_position() {
    let mut app = App::new();
    key(&mut app, KeyCode::Char('R'));
    key(&mut app, KeyCode::Char('1'));
    assert_eq!(app.active_pane_id, 0);
    key(&mut app, KeyCode::Char('2'));
    assert_eq!(app.active_pane_id, 1);
}

#[test]
fn digit_out_of_range_is_a_no_op() {
    let mut app = App::new();
    key(&mut app, KeyCode::Char('R'));
    key(&mut app, KeyCode::Char('9'));
    assert_eq!(app.active_pane_id, 1);
}

#[test]
fn pans_and_zooms_keep_id_order() {
    let mut app = App::new();
    key(&mut app, KeyCode::Char('R'));
    key(&mut app, KeyCode::Char('D'));
    let ids = leaf_ids(&app);
    key(&mut app, KeyCode::Left);
    key(&mut app, KeyCode::Up);
    key(&mut app, KeyCode::Char('+'));
    key(&mut app, KeyCode::Char('-'));
    key(&mut app, KeyCode::Char(' '));
    key(&mut app, KeyCode::Char('b'));
    assert_eq!(leaf_ids(&app), ids);
}

#[test]
fn quit_flow_needs_confirmation() {
    let mut app = App::new();
    key(&mut app, KeyCode::Char('q'));
    assert!(app.show_quit_popup);
    assert!(!app.should_quit);
    key(&mut app, KeyCode::Char('n'));
    assert!(!app.show_quit_popup);
    key(&mut app, KeyCode::Esc);
    assert!(app.show_quit_popup);
    key(&mut app, KeyCode::Char('y'));
    assert!(app.should_quit);
}

#[test]
fn quit_popup_swallows_other_keys() {
    let mut app = App::new();
    key(&mut app, KeyCode::Char('q'));
    key(&mut app, KeyCode::Char('R'));
    assert!(app.show_quit_popup);
    assert_eq!(leaf_ids(&app), vec![0]);
}

#[test]
fn help_popup_toggles_and_swallows() {
    let mut app = App::new();
    key(&mut app, KeyCode::Char('h'));
    assert!(app.show_help_popup);
    key(&mut app, KeyCode::Char('R'));
    assert!(app.show_help_popup);
    assert_eq!(leaf_ids(&app), vec![0]);
    key(&mut app, KeyCode::Char('h'));
    assert!(!app.show_help_popup);
}

#[test]
fn pan_and_zoom_keys_ask_for_view_work() {
    let mut app = App::new();
    match key(&mut app, KeyCode::Left) {
        Effect::Pan { id, .. } => assert_eq!(id, 0),
        _ => panic!("arrow key should request a pan"),
    }
    match key(&mut app, KeyCode::Char('+')) {
        Effect::ZoomIn { id } => assert_eq!(id, 0),
        _ => panic!("plus should request a zoom in"),
    }
    match key(&mut app, KeyCode::Char('_')) {
        Effect::ZoomOut { id } => assert_eq!(id, 0),
        _ => panic!("underscore should request a zoom out"),
    }
}

#[test]
fn reset_key_restores_default_view_bits() {
    let mut app = App::new();
    app.set_center_scale(0, 1, 2, 3);
    key(&mut app, KeyCode::Char('d'));
    key(&mut app, KeyCode::Char('r'));
    match &app.root {
        PaneNode::Pane(p) => {
            assert_eq!(p.scale_bits, DEFAULT_SCALE_BITS);
            assert_eq!(p.max_iters, MAX_ITER_DEFAULT);
        }
        _ => panic!("single leaf expected"),
    }
}

#[test]
fn iteration_cap_moves_in_steps_of_ten_with_floor() {
    let mut app = App::new();
    key(&mut app, KeyCode::Char('d'));
    match &app.root {
        PaneNode::Pane(p) => assert_eq!(p.max_iters, MAX_ITER_DEFAULT + 10),
        _ => panic!(),
    }
    for _ in 0..1000 {
        key(&mut app, KeyCode::Char('s'));
    }
    match &app.root {
        PaneNode::Pane(p) => assert_eq!(p.max_iters, 10),
        _ => panic!(),
    }
    key(&mut app, KeyCode::Char('s'));
    match &app.root {
        PaneNode::Pane(p) => assert_eq!(p.max_iters, 10),
        _ => panic!(),
    }
}

fn assign_single_area(app: &mut App, rect: Rect) {
    let ids = app.collect_ids();
    let rects = vec![rect; ids.len()];
    app.assign_areas(&rects);
}

#[test]
fn mouse_scroll_requests_cursor_anchored_zoom() {
    let mut app = App::new();
    assign_single_area(&mut app, Rect { x: 0, y: 0, width: 40, height: 20 });
    let eff = app.handle_event(Event::Mouse(MouseEvent {
        kind: MouseEventKind::ScrollUp,
        column: 10,
        row: 5,
    }));
    match eff {
        Effect::Scroll { id, column, row, zoom_in, .. } => {
            assert_eq!(id, 0);
            assert_eq!((column, row), (10, 5));
            assert!(zoom_in);
        }
        _ => panic!("scroll inside the pane should request a zoom"),
    }
}

#[test]
fn mouse_press_focuses_pane_under_cursor() {
    let mut app = App::new();
    key(&mut app, KeyCode::Char('R'));
    // Left pane gets the left half of the screen, right pane the rest.
    let rects = vec![
        Rect { x: 0, y: 0, width: 20, height: 20 },
        Rect { x: 20, y: 0, width: 20, height: 20 },
    ];
    app.assign_areas(&rects);
    assert_eq!(app.find_pane_at(5, 5), Some(0));
    assert_eq!(app.find_pane_at(25, 5), Some(1));
    assert_eq!(app.find_pane_at(5, 30), None);
    app.handle_event(Event::Mouse(MouseEvent { kind: MouseEventKind::Down, column: 5, row: 5 }));
    assert_eq!(app.active_pane_id, 0);
}

#[test]
fn julia_rows_open_text_capture() {
    let mut app = App::new();
    assign_single_area(&mut app, Rect { x: 0, y: 0, width: 40, height: 20 });
    key(&mut app, KeyCode::Char('b'));
    key(&mut app, KeyCode::Char('b'));
    // The row three above the bottom edge edits the real part.
    app.handle_event(Event::Mouse(MouseEvent { kind: MouseEventKind::Down, column: 3, row: 17 }));
    match &app.root {
        PaneNode::Pane(p) => assert_eq!(p.active_input, Some(InputField::Cx)),
        _ => panic!(),
    }
    assert!(app.is_active_pane_capturing_input());
}

#[test]
fn text_capture_collects_and_hands_out_the_buffer() {
    let mut app = App::new();
    assign_single_area(&mut app, Rect { x: 0, y: 0, width: 40, height: 20 });
    key(&mut app, KeyCode::Char('b'));
    key(&mut app, KeyCode::Char('b'));
    app.handle_event(Event::Mouse(MouseEvent { kind: MouseEventKind::Down, column: 3, row: 18 }));
    // While capturing, global shortcuts are suspended.
    key(&mut app, KeyCode::Char('-'));
    key(&mut app, KeyCode::Char('0'));
    key(&mut app, KeyCode::Char('.'));
    key(&mut app, KeyCode::Char('5'));
    key(&mut app, KeyCode::Backspace);
    key(&mut app, KeyCode::Char('5'));
    key(&mut app, KeyCode::Char('x'));
    assert_eq!(leaf_ids(&app), vec![0]);
    let eff = key(&mut app, KeyCode::Enter);
    match eff {
        Effect::Parse { id, field, text } => {
            assert_eq!(id, 0);
            assert_eq!(field, InputField::Cy);
            let s: String = text.into_iter().collect();
            assert_eq!(s, "-0.5");
        }
        _ => panic!("enter should hand the buffer out for parsing"),
    }
    assert!(!app.is_active_pane_capturing_input());
    app.set_julia_bits(0, InputField::Cy, (-0.5f64).to_bits());
    match &app.root {
        PaneNode::Pane(p) => assert_eq!(f64::from_bits(p.julia_cy_bits), -0.5),
        _ => panic!(),
    }
}

#[test]
fn capture_escape_discards_buffer() {
    let mut app = App::new();
    assign_single_area(&mut app, Rect { x: 0, y: 0, width: 40, height: 20 });
    key(&mut app, KeyCode::Char('b'));
    key(&mut app, KeyCode::Char('b'));
    app.handle_event(Event::Mouse(MouseEvent { kind: MouseEventKind::Down, column: 3, row: 17 }));
    key(&mut app, KeyCode::Char('7'));
    key(&mut app, KeyCode::Esc);
    assert!(!app.is_active_pane_capturing_input());
    match &app.root {
        PaneNode::Pane(p) => assert!(p.input_buffer.is_empty()),
        _ => panic!(),
    }
}

#[test]
fn split_clones_the_full_pane_state() {
    let mut app = App::new();
    app.set_center_scale(0, 11, 22, 33);
    app.set_julia_bits(0, InputField::Cx, 44);
    key(&mut app, KeyCode::Char('d'));
    key(&mut app, KeyCode::Char(' '));
    key(&mut app, KeyCode::Char('R'));
    match &app.root {
        PaneNode::Split { children, .. } => match &children[0] {
            PaneNode::Pane(p) => {
                assert_eq!(p.id, 0);
                assert_eq!((p.center_x_bits, p.center_y_bits, p.scale_bits), (11, 22, 33));
                assert_eq!(p.julia_cx_bits, 44);
                assert_eq!(p.max_iters, MAX_ITER_DEFAULT + 10);
                assert_eq!(p.palette, fractui::color::Palette::Rainbow);
            }
            _ => panic!(),
        },
        _ => panic!(),
    }
}

#[test]
fn fresh_pane_clone_matches_original() {
    let pane = FractalPane::new(7);
    let copy = pane.clone();
    assert_eq!(copy.id, 7);
    assert_eq!(copy.scale_bits, pane.scale_bits);
    assert_eq!(copy.input_buffer, pane.input_buffer);
}

/// Walks the tree, checking that every split holds at least two children;
/// returns the leaf count.
fn check_structure(node: &PaneNode) -> usize {
    match node {
        PaneNode::Pane(_) => 1,
        PaneNode::Split { children, .. } => {
            assert!(children.len() >= 2, "a split must keep at least two children");
            children.iter().map(check_structure).sum()
        }
    }
}

#[test]
fn closing_inner_pane_collapses_nested_split() {
    let mut app = App::new();
    key(&mut app, KeyCode::Char('R'));
    key(&mut app, KeyCode::Char('D'));
    assert_eq!(leaf_ids(&app), vec![0, 1, 2]);
    key(&mut app, KeyCode::Char('X'));
    assert_eq!(leaf_ids(&app), vec![0, 1]);
    assert_eq!(app.active_pane_id, 1);
    check_structure(&app.root);
    match &app.root {
        PaneNode::Split { children, .. } => {
            assert!(matches!(children[1], PaneNode::Pane(_)));
        }
        _ => panic!("two leaves left, so the root is still a split"),
    }
}

#[test]
fn any_sequence_of_splits_and_closes_keeps_one_leaf_and_unique_ids() {
    let mut app = App::new();
    let script = [
        'R', 'D', 'X', 'U', 'L', 'X', 'X', 'X', 'X', 'R', 'D', 'U', 'X', 'L', 'X', 'X', 'X', 'X',
        'X',
    ];
    for c in script {
        key(&mut app, KeyCode::Char(c));
        let ids = leaf_ids(&app);
        assert!(!ids.is_empty(), "the tree always holds at least one leaf");
        let mut sorted = ids.clone();
        sorted.sort_unstable();
        sorted.dedup();
        assert_eq!(sorted.len(), ids.len(), "leaf ids stay unique");
        assert_eq!(check_structure(&app.root), ids.len());
        assert!(ids.contains(&app.active_pane_id), "focus names an existing leaf");
    }
}
