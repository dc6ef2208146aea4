//! The session: the tree root, the active pane, the id counter, the two
//! modal flags, and the router that applies input events to them.
//!
//! Every mutating operation preserves the session invariant: the tree is
//! well formed, leaf ids are unique and below the id counter, and the
//! active id names an existing leaf.

use vstd::prelude::*;

use crate::geom::{Direction, Rect};
use crate::input::{Event, KeyCode, MouseEvent, MouseEventKind};
use crate::pane::{default_pane, Effect, EffectView, FractalPane, InputField};
use crate::tree::{
    any_capturing, assign_areas_node, collapse1, collapse_node, collect_ids, contains_id,
    first_hit, leaf_ids, leaves, lemma_assign, lemma_assign_keeps_order, lemma_delete_tree,
    lemma_split_tree, lemma_update_keeps_order, lemma_update_tree, pair_views, recursive_delete,
    recursive_find_at, recursive_is_capturing, recursive_split, spec_assign, spec_delete,
    split_tree, update_leaf, update_tree, wf, NodeView, PaneAction, PaneNode,
};

verus! {

/// The session state.
pub struct App {
    pub root: PaneNode,
    /// Id of the focused leaf.
    pub active_pane_id: usize,
    /// Next id to hand out; ids are never reused.
    pub next_id: usize,
    pub should_quit: bool,
    pub show_quit_popup: bool,
    pub show_help_popup: bool,
}

/// [`App`] as a mathematical value.
pub struct AppView {
    pub root: NodeView,
    pub active_pane_id: usize,
    pub next_id: usize,
    pub should_quit: bool,
    pub show_quit_popup: bool,
    pub show_help_popup: bool,
}

impl View for App {
    type V = AppView;

    open spec fn view(&self) -> AppView {
        AppView {
            root: self.root@,
            active_pane_id: self.active_pane_id,
            next_id: self.next_id,
            should_quit: self.should_quit,
            show_quit_popup: self.show_quit_popup,
            show_help_popup: self.show_help_popup,
        }
    }
}

impl AppView {
    /// The session invariant: a well-formed tree whose leaf ids are unique
    /// and below the id counter, with the focus on an existing leaf.
    pub open spec fn inv(self) -> bool {
        &&& wf(self.root)
        &&& leaf_ids(self.root).no_duplicates()
        &&& contains_id(self.root, self.active_pane_id)
        &&& forall|i: int|
            0 <= i < leaf_ids(self.root).len() ==> #[trigger] leaf_ids(self.root)[i] < self.next_id
    }
}

/// The state a fresh session starts in: a single default leaf with id 0.
pub open spec fn initial_app() -> AppView {
    AppView {
        root: NodeView::Leaf(default_pane(0)),
        active_pane_id: 0,
        next_id: 1,
        should_quit: false,
        show_quit_popup: false,
        show_help_popup: false,
    }
}

/// Splitting the active pane: a fresh default pane with the next id sits
/// beside it, becomes active, and the counter moves on.
pub open spec fn spec_split_active(v: AppView, direction: Direction, prepend: bool) -> AppView {
    let fresh = default_pane(v.next_id);
    let root2 = split_tree(v.root, v.active_pane_id, direction, prepend, fresh);
    AppView {
        root: root2,
        active_pane_id: if contains_id(v.root, v.active_pane_id) {
            v.next_id
        } else {
            v.active_pane_id
        },
        next_id: (v.next_id + 1) as usize,
        ..v
    }
}

/// Closing the active pane: a no-op on a single-leaf tree; otherwise the
/// leaf is removed, a degenerate split collapses, and if the focus died
/// with the leaf it falls back to the last leaf in depth-first order.
pub open spec fn spec_close_active(v: AppView) -> AppView {
    if leaf_ids(v.root).len() <= 1 {
        v
    } else {
        let (t2, f) = spec_delete(v.root, v.active_pane_id);
        let root2 = if f {
            collapse1(t2)
        } else {
            t2
        };
        let ids2 = leaf_ids(root2);
        let active2 = if contains_id(root2, v.active_pane_id) {
            v.active_pane_id
        } else if ids2.len() >= 1 {
            ids2.last()
        } else {
            v.active_pane_id
        };
        AppView { root: root2, active_pane_id: active2, ..v }
    }
}

/// The first position of `x` in `ids`, or -1.
pub open spec fn first_index(ids: Seq<usize>, x: usize) -> int
    decreases ids,
{
    if ids.len() == 0 {
        -1
    } else if ids[0] == x {
        0
    } else {
        let r = first_index(ids.subrange(1, ids.len() as int), x);
        if r == -1 {
            -1
        } else {
            r + 1
        }
    }
}

pub proof fn lemma_first_index_char(ids: Seq<usize>, x: usize)
    ensures
        first_index(ids, x) == -1 <==> (forall|j: int| 0 <= j < ids.len() ==> ids[j] != x),
        first_index(ids, x) != -1 ==> {
            let p = first_index(ids, x);
            &&& 0 <= p < ids.len()
            &&& ids[p] == x
            &&& forall|j: int| 0 <= j < p ==> ids[j] != x
        },
    decreases ids,
{
    if ids.len() > 0 {
        let tail = ids.subrange(1, ids.len() as int);
        lemma_first_index_char(tail, x);
        assert(forall|j: int| 1 <= j < ids.len() ==> ids[j] == tail[j - 1]);
    }
}

/// Focus moves to the next leaf id in depth-first order, wrapping around.
pub open spec fn spec_cycle_focus(v: AppView) -> AppView {
    let ids = leaf_ids(v.root);
    let p = first_index(ids, v.active_pane_id);
    if p == -1 {
        v
    } else {
        AppView { active_pane_id: ids[(p + 1) % (ids.len() as int)], ..v }
    }
}

/// The pane index selected by a digit key, or -1 when the key is no digit
/// shortcut: `1` through `9` select the first through ninth pane.
pub open spec fn digit_index(c: char) -> int {
    if ('1' as u32) <= (c as u32) <= ('9' as u32) {
        (c as u32) - ('1' as u32)
    } else {
        -1
    }
}

/// Digit selection: the `idx`-th leaf in depth-first order becomes active
/// if it exists; otherwise nothing happens.
pub open spec fn spec_select_digit(v: AppView, idx: int) -> AppView {
    let ids = leaf_ids(v.root);
    if 0 <= idx < ids.len() {
        AppView { active_pane_id: ids[idx], ..v }
    } else {
        v
    }
}

/// The key router.  The quit dialog and the help popup swallow everything
/// but their own keys; an open text-entry field captures all keys for its
/// pane; digits jump focus; the global shortcuts split, close, cycle and
/// open the dialogs; everything else goes to the active pane's handler.
pub open spec fn spec_handle_key(v: AppView, k: KeyCode) -> (AppView, EffectView) {
    if v.show_quit_popup {
        match k {
            KeyCode::Char(c) => if c == 'y' || c == 'Y' {
                (AppView { should_quit: true, ..v }, EffectView::Nothing)
            } else if c == 'n' || c == 'N' {
                (AppView { show_quit_popup: false, ..v }, EffectView::Nothing)
            } else {
                (v, EffectView::Nothing)
            },
            KeyCode::Esc => (AppView { show_quit_popup: false, ..v }, EffectView::Nothing),
            _ => (v, EffectView::Nothing),
        }
    } else if v.show_help_popup {
        if k == KeyCode::Esc || k == KeyCode::Char('h') || k == KeyCode::Char('q') {
            (AppView { show_help_popup: false, ..v }, EffectView::Nothing)
        } else {
            (v, EffectView::Nothing)
        }
    } else if any_capturing(leaves(v.root), v.active_pane_id) {
        let (root2, e) = update_tree(v.root, v.active_pane_id, PaneAction::Key(k));
        (AppView { root: root2, ..v }, e)
    } else {
        match k {
            KeyCode::Char(c) => if digit_index(c) >= 0 {
                (spec_select_digit(v, digit_index(c)), EffectView::Nothing)
            } else if c == 'q' {
                (AppView { show_quit_popup: true, ..v }, EffectView::Nothing)
            } else if c == 'h' {
                (AppView { show_help_popup: true, ..v }, EffectView::Nothing)
            } else if c == 'D' {
                (spec_split_active(v, Direction::Vertical, false), EffectView::Nothing)
            } else if c == 'U' {
                (spec_split_active(v, Direction::Vertical, true), EffectView::Nothing)
            } else if c == 'R' {
                (spec_split_active(v, Direction::Horizontal, false), EffectView::Nothing)
            } else if c == 'L' {
                (spec_split_active(v, Direction::Horizontal, true), EffectView::Nothing)
            } else if c == 'X' {
                (spec_close_active(v), EffectView::Nothing)
            } else {
                let (root2, e) = update_tree(v.root, v.active_pane_id, PaneAction::Key(k));
                (AppView { root: root2, ..v }, e)
            },
            KeyCode::Esc => (AppView { show_quit_popup: true, ..v }, EffectView::Nothing),
            KeyCode::Tab => (spec_cycle_focus(v), EffectView::Nothing),
            _ => {
                let (root2, e) = update_tree(v.root, v.active_pane_id, PaneAction::Key(k));
                (AppView { root: root2, ..v }, e)
            }
        }
    }
}

/// The mouse router: modal dialogs swallow mouse input; otherwise the
/// leaf under the cursor (if any) takes focus on a press or scroll, and
/// the event is forwarded to the active pane's handler.
pub open spec fn spec_handle_mouse(v: AppView, m: MouseEvent) -> (AppView, EffectView) {
    if v.show_quit_popup || v.show_help_popup {
        (v, EffectView::Nothing)
    } else {
        match first_hit(leaves(v.root), m.column, m.row) {
            Some(id) => {
                let active2 = if m.kind == MouseEventKind::Down || m.kind
                    == MouseEventKind::ScrollUp || m.kind == MouseEventKind::ScrollDown {
                    id
                } else {
                    v.active_pane_id
                };
                let (root2, e) = update_tree(v.root, active2, PaneAction::Mouse(m));
                (AppView { root: root2, active_pane_id: active2, ..v }, e)
            }
            None => (v, EffectView::Nothing),
        }
    }
}

/// One step of the session state machine.
pub open spec fn spec_handle_event(v: AppView, ev: Event) -> (AppView, EffectView) {
    match ev {
        Event::Key(k) => spec_handle_key(v, k),
        Event::Mouse(m) => spec_handle_mouse(v, m),
        Event::Other => (v, EffectView::Nothing),
    }
}

impl App {
    /// A fresh session: one default pane with id 0, focused, no dialogs.
    pub fn new() -> (app: App)
        ensures
            app@ == initial_app(),
            app@.inv(),
    {
        let app = App {
            root: PaneNode::Pane(FractalPane::new(0)),
            active_pane_id: 0,
            next_id: 1,
            should_quit: false,
            show_quit_popup: false,
            show_help_popup: false,
        };
        proof {
            assert(leaf_ids(app@.root) =~= seq![0usize]);
            assert(leaf_ids(app@.root)[0] == 0usize);
        }
        app
    }

    /// The depth-first sequence of leaf ids.
    pub fn collect_ids(&self) -> (ids: Vec<usize>)
        ensures
            ids@ == leaf_ids(self@.root),
    {
        let mut ids: Vec<usize> = Vec::new();
        collect_ids(&self.root, &mut ids);
        proof {
            assert(ids@ =~= leaf_ids(self@.root));
        }
        ids
    }

    /// Whether a leaf with id `target` exists.
    pub fn pane_exists(&self, target: usize) -> (r: bool)
        ensures
            r == contains_id(self@.root, target),
    {
        let ids = self.collect_ids();
        let mut i: usize = 0;
        let mut found = false;
        while i < ids.len()
            invariant
                i <= ids.len(),
                ids@ == leaf_ids(self@.root),
                found == exists|j: int| 0 <= j < i && ids@[j] == target,
            decreases ids.len() - i,
        {
            if ids[i] == target {
                found = true;
                proof {
                    assert(ids@[i as int] == target);
                }
            }
            i = i + 1;
        }
        proof {
            if found {
                let j = choose|j: int| 0 <= j < ids@.len() && ids@[j] == target;
                assert(leaf_ids(self@.root).contains(target));
            }
            if leaf_ids(self@.root).contains(target) {
                let j = choose|j: int|
                    0 <= j < leaf_ids(self@.root).len() && leaf_ids(self@.root)[j] == target;
                assert(ids@[j] == target);
            }
        }
        found
    }

    /// The first leaf, in depth-first order, whose last-rendered rectangle
    /// contains the cell `(col, row)`.
    pub fn find_pane_at(&self, col: u16, row: u16) -> (r: Option<usize>)
        ensures
            r == first_hit(leaves(self@.root), col, row),
    {
        recursive_find_at(&self.root, col, row)
    }

    /// Whether the active pane holds an open text-entry field; while it
    /// does, it captures all keyboard input.
    pub fn is_active_pane_capturing_input(&self) -> (r: bool)
        ensures
            r == any_capturing(leaves(self@.root), self@.active_pane_id),
    {
        recursive_is_capturing(&self.root, self.active_pane_id)
    }

    /// Delivers an action to the leaf with id `target`.
    fn apply_to_pane(&mut self, target: usize, action: PaneAction) -> (eff: Effect)
        ensures
            final(self)@ == (AppView {
                root: update_tree(old(self)@.root, target, action).0,
                ..old(self)@
            }),
            eff@ == update_tree(old(self)@.root, target, action).1,
            old(self)@.inv() ==> final(self)@.inv(),
    {
        proof {
            lemma_update_preserves_inv(old(self)@, target, action);
        }
        let mut tmp = PaneNode::Pane(FractalPane::new(0));
        core::mem::swap(&mut tmp, &mut self.root);
        let (r2, eff) = update_leaf(tmp, target, action);
        self.root = r2;
        eff
    }

    /// Routes a key press to the active pane's local handler.
    pub fn send_key_to_active(&mut self, key: KeyCode) -> (eff: Effect)
        ensures
            final(self)@ == (AppView {
                root: update_tree(old(self)@.root, old(self)@.active_pane_id, PaneAction::Key(key)).0,
                ..old(self)@
            }),
            eff@ == update_tree(
                old(self)@.root,
                old(self)@.active_pane_id,
                PaneAction::Key(key),
            ).1,
            old(self)@.inv() ==> final(self)@.inv(),
    {
        let target = self.active_pane_id;
        self.apply_to_pane(target, PaneAction::Key(key))
    }

    /// Routes a mouse event to the active pane's local handler.
    pub fn pass_mouse_to_active(&mut self, mouse: MouseEvent) -> (eff: Effect)
        ensures
            final(self)@ == (AppView {
                root: update_tree(
                    old(self)@.root,
                    old(self)@.active_pane_id,
                    PaneAction::Mouse(mouse),
                ).0,
                ..old(self)@
            }),
            eff@ == update_tree(
                old(self)@.root,
                old(self)@.active_pane_id,
                PaneAction::Mouse(mouse),
            ).1,
            old(self)@.inv() ==> final(self)@.inv(),
    {
        let target = self.active_pane_id;
        self.apply_to_pane(target, PaneAction::Mouse(mouse))
    }

    /// Installs center and scale bits the front end computed for the pane
    /// with id `id` (a pan, a keyboard zoom, or a cursor-anchored zoom).
    pub fn set_center_scale(&mut self, id: usize, cx: u64, cy: u64, scale: u64)
        ensures
            final(self)@ == (AppView {
                root: update_tree(
                    old(self)@.root,
                    id,
                    PaneAction::SetCenterScale { cx, cy, scale },
                ).0,
                ..old(self)@
            }),
            old(self)@.inv() ==> final(self)@.inv(),
    {
        let _ = self.apply_to_pane(id, PaneAction::SetCenterScale { cx, cy, scale });
    }

    /// Commits one part of the Julia constant of the pane with id `id`,
    /// after the front end parsed a text entry successfully.
    pub fn set_julia_bits(&mut self, id: usize, field: InputField, bits: u64)
        ensures
            final(self)@ == (AppView {
                root: update_tree(old(self)@.root, id, PaneAction::SetJulia { field, bits }).0,
                ..old(self)@
            }),
            old(self)@.inv() ==> final(self)@.inv(),
    {
        let _ = self.apply_to_pane(id, PaneAction::SetJulia { field, bits });
    }

    /// Non-finite-bounds recovery for the pane with id `id`: center and
    /// scale return to their defaults before the pane is sampled again.
    pub fn reset_view(&mut self, id: usize)
        ensures
            final(self)@ == (AppView {
                root: update_tree(old(self)@.root, id, PaneAction::ResetView).0,
                ..old(self)@
            }),
            old(self)@.inv() ==> final(self)@.inv(),
    {
        let _ = self.apply_to_pane(id, PaneAction::ResetView);
    }

    /// Records where the rendering pass just placed each leaf: `rects[i]`
    /// becomes the rectangle of the `i`-th leaf in depth-first order.
    pub fn assign_areas(&mut self, rects: &Vec<Rect>)
        requires
            rects@.len() == leaf_ids(old(self)@.root).len(),
        ensures
            final(self)@ == (AppView {
                root: spec_assign(old(self)@.root, rects@, 0),
                ..old(self)@
            }),
            old(self)@.inv() ==> final(self)@.inv(),
    {
        proof {
            if old(self)@.inv() {
                lemma_assign(old(self)@.root, rects@, 0);
                lemma_assign_keeps_order(old(self)@.root, rects@, 0);
            }
        }
        let mut tmp = PaneNode::Pane(FractalPane::new(0));
        core::mem::swap(&mut tmp, &mut self.root);
        let (r2, _n) = assign_areas_node(tmp, rects, 0);
        self.root = r2;
    }

    /// Splits the active pane: its state is cloned into one child, a fresh
    /// default pane with a new id becomes the other child and takes focus.
    pub fn split_active(&mut self, direction: Direction, prepend: bool)
        requires
            old(self)@.next_id < usize::MAX,
        ensures
            final(self)@ == spec_split_active(old(self)@, direction, prepend),
            old(self)@.inv() ==> final(self)@.inv(),
    {
        proof {
            if old(self)@.inv() {
                lemma_split_preserves_inv(old(self)@, direction, prepend);
            }
        }
        let new_id = self.next_id;
        self.next_id = self.next_id + 1;
        let new_pane = FractalPane::new(new_id);
        let mut tmp = PaneNode::Pane(FractalPane::new(0));
        core::mem::swap(&mut tmp, &mut self.root);
        let (r2, found) = recursive_split(tmp, self.active_pane_id, direction, prepend, new_pane);
        self.root = r2;
        if found {
            self.active_pane_id = new_id;
        }
    }

    /// Closes the active pane: a no-op when only one leaf remains;
    /// otherwise the leaf is removed, a split left with one child
    /// collapses, and a dead focus falls back to the last leaf in
    /// depth-first order.
    pub fn close_active(&mut self)
        ensures
            final(self)@ == spec_close_active(old(self)@),
            old(self)@.inv() ==> final(self)@.inv(),
    {
        proof {
            if old(self)@.inv() {
                lemma_close_preserves_inv(old(self)@);
            }
        }
        let ids = self.collect_ids();
        if ids.len() <= 1 {
            return;
        }
        let mut tmp = PaneNode::Pane(FractalPane::new(0));
        core::mem::swap(&mut tmp, &mut self.root);
        let (r2, found) = recursive_delete(tmp, self.active_pane_id);
        if found {
            self.root = collapse_node(r2);
        } else {
            self.root = r2;
        }
        if !self.pane_exists(self.active_pane_id) {
            let new_ids = self.collect_ids();
            if new_ids.len() > 0 {
                self.active_pane_id = new_ids[new_ids.len() - 1];
                proof {
                    assert(new_ids@[new_ids@.len() - 1] == leaf_ids(self@.root).last());
                }
            }
        }
    }

    /// Moves the focus to the next leaf in depth-first order, wrapping.
    pub fn cycle_focus(&mut self)
        ensures
            final(self)@ == spec_cycle_focus(old(self)@),
            old(self)@.inv() ==> final(self)@.inv(),
    {
        let ids = self.collect_ids();
        proof {
            lemma_first_index_char(ids@, self@.active_pane_id);
        }
        let mut i: usize = 0;
        let mut pos: usize = 0;
        let mut found = false;
        #[verifier::loop_isolation(false)]
        while i < ids.len()
            invariant
                i <= ids.len(),
                found ==> pos < i && ids@[pos as int] == old(self)@.active_pane_id && (forall|
                    j: int,
                |
                    0 <= j < pos ==> ids@[j] != old(self)@.active_pane_id),
                !found ==> forall|j: int| 0 <= j < i ==> ids@[j] != old(self)@.active_pane_id,
            decreases ids.len() - i,
        {
            if ids[i] == self.active_pane_id && !found {
                found = true;
                pos = i;
            }
            i = i + 1;
        }
        if found {
            proof {
                assert(first_index(ids@, old(self)@.active_pane_id) == pos as int);
            }
            let next_pos = (pos + 1) % ids.len();
            self.active_pane_id = ids[next_pos];
            proof {
                if old(self)@.inv() {
                    assert(leaf_ids(self@.root).contains(self@.active_pane_id)) by {
                        assert(leaf_ids(self@.root)[next_pos as int] == self@.active_pane_id);
                    }
                }
            }
        } else {
            proof {
                assert(first_index(ids@, old(self)@.active_pane_id) == -1);
            }
        }
    }
}

/// One step of the session: applies an input event to the session state
/// and returns the floating-point work, if any, that the front end must
/// perform before the next frame.
impl App {
    pub fn handle_event(&mut self, event: Event) -> (eff: Effect)
        requires
            old(self)@.inv(),
            old(self)@.next_id < usize::MAX,
        ensures
            (final(self)@, eff@) == spec_handle_event(old(self)@, event),
            final(self)@.inv(),
    {
    match event {
        Event::Key(key) => {
            if self.show_quit_popup {
                match key {
                    KeyCode::Char(c) => {
                        if c == 'y' || c == 'Y' {
                            self.should_quit = true;
                        } else if c == 'n' || c == 'N' {
                            self.show_quit_popup = false;
                        }
                    }
                    KeyCode::Esc => {
                        self.show_quit_popup = false;
                    }
                    _ => {}
                }
                Effect::Nothing
            } else if self.show_help_popup {
                match key {
                    KeyCode::Esc => {
                        self.show_help_popup = false;
                    }
                    KeyCode::Char(c) => {
                        if c == 'h' || c == 'q' {
                            self.show_help_popup = false;
                        }
                    }
                    _ => {}
                }
                Effect::Nothing
            } else if self.is_active_pane_capturing_input() {
                self.send_key_to_active(key)
            } else {
                match key {
                    KeyCode::Char(c) => {
                        let u = c as u32;
                        if ('1' as u32) <= u && u <= ('9' as u32) {
                            let idx = (u - ('1' as u32)) as usize;
                            proof {
                                assert(idx as int == digit_index(c));
                            }
                            let ids = self.collect_ids();
                            if idx < ids.len() {
                                self.active_pane_id = ids[idx];
                                proof {
                                    assert(leaf_ids(self@.root).contains(self@.active_pane_id)) by {
                                        assert(leaf_ids(self@.root)[idx as int]
                                            == self@.active_pane_id);
                                    }
                                }
                            }
                            Effect::Nothing
                        } else if c == 'q' {
                            self.show_quit_popup = true;
                            Effect::Nothing
                        } else if c == 'h' {
                            self.show_help_popup = true;
                            Effect::Nothing
                        } else if c == 'D' {
                            self.split_active(Direction::Vertical, false);
                            Effect::Nothing
                        } else if c == 'U' {
                            self.split_active(Direction::Vertical, true);
                            Effect::Nothing
                        } else if c == 'R' {
                            self.split_active(Direction::Horizontal, false);
                            Effect::Nothing
                        } else if c == 'L' {
                            self.split_active(Direction::Horizontal, true);
                            Effect::Nothing
                        } else if c == 'X' {
                            self.close_active();
                            Effect::Nothing
                        } else {
                            self.send_key_to_active(key)
                        }
                    }
                    KeyCode::Esc => {
                        self.show_quit_popup = true;
                        Effect::Nothing
                    }
                    KeyCode::Tab => {
                        self.cycle_focus();
                        Effect::Nothing
                    }
                    _ => self.send_key_to_active(key),
                }
            }
        }
        Event::Mouse(mouse) => {
            if self.show_quit_popup || self.show_help_popup {
                Effect::Nothing
            } else {
                match self.find_pane_at(mouse.column, mouse.row) {
                    Some(id) => {
                        proof {
                            crate::tree::lemma_first_hit_is_leaf(
                                leaves(self@.root),
                                mouse.column,
                                mouse.row,
                            );
                            let i = choose|i: int|
                                0 <= i < leaves(self@.root).len() && #[trigger] leaves(
                                    self@.root,
                                )[i].id == id;
                            assert(leaf_ids(self@.root)[i] == id);
                            assert(contains_id(self@.root, id));
                        }
                        match mouse.kind {
                            MouseEventKind::Down
                            | MouseEventKind::ScrollUp
                            | MouseEventKind::ScrollDown => {
                                self.active_pane_id = id;
                            }
                            _ => {}
                        }
                        self.pass_mouse_to_active(mouse)
                    }
                    None => Effect::Nothing,
                }
            }
        }
        Event::Other => Effect::Nothing,
    }
}
}

/// A well-formed session always shows at least one pane, and never a
/// degenerate split: an invariant every operation of the session keeps.
pub proof fn lemma_invariant_leaf_exists(v: AppView)
    requires
        v.inv(),
    ensures
        leaf_ids(v.root).len() >= 1,
        wf(v.root),
{
    crate::tree::lemma_leaves_nonempty(v.root);
}

/// Round trip: splitting the active pane and immediately closing the new
/// one restores the tree exactly, and the focus returns to the original
/// pane whenever it is the last leaf in depth-first order — in particular
/// in a single-leaf session.
pub proof fn lemma_split_close_restores(v: AppView, direction: Direction, prepend: bool)
    requires
        v.inv(),
        v.next_id < usize::MAX,
    ensures
        ({
            let v2 = spec_close_active(spec_split_active(v, direction, prepend));
            &&& v2.root == v.root
            &&& v2.next_id == v.next_id + 1
            &&& v2.active_pane_id == leaf_ids(v.root).last()
            &&& (leaf_ids(v.root).len() == 1 ==> v2.active_pane_id == v.active_pane_id)
        }),
{
    let fresh = default_pane(v.next_id);
    let ids = leaf_ids(v.root);
    assert(!contains_id(v.root, fresh.id)) by {
        if contains_id(v.root, fresh.id) {
            let i = choose|i: int| 0 <= i < ids.len() && ids[i] == fresh.id;
        }
    }
    assert(fresh.id != v.active_pane_id) by {
        let i = choose|i: int| 0 <= i < ids.len() && ids[i] == v.active_pane_id;
    }
    crate::tree::lemma_split_close_round_trip(
        v.root,
        v.active_pane_id,
        direction,
        prepend,
        fresh,
    );
    let v1 = spec_split_active(v, direction, prepend);
    let t1 = v1.root;
    let j = lemma_split_tree(v.root, v.active_pane_id, direction, prepend, fresh);
    assert(leaves(t1).len() == ids.len() + 1);
    assert(leaf_ids(t1).len() >= 2);
    assert(v1.active_pane_id == fresh.id);
    let (t2, f) = spec_delete(t1, fresh.id);
    assert(f && collapse1(t2) == v.root);
    let v2 = spec_close_active(v1);
    assert(v2.root == v.root);
    assert(!contains_id(v.root, fresh.id));
    crate::tree::lemma_leaves_nonempty(v.root);
    assert(v2.active_pane_id == ids.last());
    if ids.len() == 1 {
        let i = choose|i: int| 0 <= i < ids.len() && ids[i] == v.active_pane_id;
        assert(i == 0);
        assert(ids.last() == v.active_pane_id);
    }
}

/// Collapse: closing one child of a two-child split leaves exactly the
/// surviving child, never a one-child split.
pub proof fn lemma_close_collapses_pair(d: Direction, survivor: NodeView, closed: crate::pane::PaneView)
    requires
        wf(survivor),
        !contains_id(survivor, closed.id),
    ensures
        collapse1(
            spec_delete(
                NodeView::Split { direction: d, children: seq![survivor, NodeView::Leaf(closed)] },
                closed.id,
            ).0,
        ) == survivor,
        collapse1(
            spec_delete(
                NodeView::Split { direction: d, children: seq![NodeView::Leaf(closed), survivor] },
                closed.id,
            ).0,
        ) == survivor,
{
    // Closing the second child.
    let cs_a = seq![survivor, NodeView::Leaf(closed)];
    assert(!crate::tree::is_target_leaf(cs_a[0], closed.id)) by {
        if survivor is Leaf {
            let q = survivor->Leaf_0;
            assert(leaf_ids(survivor) =~= seq![q.id]);
            if q.id == closed.id {
                assert(leaf_ids(survivor)[0] == closed.id);
            }
        }
    }
    let tail_a = cs_a.subrange(1, 2);
    assert(tail_a.len() == 1 && tail_a[0] == cs_a[1]);
    assert(crate::tree::is_target_leaf(cs_a[1], closed.id));
    assert(crate::tree::first_leaf_pos(tail_a, closed.id) == 0);
    assert(crate::tree::first_leaf_pos(cs_a, closed.id) == 1);
    assert(cs_a.remove(1) =~= seq![survivor]);
    // Closing the first child.
    let cs_b = seq![NodeView::Leaf(closed), survivor];
    assert(crate::tree::is_target_leaf(cs_b[0], closed.id));
    assert(crate::tree::first_leaf_pos(cs_b, closed.id) == 0);
    assert(cs_b.remove(0) =~= seq![survivor]);
}

/// Delivering an action to a pane leaves the session invariant intact:
/// the tree's shape and id order are untouched.
pub proof fn lemma_update_preserves_inv(v: AppView, target: usize, a: PaneAction)
    ensures
        v.inv() ==> (AppView { root: update_tree(v.root, target, a).0, ..v }).inv(),
{
    if v.inv() {
        lemma_update_tree(v.root, target, a);
        lemma_update_keeps_order(v.root, target, a);
    }
}

/// Splitting preserves the session invariant: the fresh id is unique by
/// construction and becomes the focus.
pub proof fn lemma_split_preserves_inv(v: AppView, direction: Direction, prepend: bool)
    requires
        v.inv(),
        v.next_id < usize::MAX,
    ensures
        spec_split_active(v, direction, prepend).inv(),
{
    let fresh = default_pane(v.next_id);
    let j = lemma_split_tree(v.root, v.active_pane_id, direction, prepend, fresh);
    let t2 = split_tree(v.root, v.active_pane_id, direction, prepend, fresh);
    let ls = leaves(v.root);
    let l2 = leaves(t2);
    let ids = leaf_ids(v.root);
    let ids2 = leaf_ids(t2);
    let jj: int = if prepend {
        j
    } else {
        j + 1
    };
    assert(l2 =~= ls.insert(jj, fresh)) by {
        ls.insert_ensures(jj, fresh);
        assert(l2 == ls.subrange(0, j) + pair_views(ls[j], fresh, prepend) + ls.subrange(
            j + 1,
            ls.len() as int,
        ));
    }
    ls.insert_ensures(jj, fresh);
    assert(forall|i: int| 0 <= i < ids.len() ==> #[trigger] ids[i] == ls[i].id);
    assert(forall|i: int| 0 <= i < ids2.len() ==> #[trigger] ids2[i] == l2[i].id);
    // Each position holds either an old pane or the fresh one.
    assert(forall|i: int|
        0 <= i < l2.len() ==> #[trigger] l2[i] == (if i < jj {
            ls[i]
        } else if i == jj {
            fresh
        } else {
            ls[i - 1]
        }));
    assert(ids2[jj] == v.next_id);
    assert(contains_id(t2, v.next_id));
    assert forall|i: int| 0 <= i < ids2.len() implies #[trigger] ids2[i] < v.next_id + 1 by {
        if i < jj {
            assert(ids2[i] == ls[i].id && ids[i] == ls[i].id && ids[i] < v.next_id);
        } else if i == jj {
            assert(ids2[i] == v.next_id);
        } else {
            assert(ids2[i] == ls[i - 1].id && ids[i - 1] == ls[i - 1].id && ids[i - 1]
                < v.next_id);
        }
    }
    assert(ids2.no_duplicates()) by {
        assert forall|i1: int, i2: int|
            0 <= i1 < ids2.len() && 0 <= i2 < ids2.len() && i1 != i2 implies ids2[i1]
            != ids2[i2] by {
            let m1: int = if i1 < jj {
                i1
            } else {
                i1 - 1
            };
            let m2: int = if i2 < jj {
                i2
            } else {
                i2 - 1
            };
            if i1 == jj {
                assert(ids2[i1] == v.next_id);
                assert(ids2[i2] == ls[m2].id && ids[m2] == ls[m2].id && ids[m2] < v.next_id);
            } else if i2 == jj {
                assert(ids2[i2] == v.next_id);
                assert(ids2[i1] == ls[m1].id && ids[m1] == ls[m1].id && ids[m1] < v.next_id);
            } else {
                assert(ids2[i1] == ls[m1].id && ids[m1] == ls[m1].id);
                assert(ids2[i2] == ls[m2].id && ids[m2] == ls[m2].id);
                assert(m1 != m2);
                assert(ids[m1] != ids[m2]);
            }
        }
    }
}

/// Closing preserves the session invariant: the surviving leaves keep
/// their unique ids and the focus lands on an existing leaf.
pub proof fn lemma_close_preserves_inv(v: AppView)
    requires
        v.inv(),
    ensures
        spec_close_active(v).inv(),
{
    let ids = leaf_ids(v.root);
    if ids.len() <= 1 {
    } else {
        assert(v.root is Split) by {
            match v.root {
                NodeView::Leaf(p) => {
                    assert(leaves(v.root) =~= seq![p]);
                }
                NodeView::Split { .. } => {}
            }
        }
        let j = lemma_delete_tree(v.root, v.active_pane_id);
        let (t2, f) = spec_delete(v.root, v.active_pane_id);
        assert(f);
        let root2 = collapse1(t2);
        let ls = leaves(v.root);
        let l2 = leaves(root2);
        assert(l2 == ls.subrange(0, j) + ls.subrange(j + 1, ls.len() as int));
        assert(l2 =~= ls.remove(j));
        ls.remove_ensures(j);
        let ids2 = leaf_ids(root2);
        assert(forall|i: int| 0 <= i < ids.len() ==> #[trigger] ids[i] == ls[i].id);
        assert(forall|i: int| 0 <= i < ids2.len() ==> #[trigger] ids2[i] == l2[i].id);
        assert(forall|i: int|
            0 <= i < l2.len() ==> #[trigger] l2[i] == (if i < j {
                ls[i]
            } else {
                ls[i + 1]
            }));
        assert(ids2.no_duplicates()) by {
            assert forall|i1: int, i2: int|
                0 <= i1 < ids2.len() && 0 <= i2 < ids2.len() && i1 != i2 implies ids2[i1]
                != ids2[i2] by {
                let m1: int = if i1 < j {
                    i1
                } else {
                    i1 + 1
                };
                let m2: int = if i2 < j {
                    i2
                } else {
                    i2 + 1
                };
                assert(ids2[i1] == ls[m1].id && ids[m1] == ls[m1].id);
                assert(ids2[i2] == ls[m2].id && ids[m2] == ls[m2].id);
                assert(m1 != m2);
                assert(ids[m1] != ids[m2]);
            }
        }
        assert forall|i: int| 0 <= i < ids2.len() implies #[trigger] ids2[i] < v.next_id by {
            let m: int = if i < j {
                i
            } else {
                i + 1
            };
            assert(ids2[i] == ls[m].id && ids[m] == ls[m].id && ids[m] < v.next_id);
        }
        // The focus died with the removed leaf: ids are unique, so no other
        // leaf carries it, and the last leaf takes over.
        assert(!contains_id(root2, v.active_pane_id)) by {
            if contains_id(root2, v.active_pane_id) {
                let i = choose|i: int| 0 <= i < ids2.len() && ids2[i] == v.active_pane_id;
                let i0: int = if i < j {
                    i
                } else {
                    i + 1
                };
                assert(ids[i0] == v.active_pane_id);
                assert(ids[j] == v.active_pane_id);
            }
        }
        assert(l2.len() >= 1);
        let v2 = spec_close_active(v);
        assert(v2.active_pane_id == ids2.last());
        assert(contains_id(root2, ids2.last())) by {
            assert(ids2[ids2.len() - 1] == ids2.last());
        }
    }
}

} // verus!
