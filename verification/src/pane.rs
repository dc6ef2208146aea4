//! One viewport: its view parameters, selectors, text-entry state, and the
//! local handlers for keys and mouse events.
//!
//! The view center, scale and Julia constant are `f64` values owned by the
//! front end; the pane stores their IEEE-754 bit patterns, so cloning,
//! resetting and committing them is verified while the floating-point
//! transforms themselves (pan, zoom, parsing) run outside the library and
//! come back as bits.  A handler therefore returns an [`Effect`]: the
//! floating-point work the front end must perform on this pane, if any.

use vstd::prelude::*;

use crate::color::{next_palette, Palette};
use crate::geom::{sat_sub, sat_sub_u16, Rect};
use crate::input::{KeyCode, MouseEvent, MouseEventKind};

verus! {

/// Default iteration cap of a fresh pane.
pub const MAX_ITER_DEFAULT: u32 = 1100;

/// Floor of the iteration cap; `s` never lowers it further.
pub const MIN_ITERS: u32 = 10;

/// IEEE-754 bits of `-0.75`, the default view center's horizontal part.
pub const DEFAULT_CENTER_X_BITS: u64 = 0xBFE8_0000_0000_0000;

/// IEEE-754 bits of `0.0`, the default view center's vertical part.
pub const DEFAULT_CENTER_Y_BITS: u64 = 0x0000_0000_0000_0000;

/// IEEE-754 bits of `3.0`, the default scale (window height in math units).
pub const DEFAULT_SCALE_BITS: u64 = 0x4008_0000_0000_0000;

/// IEEE-754 bits of `-0.5125`, the default Julia constant's real part.
pub const DEFAULT_JULIA_CX_BITS: u64 = 0xBFE0_6666_6666_6666;

/// IEEE-754 bits of `0.5213`, the default Julia constant's imaginary part.
pub const DEFAULT_JULIA_CY_BITS: u64 = 0x3FE0_AE7D_566C_F41F;

/// The fractal family a pane renders.
#[derive(Clone, Copy, Debug, PartialEq, Eq, Structural)]
pub enum FractalType {
    Mandelbrot,
    BurningShip,
    Julia,
}

/// Which part of the Julia constant a text-entry field edits.
#[derive(Clone, Copy, Debug, PartialEq, Eq, Structural)]
pub enum InputField {
    Cx,
    Cy,
}

/// The family after `t` in the `b` cycle; the cycle is closed and ordered
/// as the variants are declared.
pub open spec fn next_fractal_type(t: FractalType) -> FractalType {
    match t {
        FractalType::Mandelbrot => FractalType::BurningShip,
        FractalType::BurningShip => FractalType::Julia,
        FractalType::Julia => FractalType::Mandelbrot,
    }
}

/// One leaf viewport.
pub struct FractalPane {
    /// Unique id; assigned once, never reused.
    pub id: usize,
    /// IEEE-754 bits of the view center's horizontal part.
    pub center_x_bits: u64,
    /// IEEE-754 bits of the view center's vertical part.
    pub center_y_bits: u64,
    /// IEEE-754 bits of the scale: the visible window's height in math units.
    pub scale_bits: u64,
    pub palette: Palette,
    pub fractal_type: FractalType,
    /// Iteration cap of the escape-time kernel; at least [`MIN_ITERS`].
    pub max_iters: u32,
    /// The screen rectangle this pane was last rendered into; written by the
    /// rendering pass, read by hit-testing.
    pub area: Rect,
    /// IEEE-754 bits of the Julia constant's real part.
    pub julia_cx_bits: u64,
    /// IEEE-754 bits of the Julia constant's imaginary part.
    pub julia_cy_bits: u64,
    /// The text-entry field currently capturing input, if any.
    pub active_input: Option<InputField>,
    /// Characters typed into the active text-entry field.
    pub input_buffer: Vec<char>,
}

/// The pane as a mathematical value: the same fields, with the edit buffer
/// as a sequence of characters.
pub struct PaneView {
    pub id: usize,
    pub center_x_bits: u64,
    pub center_y_bits: u64,
    pub scale_bits: u64,
    pub palette: Palette,
    pub fractal_type: FractalType,
    pub max_iters: u32,
    pub area: Rect,
    pub julia_cx_bits: u64,
    pub julia_cy_bits: u64,
    pub active_input: Option<InputField>,
    pub input_buffer: Seq<char>,
}

impl View for FractalPane {
    type V = PaneView;

    open spec fn view(&self) -> PaneView {
        PaneView {
            id: self.id,
            center_x_bits: self.center_x_bits,
            center_y_bits: self.center_y_bits,
            scale_bits: self.scale_bits,
            palette: self.palette,
            fractal_type: self.fractal_type,
            max_iters: self.max_iters,
            area: self.area,
            julia_cx_bits: self.julia_cx_bits,
            julia_cy_bits: self.julia_cy_bits,
            active_input: self.active_input,
            input_buffer: self.input_buffer@,
        }
    }
}

/// The state a fresh pane with id `id` starts in.
pub open spec fn default_pane(id: usize) -> PaneView {
    PaneView {
        id: id,
        center_x_bits: DEFAULT_CENTER_X_BITS,
        center_y_bits: DEFAULT_CENTER_Y_BITS,
        scale_bits: DEFAULT_SCALE_BITS,
        palette: Palette::Classic,
        fractal_type: FractalType::Mandelbrot,
        max_iters: MAX_ITER_DEFAULT,
        area: Rect::spec_zero(),
        julia_cx_bits: DEFAULT_JULIA_CX_BITS,
        julia_cy_bits: DEFAULT_JULIA_CY_BITS,
        active_input: None,
        input_buffer: Seq::empty(),
    }
}

/// A pan direction, one key press worth.
#[derive(Clone, Copy, Debug, PartialEq, Eq, Structural)]
pub enum PanDir {
    Left,
    Right,
    Up,
    Down,
}

/// Floating-point work a handler asks the front end to perform.
///
/// The front end executes it on the named pane's bits and writes results
/// back through the session's verified setters.
pub enum Effect {
    /// Nothing to do.
    Nothing,
    /// Move the view center by a tenth of the scale in the given direction.
    Pan { id: usize, dir: PanDir },
    /// Multiply the scale by the zoom factor, center unchanged.
    ZoomIn { id: usize },
    /// Divide the scale by the zoom factor, center unchanged.
    ZoomOut { id: usize },
    /// Cursor-anchored zoom at the given cell of the pane's rectangle.
    Scroll { id: usize, area: Rect, column: u16, row: u16, zoom_in: bool },
    /// Parse the text as a real number and, on success, commit it into the
    /// named part of the pane's Julia constant.
    Parse { id: usize, field: InputField, text: Vec<char> },
}

/// [`Effect`] as a mathematical value.
pub enum EffectView {
    Nothing,
    Pan { id: usize, dir: PanDir },
    ZoomIn { id: usize },
    ZoomOut { id: usize },
    Scroll { id: usize, area: Rect, column: u16, row: u16, zoom_in: bool },
    Parse { id: usize, field: InputField, text: Seq<char> },
}

impl View for Effect {
    type V = EffectView;

    open spec fn view(&self) -> EffectView {
        match self {
            Effect::Nothing => EffectView::Nothing,
            Effect::Pan { id, dir } => EffectView::Pan { id: *id, dir: *dir },
            Effect::ZoomIn { id } => EffectView::ZoomIn { id: *id },
            Effect::ZoomOut { id } => EffectView::ZoomOut { id: *id },
            Effect::Scroll { id, area, column, row, zoom_in } => EffectView::Scroll {
                id: *id,
                area: *area,
                column: *column,
                row: *row,
                zoom_in: *zoom_in,
            },
            Effect::Parse { id, field, text } => EffectView::Parse {
                id: *id,
                field: *field,
                text: text@,
            },
        }
    }
}

/// A character the text-entry field accepts: a decimal digit, a period, or
/// a minus sign.
pub open spec fn spec_is_input_char(c: char) -> bool {
    ||| ('0' as u32) <= (c as u32) <= ('9' as u32)
    ||| c == '.'
    ||| c == '-'
}

pub fn is_input_char(c: char) -> (r: bool)
    ensures
        r == spec_is_input_char(c),
{
    let u = c as u32;
    (('0' as u32) <= u && u <= ('9' as u32)) || c == '.' || c == '-'
}

/// `p` with the text-entry field closed and its buffer discarded.
pub open spec fn cleared_capture(p: PaneView) -> PaneView {
    PaneView { active_input: None, input_buffer: Seq::empty(), ..p }
}

/// `p` reset to the default view: center, scale, iteration cap and Julia
/// constant back to their defaults, any text entry discarded.  Id, palette,
/// family and rectangle stay.
pub open spec fn reset_view_state(p: PaneView) -> PaneView {
    PaneView {
        center_x_bits: DEFAULT_CENTER_X_BITS,
        center_y_bits: DEFAULT_CENTER_Y_BITS,
        scale_bits: DEFAULT_SCALE_BITS,
        max_iters: MAX_ITER_DEFAULT,
        julia_cx_bits: DEFAULT_JULIA_CX_BITS,
        julia_cy_bits: DEFAULT_JULIA_CY_BITS,
        active_input: None,
        input_buffer: Seq::empty(),
        ..p
    }
}

/// `n + 10`, saturating at `u32::MAX`.
pub open spec fn iters_raised(n: u32) -> u32 {
    if n + 10 > u32::MAX {
        u32::MAX
    } else {
        (n + 10) as u32
    }
}

/// `n - 10`, floored at [`MIN_ITERS`].
pub open spec fn iters_lowered(n: u32) -> u32 {
    if n <= 20 {
        MIN_ITERS
    } else {
        (n - 10) as u32
    }
}

/// What a key press does to a pane: the successor state and the
/// floating-point work handed to the front end.
///
/// While a text-entry field is active it captures every key: accepted
/// characters extend the buffer, backspace shortens it, enter closes the
/// field and hands the buffer out for parsing, escape discards it.
/// Otherwise arrows pan, `+`/`=` and `-`/`_` zoom, `r` resets the view,
/// space and `b` cycle palette and family, `d` and `s` raise and lower the
/// iteration cap.
pub open spec fn spec_on_key(p: PaneView, key: KeyCode) -> (PaneView, EffectView) {
    if p.active_input is Some {
        let field = p.active_input->0;
        match key {
            KeyCode::Char(c) => if spec_is_input_char(c) {
                (PaneView { input_buffer: p.input_buffer.push(c), ..p }, EffectView::Nothing)
            } else {
                (p, EffectView::Nothing)
            },
            KeyCode::Backspace => if p.input_buffer.len() > 0 {
                (
                    PaneView { input_buffer: p.input_buffer.drop_last(), ..p },
                    EffectView::Nothing,
                )
            } else {
                (p, EffectView::Nothing)
            },
            KeyCode::Enter => (
                cleared_capture(p),
                EffectView::Parse { id: p.id, field, text: p.input_buffer },
            ),
            KeyCode::Esc => (cleared_capture(p), EffectView::Nothing),
            _ => (p, EffectView::Nothing),
        }
    } else {
        match key {
            KeyCode::Left => (p, EffectView::Pan { id: p.id, dir: PanDir::Left }),
            KeyCode::Right => (p, EffectView::Pan { id: p.id, dir: PanDir::Right }),
            KeyCode::Up => (p, EffectView::Pan { id: p.id, dir: PanDir::Up }),
            KeyCode::Down => (p, EffectView::Pan { id: p.id, dir: PanDir::Down }),
            KeyCode::Char(c) => if c == '+' || c == '=' {
                (p, EffectView::ZoomIn { id: p.id })
            } else if c == '-' || c == '_' {
                (p, EffectView::ZoomOut { id: p.id })
            } else if c == 'r' {
                (reset_view_state(p), EffectView::Nothing)
            } else if c == ' ' {
                (PaneView { palette: next_palette(p.palette), ..p }, EffectView::Nothing)
            } else if c == 'b' {
                (
                    PaneView { fractal_type: next_fractal_type(p.fractal_type), ..p },
                    EffectView::Nothing,
                )
            } else if c == 'd' {
                (PaneView { max_iters: iters_raised(p.max_iters), ..p }, EffectView::Nothing)
            } else if c == 's' {
                (PaneView { max_iters: iters_lowered(p.max_iters), ..p }, EffectView::Nothing)
            } else {
                (p, EffectView::Nothing)
            },
            _ => (p, EffectView::Nothing),
        }
    }
}

/// The row of the click target editing the Julia constant's real part:
/// three rows above the pane rectangle's bottom edge.
pub open spec fn julia_cx_row(area: Rect) -> u16 {
    sat_sub_u16(area.spec_bottom(), 3)
}

/// The row of the click target editing the Julia constant's imaginary
/// part: two rows above the pane rectangle's bottom edge.
pub open spec fn julia_cy_row(area: Rect) -> u16 {
    sat_sub_u16(area.spec_bottom(), 2)
}

/// What a mouse event does to a pane once it has been routed here.
///
/// Events outside the pane's rectangle do nothing.  In a Julia pane the two
/// rows of click targets near the bottom edge open text entry on a press
/// and swallow everything else.  Anywhere else in the rectangle, scrolling
/// asks the front end for a cursor-anchored zoom.
pub open spec fn spec_on_mouse(p: PaneView, ev: MouseEvent) -> (PaneView, EffectView) {
    if !p.area.spec_contains(ev.column, ev.row) {
        (p, EffectView::Nothing)
    } else if p.fractal_type == FractalType::Julia && (ev.row == julia_cx_row(p.area) || ev.row
        == julia_cy_row(p.area)) {
        let field = if ev.row == julia_cx_row(p.area) {
            InputField::Cx
        } else {
            InputField::Cy
        };
        if ev.kind == MouseEventKind::Down {
            (
                PaneView { active_input: Some(field), input_buffer: Seq::empty(), ..p },
                EffectView::Nothing,
            )
        } else {
            (p, EffectView::Nothing)
        }
    } else {
        match ev.kind {
            MouseEventKind::ScrollUp => (
                p,
                EffectView::Scroll {
                    id: p.id,
                    area: p.area,
                    column: ev.column,
                    row: ev.row,
                    zoom_in: true,
                },
            ),
            MouseEventKind::ScrollDown => (
                p,
                EffectView::Scroll {
                    id: p.id,
                    area: p.area,
                    column: ev.column,
                    row: ev.row,
                    zoom_in: false,
                },
            ),
            _ => (p, EffectView::Nothing),
        }
    }
}

impl FractalPane {
    /// A fresh pane with id `id` and the default view.
    pub fn new(id: usize) -> (p: FractalPane)
        ensures
            p@ == default_pane(id),
    {
        FractalPane {
            id,
            center_x_bits: DEFAULT_CENTER_X_BITS,
            center_y_bits: DEFAULT_CENTER_Y_BITS,
            scale_bits: DEFAULT_SCALE_BITS,
            palette: Palette::Classic,
            fractal_type: FractalType::Mandelbrot,
            max_iters: MAX_ITER_DEFAULT,
            area: Rect::zero(),
            julia_cx_bits: DEFAULT_JULIA_CX_BITS,
            julia_cy_bits: DEFAULT_JULIA_CY_BITS,
            active_input: None,
            input_buffer: Vec::new(),
        }
    }

    /// Advance the palette one step along its cycle.
    pub fn toggle_palette(&mut self)
        ensures
            final(self)@ == (PaneView { palette: next_palette(old(self)@.palette), ..old(self)@ }),
    {
        self.palette = match self.palette {
            Palette::Classic => Palette::Rainbow,
            Palette::Rainbow => Palette::Magma,
            Palette::Magma => Palette::Classic,
        };
    }

    /// Advance the fractal family one step along its cycle.
    pub fn toggle_fractal_type(&mut self)
        ensures
            final(self)@ == (PaneView {
                fractal_type: next_fractal_type(old(self)@.fractal_type),
                ..old(self)@
            }),
    {
        self.fractal_type = match self.fractal_type {
            FractalType::Mandelbrot => FractalType::BurningShip,
            FractalType::BurningShip => FractalType::Julia,
            FractalType::Julia => FractalType::Mandelbrot,
        };
    }

    /// Handle a key press routed to this pane.
    pub fn on_key(&mut self, key: KeyCode) -> (eff: Effect)
        ensures
            (final(self)@, eff@) == spec_on_key(old(self)@, key),
    {
        if let Some(field) = self.active_input {
            match key {
                KeyCode::Char(c) => {
                    if is_input_char(c) {
                        self.input_buffer.push(c);
                    }
                    Effect::Nothing
                }
                KeyCode::Backspace => {
                    if self.input_buffer.len() > 0 {
                        self.input_buffer.pop();
                    }
                    Effect::Nothing
                }
                KeyCode::Enter => {
                    let mut text: Vec<char> = Vec::new();
                    core::mem::swap(&mut text, &mut self.input_buffer);
                    self.active_input = None;
                    Effect::Parse { id: self.id, field, text }
                }
                KeyCode::Esc => {
                    self.active_input = None;
                    self.input_buffer = Vec::new();
                    Effect::Nothing
                }
                _ => Effect::Nothing,
            }
        } else {
            match key {
                KeyCode::Left => Effect::Pan { id: self.id, dir: PanDir::Left },
                KeyCode::Right => Effect::Pan { id: self.id, dir: PanDir::Right },
                KeyCode::Up => Effect::Pan { id: self.id, dir: PanDir::Up },
                KeyCode::Down => Effect::Pan { id: self.id, dir: PanDir::Down },
                KeyCode::Char(c) => {
                    if c == '+' || c == '=' {
                        Effect::ZoomIn { id: self.id }
                    } else if c == '-' || c == '_' {
                        Effect::ZoomOut { id: self.id }
                    } else if c == 'r' {
                        self.center_x_bits = DEFAULT_CENTER_X_BITS;
                        self.center_y_bits = DEFAULT_CENTER_Y_BITS;
                        self.scale_bits = DEFAULT_SCALE_BITS;
                        self.max_iters = MAX_ITER_DEFAULT;
                        self.julia_cx_bits = DEFAULT_JULIA_CX_BITS;
                        self.julia_cy_bits = DEFAULT_JULIA_CY_BITS;
                        self.active_input = None;
                        self.input_buffer = Vec::new();
                        Effect::Nothing
                    } else if c == ' ' {
                        self.toggle_palette();
                        Effect::Nothing
                    } else if c == 'b' {
                        self.toggle_fractal_type();
                        Effect::Nothing
                    } else if c == 'd' {
                        self.max_iters = if self.max_iters <= u32::MAX - 10 {
                            self.max_iters + 10
                        } else {
                            u32::MAX
                        };
                        Effect::Nothing
                    } else if c == 's' {
                        self.max_iters = if self.max_iters <= 20 {
                            MIN_ITERS
                        } else {
                            self.max_iters - 10
                        };
                        Effect::Nothing
                    } else {
                        Effect::Nothing
                    }
                }
                _ => Effect::Nothing,
            }
        }
    }

    /// Handle a mouse event routed to this pane.
    pub fn on_mouse(&mut self, ev: MouseEvent) -> (eff: Effect)
        ensures
            (final(self)@, eff@) == spec_on_mouse(old(self)@, ev),
    {
        if !self.area.contains(ev.column, ev.row) {
            return Effect::Nothing;
        }
        if self.fractal_type == FractalType::Julia {
            let bottom = self.area.bottom();
            let cx_row = sat_sub(bottom, 3);
            let cy_row = sat_sub(bottom, 2);
            if ev.row == cx_row || ev.row == cy_row {
                let field = if ev.row == cx_row {
                    InputField::Cx
                } else {
                    InputField::Cy
                };
                if ev.kind == MouseEventKind::Down {
                    self.active_input = Some(field);
                    self.input_buffer = Vec::new();
                }
                return Effect::Nothing;
            }
        }
        match ev.kind {
            MouseEventKind::ScrollUp => Effect::Scroll {
                id: self.id,
                area: self.area,
                column: ev.column,
                row: ev.row,
                zoom_in: true,
            },
            MouseEventKind::ScrollDown => Effect::Scroll {
                id: self.id,
                area: self.area,
                column: ev.column,
                row: ev.row,
                zoom_in: false,
            },
            _ => Effect::Nothing,
        }
    }
}

impl Clone for FractalPane {
    /// A clone carries the pane's full state, edit buffer included.
    fn clone(&self) -> (p: FractalPane)
        ensures
            p@ == self@,
    {
        let buffer = clone_chars(&self.input_buffer);
        FractalPane {
            id: self.id,
            center_x_bits: self.center_x_bits,
            center_y_bits: self.center_y_bits,
            scale_bits: self.scale_bits,
            palette: self.palette,
            fractal_type: self.fractal_type,
            max_iters: self.max_iters,
            area: self.area,
            julia_cx_bits: self.julia_cx_bits,
            julia_cy_bits: self.julia_cy_bits,
            active_input: self.active_input,
            input_buffer: buffer,
        }
    }
}

/// An element-for-element copy of a character vector.
fn clone_chars(v: &Vec<char>) -> (r: Vec<char>)
    ensures
        r@ == v@,
{
    let mut r: Vec<char> = Vec::new();
    let mut i: usize = 0;
    while i < v.len()
        invariant
            i <= v.len(),
            r@ == v@.subrange(0, i as int),
        decreases v.len() - i,
    {
        r.push(v[i]);
        proof {
            assert(r@ =~= v@.subrange(0, i + 1));
        }
        i = i + 1;
    }
    proof {
        assert(r@ =~= v@);
    }
    r
}

} // verus!
