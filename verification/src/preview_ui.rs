//! Input handling and error combination of the Kitty preview panes.
use vstd::prelude::*;
use crate::text::{append_str, chars_of, push_str};
use crate::tui::{combined, unit_result_view};
use crate::kitty::{
    ascii, delete_image, delete_text, display_bytes, display_png, lemma_placement_inside, place_bytes, place_image,
    place_png, png_placement, ImageId, Rect, WindowSize,
};

verus! {

/// Combine a session result with a cleanup result, naming the cleanup step.
pub fn combine_with_context(primary: Result<(), String>, cleanup: Result<(), String>, context: &str) -> (r: Result<
    (),
    String,
>)
    ensures
        unit_result_view(r) == combined(unit_result_view(primary), unit_result_view(cleanup), context@),
{
    match (primary, cleanup) {
        (Ok(()), Ok(())) => Ok(()),
        (Err(error), Ok(())) => Err(error),
        (Ok(()), Err(error)) => Err(error),
        (Err(primary), Err(cleanup)) => {
            let mut s = String::new();
            let p = chars_of(primary.as_str());
            push_str(&mut s, p.as_slice());
            append_str(&mut s, "; ");
            append_str(&mut s, context);
            append_str(&mut s, " failed: ");
            let c = chars_of(cleanup.as_str());
            push_str(&mut s, c.as_slice());
            Err(s)
        },
    }
}

/// Combine a session result with a cleanup result.
pub fn combine(primary: Result<(), String>, cleanup: Result<(), String>) -> (r: Result<(), String>)
    ensures
        unit_result_view(r) == combined(unit_result_view(primary), unit_result_view(cleanup), "cleanup"@),
{
    combine_with_context(primary, cleanup, "cleanup")
}


/// The keys the preview and editor react to.
#[derive(Clone, Copy, Debug, PartialEq, Eq, Structural)]
pub enum KeyCode {
    Char(char),
    Enter,
    Esc,
    Backspace,
    Other,
}

/// Modifier keys, as the bit set the terminal reports (shift 1, control 2, alt 4,
/// super 8, hyper 16, meta 32).
#[derive(Clone, Copy, Debug, PartialEq, Eq, Structural)]
pub struct Modifiers {
    pub bits: u8,
}

/// The shift bit of `Modifiers`.
pub const SHIFT_BIT: u8 = 1;

/// The control bit of `Modifiers`.
pub const CONTROL_BIT: u8 = 2;

/// A mouse button.
#[derive(Clone, Copy, Debug, PartialEq, Eq, Structural)]
pub enum MouseButton {
    Left,
    Right,
    Middle,
}

/// What a mouse event reports.
#[derive(Clone, Copy, Debug, PartialEq, Eq, Structural)]
pub enum MouseKind {
    Down(MouseButton),
    Up(MouseButton),
    Drag(MouseButton),
    Moved,
    ScrollDown,
    ScrollUp,
    ScrollLeft,
    ScrollRight,
}

/// A terminal input event, as far as the previews read one.
#[derive(Clone, Copy, Debug, PartialEq, Eq, Structural)]
pub enum InputEvent {
    Key { code: KeyCode, modifiers: Modifiers },
    Mouse { kind: MouseKind, column: u16, row: u16, modifiers: Modifiers },
    Resize(u16, u16),
    Other,
}

/// A magnification change requested from the keyboard.
#[derive(Clone, Copy, Debug, Eq, PartialEq, Structural)]
pub enum ZoomAction {
    In,
    Out,
    Reset,
}

/// `+`/`=` zoom in, `-`/`_` out, `0` back to fit.
pub open spec fn zoom_of(event: InputEvent) -> Option<ZoomAction> {
    match event {
        InputEvent::Key { code: KeyCode::Char(c), .. } => if c == '+' || c == '=' {
            Some(ZoomAction::In)
        } else if c == '-' || c == '_' {
            Some(ZoomAction::Out)
        } else if c == '0' {
            Some(ZoomAction::Reset)
        } else {
            None
        },
        _ => None,
    }
}

/// Map a key event to a zoom action (see `zoom_of`).
pub fn zoom_action(event: &InputEvent) -> (r: Option<ZoomAction>)
    ensures
        r == zoom_of(*event),
{
    match event {
        InputEvent::Key { code: KeyCode::Char(c), .. } => {
            let c = *c;
            if c == '+' || c == '=' {
                Some(ZoomAction::In)
            } else if c == '-' || c == '_' {
                Some(ZoomAction::Out)
            } else if c == '0' {
                Some(ZoomAction::Reset)
            } else {
                None
            }
        },
        _ => None,
    }
}

/// Control-C and Control-Q (with no other modifier) quit a preview.
pub open spec fn quits(event: InputEvent) -> bool {
    match event {
        InputEvent::Key { code: KeyCode::Char(c), modifiers } => (c == 'c' || c == 'q') && modifiers.bits == 2,
        _ => false,
    }
}

pub fn is_quit_event(event: &InputEvent) -> (r: bool)
    ensures
        r == quits(*event),
{
    match event {
        InputEvent::Key { code: KeyCode::Char(c), modifiers } => (*c == 'c' || *c == 'q') && modifiers.bits == 2,
        _ => false,
    }
}

/// The pan, in cells, for a scroll event: a wheel moves the view the way
/// scrolling a document does, and Shift turns a vertical wheel horizontal.
pub open spec fn scroll_of(event: InputEvent) -> Option<(i32, i32)> {
    match event {
        InputEvent::Mouse { kind, modifiers, .. } => {
            let shift = modifiers.bits & 1 != 0;
            match kind {
                MouseKind::ScrollDown => if shift {
                    Some((-1i32, 0i32))
                } else {
                    Some((0i32, -1i32))
                },
                MouseKind::ScrollUp => if shift {
                    Some((1i32, 0i32))
                } else {
                    Some((0i32, 1i32))
                },
                MouseKind::ScrollRight => Some((-1i32, 0i32)),
                MouseKind::ScrollLeft => Some((1i32, 0i32)),
                _ => None,
            }
        },
        _ => None,
    }
}

/// The pan delta, in cells, for a scroll-wheel or trackpad event (see `scroll_of`).
pub fn scroll_delta(event: &InputEvent) -> (r: Option<(i32, i32)>)
    ensures
        r == scroll_of(*event),
{
    match event {
        InputEvent::Mouse { kind, modifiers, .. } => {
            let vertical: i32 = match kind {
                MouseKind::ScrollDown => -1,
                MouseKind::ScrollUp => 1,
                MouseKind::ScrollRight => {
                    return Some((-1, 0));
                },
                MouseKind::ScrollLeft => {
                    return Some((1, 0));
                },
                _ => {
                    return None;
                },
            };
            if modifiers.bits & 1 != 0 {
                Some((vertical, 0))
            } else {
                Some((0, vertical))
            }
        },
        _ => None,
    }
}

/// Turns a left-button mouse drag into per-move cell deltas for panning.
pub struct DragTracker {
    pub last: Option<(u16, u16)>,
}

impl DragTracker {
    pub fn new() -> (r: Self)
        ensures
            r.last is None,
    {
        DragTracker { last: None }
    }

    /// The cell delta of an in-progress left drag since its previous position,
    /// or `None` for any other event (or a drag that did not move).
    pub fn delta(&mut self, event: &InputEvent) -> (r: Option<(i32, i32)>)
        ensures
            match *event {
                InputEvent::Mouse { kind: MouseKind::Down(MouseButton::Left), column, row, .. } => r is None
                    && final(self).last == Some((column, row)),
                InputEvent::Mouse { kind: MouseKind::Drag(MouseButton::Left), column, row, .. } => match old(
                    self,
                ).last {
                    None => r is None && final(self).last is None,
                    Some((c0, r0)) => final(self).last == Some((column, row)) && r == if column == c0 && row
                        == r0 {
                        None
                    } else {
                        Some(((column - c0) as i32, (row - r0) as i32))
                    },
                },
                InputEvent::Mouse { kind: MouseKind::Up(MouseButton::Left), .. } => r is None && final(self).last is None,
                _ => r is None && final(self).last == old(self).last,
            },
    {
        match event {
            InputEvent::Mouse { kind: MouseKind::Down(MouseButton::Left), column, row, .. } => {
                self.last = Some((*column, *row));
                None
            },
            InputEvent::Mouse { kind: MouseKind::Drag(MouseButton::Left), column, row, .. } => {
                let (last_column, last_row) = match self.last {
                    Some(l) => l,
                    None => {
                        return None;
                    },
                };
                self.last = Some((*column, *row));
                let dx = *column as i32 - last_column as i32;
                let dy = *row as i32 - last_row as i32;
                if dx == 0 && dy == 0 {
                    None
                } else {
                    Some((dx, dy))
                }
            },
            InputEvent::Mouse { kind: MouseKind::Up(MouseButton::Left), .. } => {
                self.last = None;
                None
            },
            _ => None,
        }
    }
}


/// The Kitty image one preview session owns, apart from its magnification:
/// the current PNG, whether it is on screen, and how far it is panned.
pub struct ImageState {
    pub id: ImageId,
    pub png: Option<Vec<u8>>,
    pub displayed: bool,
    /// Whether the contents or placement changed since the last display.
    pub dirty: bool,
    /// How far the visible window is panned from center, in whole cells.
    pub pan: (i32, i32),
    /// Largest pan the current placement allows; refreshed on each display.
    pub pan_limit: (i32, i32),
    /// Whether the current pixels still need transmitting to Kitty.
    pub needs_upload: bool,
}

pub open spec fn clamp_i32(v: int, lo: int, hi: int) -> int {
    if v < lo {
        lo
    } else if v > hi {
        hi
    } else {
        v
    }
}

pub open spec fn png_len_ok(png: Option<Vec<u8>>) -> bool {
    png matches Some(p) ==> p@.len() <= usize::MAX / 2
}

impl ImageState {
    /// A session image with nothing shown yet.
    pub fn new(id: ImageId) -> (r: Self)
        ensures
            r.id == id,
            r.png is None,
            !r.displayed,
            r.dirty,
            r.pan == (0i32, 0i32),
            r.pan_limit == (0i32, 0i32),
            !r.needs_upload,
    {
        ImageState { id, png: None, displayed: false, dirty: true, pan: (0, 0), pan_limit: (0, 0), needs_upload: false }
    }

    /// Slide the visible window by a drag of `(dx, dy)` cells: the window moves
    /// opposite the drag and stops at the pan limit. `true` when the view moved.
    pub fn pan(&mut self, dx: i32, dy: i32) -> (moved: bool)
        requires
            old(self).pan_limit.0 >= 0,
            old(self).pan_limit.1 >= 0,
            i32::MIN <= old(self).pan.0 - dx <= i32::MAX,
            i32::MIN <= old(self).pan.1 - dy <= i32::MAX,
        ensures
            ({
                let p = (
                    clamp_i32(old(self).pan.0 - dx, -old(self).pan_limit.0, old(self).pan_limit.0 as int) as i32,
                    clamp_i32(old(self).pan.1 - dy, -old(self).pan_limit.1, old(self).pan_limit.1 as int) as i32,
                );
                &&& moved == (p != old(self).pan)
                &&& final(self).pan == p
                &&& final(self).dirty == (old(self).dirty || moved)
            }),
            final(self).id == old(self).id,
            final(self).png == old(self).png,
            final(self).displayed == old(self).displayed,
            final(self).pan_limit == old(self).pan_limit,
            final(self).needs_upload == old(self).needs_upload,
    {
        let (limit_x, limit_y) = self.pan_limit;
        let x = clamp(self.pan.0 - dx, -limit_x, limit_x);
        let y = clamp(self.pan.1 - dy, -limit_y, limit_y);
        if x == self.pan.0 && y == self.pan.1 {
            return false;
        }
        self.pan = (x, y);
        self.dirty = true;
        true
    }

    /// After a change of magnification: a fit recenters the view; either way the
    /// image must be drawn again.
    pub fn rezoomed(&mut self, at_fit: bool)
        ensures
            final(self).pan == if at_fit {
                (0i32, 0i32)
            } else {
                old(self).pan
            },
            final(self).dirty,
            final(self).id == old(self).id,
            final(self).png == old(self).png,
            final(self).displayed == old(self).displayed,
            final(self).pan_limit == old(self).pan_limit,
            final(self).needs_upload == old(self).needs_upload,
    {
        if at_fit {
            self.pan = (0, 0);
        }
        self.dirty = true;
    }

    /// Show new pixels: only a change of pixels makes the image dirty and due
    /// for transmission; identical ones can be re-placed as they are.
    pub fn show(&mut self, png: Vec<u8>)
        requires
            png@.len() <= usize::MAX / 2,
        ensures
            ({
                let changed = !(old(self).png matches Some(p) && p@ == png@);
                &&& final(self).dirty == (old(self).dirty || changed)
                &&& final(self).needs_upload == (old(self).needs_upload || changed)
            }),
            final(self).png matches Some(p) && p@ == png@,
            final(self).id == old(self).id,
            final(self).displayed == old(self).displayed,
            final(self).pan == old(self).pan,
            final(self).pan_limit == old(self).pan_limit,
    {
        let changed = match &self.png {
            Some(p) => !same_bytes(p, &png),
            None => true,
        };
        if changed {
            self.dirty = true;
            self.needs_upload = true;
        }
        self.png = Some(png);
    }

    /// Drop the pixels; the image then must be cleared from the screen.
    pub fn clear(&mut self)
        ensures
            final(self).png is None,
            final(self).dirty == (old(self).dirty || old(self).png is Some),
            final(self).needs_upload == (old(self).needs_upload || old(self).png is Some),
            final(self).id == old(self).id,
            final(self).displayed == old(self).displayed,
            final(self).pan == old(self).pan,
            final(self).pan_limit == old(self).pan_limit,
    {
        if self.png.is_some() {
            self.png = None;
            self.dirty = true;
            self.needs_upload = true;
        }
    }

    /// After the terminal dropped its graphics (such as on a resize): draw and
    /// transmit again.
    pub fn mark_dirty(&mut self)
        ensures
            final(self).dirty,
            final(self).needs_upload,
            final(self).id == old(self).id,
            final(self).png == old(self).png,
            final(self).displayed == old(self).displayed,
            final(self).pan == old(self).pan,
            final(self).pan_limit == old(self).pan_limit,
    {
        self.dirty = true;
        self.needs_upload = true;
    }
}

fn clamp(v: i32, lo: i32, hi: i32) -> (r: i32)
    requires
        lo <= hi,
    ensures
        r == clamp_i32(v as int, lo as int, hi as int),
{
    if v < lo {
        lo
    } else if v > hi {
        hi
    } else {
        v
    }
}

fn same_bytes(a: &Vec<u8>, b: &Vec<u8>) -> (r: bool)
    ensures
        r == (a@ == b@),
{
    if a.len() != b.len() {
        return false;
    }
    let mut i: usize = 0;
    while i < a.len()
        invariant
            i <= a@.len() == b@.len(),
            forall|k: int| 0 <= k < i ==> a@[k] == b@[k],
        decreases a@.len() - i,
    {
        if a[i] != b[i] {
            return false;
        }
        i += 1;
    }
    assert(a@ =~= b@);
    true
}


/// What displaying the image in `pane` writes and leaves, for some answer of
/// the terminal to the size query (`window`).
pub open spec fn displayed_as(
    old_state: ImageState,
    new_state: ImageState,
    pane: Rect,
    old_out: Seq<u8>,
    out: Seq<u8>,
    window: Option<WindowSize>,
) -> bool {
    let id = old_state.id.value();
    &&& new_state.id == old_state.id
    &&& new_state.png == old_state.png
    &&& new_state.pan == old_state.pan
    &&& if pane.width == 0 || pane.height == 0 {
        if old_state.displayed {
            &&& out == old_out + ascii(delete_text(id))
            &&& !new_state.displayed
            &&& new_state.needs_upload
            &&& new_state.pan_limit == old_state.pan_limit
        } else {
            &&& out == old_out
            &&& new_state.displayed == old_state.displayed
            &&& new_state.needs_upload == old_state.needs_upload
            &&& new_state.pan_limit == old_state.pan_limit
        }
    } else {
        match old_state.png {
            Some(p) => {
                let pl = png_placement(pane, p@, old_state.pan, window);
                &&& out == old_out + if old_state.needs_upload {
                    display_bytes(id, p@, pl.cell, pl.crop)
                } else {
                    place_bytes(id, pl.cell, pl.crop)
                }
                &&& new_state.pan_limit == pl.pan_limit
                &&& new_state.displayed
                &&& !new_state.needs_upload
            },
            None => {
                &&& out == if old_state.displayed {
                    old_out + ascii(delete_text(id))
                } else {
                    old_out
                }
                &&& !new_state.displayed
                &&& new_state.needs_upload == old_state.needs_upload
                &&& new_state.pan_limit == old_state.pan_limit
            },
        }
    }
}

impl ImageState {
    fn display_inner(&mut self, pane: Rect, out: &mut Vec<u8>)
        requires
            pane.x + pane.width <= u16::MAX,
            pane.y + pane.height <= u16::MAX,
            png_len_ok(old(self).png),
        ensures
            exists|w: Option<WindowSize>| displayed_as(*old(self), *final(self), pane, old(out)@, final(out)@, w),
            final(self).dirty == old(self).dirty,
    {
        if pane.width == 0 || pane.height == 0 {
            if self.displayed {
                delete_image(self.id, out);
                self.displayed = false;
                self.needs_upload = true;
            }
            assert(displayed_as(*old(self), *self, pane, old(out)@, out@, None));
            return;
        }
        let id = self.id;
        let pan = self.pan;
        let needs_upload = self.needs_upload;
        match &self.png {
            Some(png) => {
                let placement = place_png(pane, png.as_slice(), pan);
                let ghost w = choose|w: Option<WindowSize>| placement == png_placement(pane, png@, pan, w);
                proof {
                    lemma_placement_inside(pane, png@, pan, w);
                }
                if needs_upload {
                    display_png(id, png.as_slice(), placement.cell, placement.crop, out);
                } else {
                    place_image(id, placement.cell, placement.crop, out);
                }
                self.needs_upload = false;
                self.pan_limit = placement.pan_limit;
                self.displayed = true;
                assert(displayed_as(*old(self), *self, pane, old(out)@, out@, w));
            },
            None => {
                if self.displayed {
                    delete_image(id, out);
                    self.displayed = false;
                }
                assert(displayed_as(*old(self), *self, pane, old(out)@, out@, None));
            },
        }
    }

    /// Display the current image even when nothing changed, and mark it clean.
    pub fn display(&mut self, pane: Rect, out: &mut Vec<u8>)
        requires
            pane.x + pane.width <= u16::MAX,
            pane.y + pane.height <= u16::MAX,
            png_len_ok(old(self).png),
        ensures
            exists|w: Option<WindowSize>| displayed_as(*old(self), *final(self), pane, old(out)@, final(out)@, w),
            !final(self).dirty,
    {
        self.display_inner(pane, out);
        let ghost mid = *self;
        let ghost w = choose|w: Option<WindowSize>| displayed_as(*old(self), mid, pane, old(out)@, out@, w);
        self.dirty = false;
        assert(displayed_as(*old(self), *self, pane, old(out)@, out@, w));
    }

    /// Display or clear the image only after its contents or placement changed.
    pub fn display_if_dirty(&mut self, pane: Rect, out: &mut Vec<u8>)
        requires
            pane.x + pane.width <= u16::MAX,
            pane.y + pane.height <= u16::MAX,
            png_len_ok(old(self).png),
        ensures
            if old(self).dirty {
                (exists|w: Option<WindowSize>| displayed_as(*old(self), *final(self), pane, old(out)@, final(out)@, w))
                    && !final(self).dirty
            } else {
                *final(self) == *old(self) && final(out)@ == old(out)@
            },
    {
        if self.dirty {
            self.display(pane, out);
        }
    }

    /// Take a displayed image off the screen (while a prompt covers the pane):
    /// its delete command goes to `out`, and its next display uploads it again.
    pub fn take_down(&mut self, out: &mut Vec<u8>)
        ensures
            old(self).displayed ==> final(out)@ == old(out)@ + ascii(delete_text(old(self).id.value()))
                && *final(self) == (ImageState { displayed: false, needs_upload: true, ..*old(self) }),
            !old(self).displayed ==> final(out)@ == old(out)@ && *final(self) == *old(self),
    {
        if self.displayed {
            delete_image(self.id, out);
            self.displayed = false;
            self.needs_upload = true;
        }
    }

    /// Remove this session's image: append its delete command to `out`.
    pub fn cleanup(&self, out: &mut Vec<u8>)
        ensures
            final(out)@ == old(out)@ + ascii(delete_text(self.id.value())),
    {
        delete_image(self.id, out);
    }
}

/// The pixel size of a pane of `pane_width` by `pane_height` cells, from a
/// terminal's size in cells and pixels; eight by sixteen pixels a cell when that
/// size is unknown or zero. Never zero in either dimension.
pub open spec fn pane_pixel_size(pane_width: u16, pane_height: u16, window: Option<WindowSize>) -> (u32, u32) {
    let fallback = (max1(pane_width * 8), max1(pane_height * 16));
    match window {
        Some(t) => if t.columns == 0 || t.rows == 0 || t.width == 0 || t.height == 0 {
            fallback
        } else {
            (max1(t.width * pane_width / (t.columns as int)), max1(t.height * pane_height / (t.rows as int)))
        },
        None => fallback,
    }
}

pub open spec fn max1(x: int) -> u32 {
    if x < 1 {
        1
    } else {
        x as u32
    }
}

/// The pixel size of `pane` for a terminal of the given size.
pub fn pane_pixels_in(pane: Rect, window: Option<WindowSize>) -> (r: (u32, u32))
    ensures
        r == pane_pixel_size(pane.width, pane.height, window),
        r.0 >= 1 && r.1 >= 1,
{
    let fallback = ((pane.width as u32 * 8).max(1), (pane.height as u32 * 16).max(1));
    match window {
        Some(t) => {
            if t.columns == 0 || t.rows == 0 || t.width == 0 || t.height == 0 {
                fallback
            } else {
                assert(t.width * pane.width <= 65535 * 65535) by (nonlinear_arith)
                    requires
                        t.width <= 65535,
                        pane.width <= 65535,
                ;
                assert(t.height * pane.height <= 65535 * 65535) by (nonlinear_arith)
                    requires
                        t.height <= 65535,
                        pane.height <= 65535,
                ;
                let w = t.width as u32 * pane.width as u32 / t.columns as u32;
                let h = t.height as u32 * pane.height as u32 / t.rows as u32;
                (w.max(1), h.max(1))
            }
        },
        None => fallback,
    }
}

/// The pixel size of `pane` in the terminal this process runs in.
pub fn pane_pixels(pane: Rect) -> (r: (u32, u32))
    ensures
        exists|window: Option<WindowSize>| r == pane_pixel_size(pane.width, pane.height, window),
        r.0 >= 1 && r.1 >= 1,
{
    let window = crate::kitty::terminal_window_size();
    pane_pixels_in(pane, window)
}

pub open spec fn saturating_add_u16(a: u16, b: u16) -> u16 {
    if a + b > u16::MAX {
        u16::MAX
    } else {
        (a + b) as u16
    }
}

pub open spec fn saturating_sub_u16(a: u16, b: u16) -> u16 {
    if a < b {
        0
    } else {
        (a - b) as u16
    }
}

pub open spec fn min_u16(a: u16, b: u16) -> u16 {
    if a <= b {
        a
    } else {
        b
    }
}

/// The area inside a one-cell border around `area`, as ratatui computes it.
pub open spec fn bordered_inner(area: Rect) -> Rect {
    Rect {
        x: min_u16(saturating_add_u16(area.x, 1), saturating_add_u16(area.x, area.width)),
        y: min_u16(saturating_add_u16(area.y, 1), saturating_add_u16(area.y, area.height)),
        width: saturating_sub_u16(saturating_sub_u16(area.width, 1), 1),
        height: saturating_sub_u16(saturating_sub_u16(area.height, 1), 1),
    }
}

/// Calls `ratatui::widgets::Block::inner` on a block with all four borders and
/// no title or padding. Its source moves the left and top edges in by one cell
/// (not past the right or bottom edge) and takes one cell off each side of the
/// width and height, saturating at zero; the contract states exactly that.
#[verifier::external_body]
fn block_inner(area: Rect) -> (r: Rect)
    ensures
        r == bordered_inner(area),
{
    let outer = ratatui::layout::Rect { x: area.x, y: area.y, width: area.width, height: area.height };
    let inner = ratatui::widgets::Block::bordered().inner(outer);
    Rect { x: inner.x, y: inner.y, width: inner.width, height: inner.height }
}

/// The preview image area inside a bordered pane.
pub fn preview_pane(area: Rect) -> (r: Rect)
    ensures
        r == bordered_inner(area),
{
    block_inner(area)
}

/// The inline viewport of `gph watch`: from the row where the cursor started
/// (kept on screen) down to the bottom of the terminal, full width.
pub open spec fn watch_viewport_of(viewport_top: u16, width: u16, terminal_height: u16) -> Rect {
    let top = min_u16(viewport_top, saturating_sub_u16(terminal_height, 1));
    Rect { x: 0, y: top, width, height: saturating_sub_u16(terminal_height, top) }
}

pub fn watch_viewport(viewport_top: u16, width: u16, terminal_height: u16) -> (r: Rect)
    ensures
        r == watch_viewport_of(viewport_top, width, terminal_height),
{
    let top = viewport_top.min(terminal_height.saturating_sub(1));
    Rect { x: 0, y: top, width, height: terminal_height.saturating_sub(top) }
}

} // verus!
