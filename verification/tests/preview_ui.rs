use gph::preview_ui::{combine, combine_with_context};
use gph::kitty::WindowSize;
use gph::preview_ui::{pane_pixels_in, preview_pane, watch_viewport};

#[test]
fn preview_ui_combines_primary_and_cleanup_errors() {
    assert_eq!(
        combine(Err("primary".to_string()), Err("cleanup".to_string())),
        Err("primary; cleanup failed: cleanup".to_string())
    );
}

#[test]
fn combine_with_context_names_the_cleanup() {
    assert_eq!(
        combine_with_context(Ok(()), Err("socket busy".to_string()), "shutdown"),
        Err("socket busy".to_string())
    );
    assert_eq!(
        combine_with_context(Err("lost".to_string()), Err("socket busy".to_string()), "shutdown"),
        Err("lost; shutdown failed: socket busy".to_string())
    );
    assert_eq!(combine_with_context(Err("lost".to_string()), Ok(()), "shutdown"), Err("lost".to_string()));
}

use gph::kitty::{ImageId, Rect};
use gph::preview_ui::{
    is_quit_event, scroll_delta, zoom_action, DragTracker, ImageState, InputEvent, KeyCode, Modifiers,
    MouseButton, MouseKind, ZoomAction,
};

const NONE: Modifiers = Modifiers { bits: 0 };
const SHIFT: Modifiers = Modifiers { bits: 1 };
const CONTROL: Modifiers = Modifiers { bits: 2 };

fn key(code: KeyCode, modifiers: Modifiers) -> InputEvent {
    InputEvent::Key { code, modifiers }
}

#[test]
fn quit_events_require_control_c_or_q() {
    let quit = key(KeyCode::Char('q'), CONTROL);
    let plain = key(KeyCode::Char('q'), NONE);
    let other = key(KeyCode::Char('x'), CONTROL);

    assert!(is_quit_event(&quit));
    assert!(!is_quit_event(&plain));
    assert!(!is_quit_event(&other));
    assert!(is_quit_event(&key(KeyCode::Char('c'), CONTROL)));
    assert!(!is_quit_event(&key(KeyCode::Char('c'), Modifiers { bits: 3 })));
}

#[test]
fn zoom_keys_map_to_their_actions() {
    let key = |code| InputEvent::Key { code, modifiers: NONE };
    assert_eq!(zoom_action(&key(KeyCode::Char('+'))), Some(ZoomAction::In));
    assert_eq!(zoom_action(&key(KeyCode::Char('='))), Some(ZoomAction::In));
    assert_eq!(zoom_action(&key(KeyCode::Char('-'))), Some(ZoomAction::Out));
    assert_eq!(zoom_action(&key(KeyCode::Char('_'))), Some(ZoomAction::Out));
    assert_eq!(zoom_action(&key(KeyCode::Char('0'))), Some(ZoomAction::Reset));
    assert_eq!(zoom_action(&key(KeyCode::Char('x'))), None);
}

#[test]
fn a_left_drag_reports_cell_deltas_between_moves() {
    let mouse = |kind, column, row| InputEvent::Mouse { kind, column, row, modifiers: NONE };
    let mut drag = DragTracker::new();

    assert_eq!(drag.delta(&mouse(MouseKind::Down(MouseButton::Left), 10, 5)), None);
    assert_eq!(drag.delta(&mouse(MouseKind::Drag(MouseButton::Left), 13, 4)), Some((3, -1)));
    // Deltas are measured from the previous move, not the button-down point.
    assert_eq!(drag.delta(&mouse(MouseKind::Drag(MouseButton::Left), 13, 4)), None);
    assert_eq!(drag.delta(&mouse(MouseKind::Drag(MouseButton::Left), 11, 4)), Some((-2, 0)));
    // Releasing ends the drag, so a later move without a press reports nothing.
    assert_eq!(drag.delta(&mouse(MouseKind::Up(MouseButton::Left), 11, 4)), None);
    assert_eq!(drag.delta(&mouse(MouseKind::Drag(MouseButton::Left), 20, 20)), None);
}

#[test]
fn scrolling_pans_along_the_wheel_axis_and_shift_flips_it_horizontal() {
    let scroll = |kind, modifiers| InputEvent::Mouse { kind, column: 0, row: 0, modifiers };

    // A wheel-down scrolls the view down the diagram, opposite a downward drag.
    assert_eq!(scroll_delta(&scroll(MouseKind::ScrollDown, NONE)), Some((0, -1)));
    assert_eq!(scroll_delta(&scroll(MouseKind::ScrollUp, NONE)), Some((0, 1)));
    // A tilt wheel (or trackpad) pans horizontally on its own.
    assert_eq!(scroll_delta(&scroll(MouseKind::ScrollRight, NONE)), Some((-1, 0)));
    // Shift redirects a vertical wheel into horizontal panning.
    assert_eq!(scroll_delta(&scroll(MouseKind::ScrollDown, SHIFT)), Some((-1, 0)));
    // Non-scroll mouse events and key events yield no pan.
    assert_eq!(scroll_delta(&scroll(MouseKind::Moved, NONE)), None);
    assert_eq!(scroll_delta(&InputEvent::Other), None);
}

fn image() -> ImageState {
    ImageState::new(ImageId::from_hash(77))
}

#[test]
fn panning_moves_the_view_opposite_the_drag_and_clamps_to_the_limit() {
    let mut image = image();
    // No placement has run, so there is no room to pan yet.
    assert!(!image.pan(3, 3));

    image.rezoomed(false);
    image.pan_limit = (5, 5);
    // Dragging right and down moves the window left and up (the diagram follows the cursor).
    assert!(image.pan(2, 1));
    assert_eq!(image.pan, (-2, -1));
    // Panning stops at the limit rather than accumulating past it.
    assert!(image.pan(-99, -99));
    assert_eq!(image.pan, (5, 5));
    assert!(!image.pan(-99, -99));

    // Returning to a fit recenters the view for the next zoom-in.
    image.rezoomed(true);
    assert_eq!(image.pan, (0, 0));
}

#[test]
fn re_displaying_an_unchanged_image_replaces_it_without_re_uploading() {
    let mut image = image();
    let pane = Rect::new(2, 3, 20, 10);

    let mut first = Vec::new();
    image.show(b"png".to_vec());
    image.display(pane, &mut first);
    assert!(String::from_utf8(first).unwrap().contains("a=t,f=100,t=d,i="));

    // A second display of the same pixels (as panning does) only re-places them.
    let mut second = Vec::new();
    image.display(pane, &mut second);
    let text = String::from_utf8(second).unwrap();
    assert!(text.contains("a=p,i="));
    assert!(!text.contains("a=t"));
    assert!(!text.contains("a=d,d=I"));
}

#[test]
fn image_lifecycle_skips_unchanged_uploads_and_clears_displayed_images() {
    let mut image = image();
    let pane = Rect::new(2, 3, 20, 10);
    let mut output = Vec::new();

    image.show(b"png".to_vec());
    image.display_if_dirty(pane, &mut output);
    let uploaded = output.len();
    image.display_if_dirty(pane, &mut output);
    assert_eq!(output.len(), uploaded);

    image.clear();
    image.display_if_dirty(pane, &mut output);
    let output = String::from_utf8(output).unwrap();
    assert!(output.contains("a=t,f=100,t=d,i="));
    assert!(output.matches("a=d,d=I,i=").count() >= 2);
}

#[test]
fn showing_the_same_pixels_keeps_the_upload() {
    let mut image = image();
    image.show(b"png".to_vec());
    let mut out = Vec::new();
    image.display(Rect::new(0, 0, 4, 4), &mut out);
    assert!(!image.needs_upload && !image.dirty && image.displayed);
    image.show(b"png".to_vec());
    assert!(!image.needs_upload && !image.dirty);
    image.show(b"other".to_vec());
    assert!(image.needs_upload && image.dirty);
    // An empty pane removes a displayed image, which must then be sent again.
    let mut out = Vec::new();
    image.display(Rect::new(0, 0, 0, 4), &mut out);
    assert_eq!(out, b"\x1b_Ga=d,d=I,i=77,q=2;\x1b\\");
    assert!(!image.displayed && image.needs_upload);
    let mut out = Vec::new();
    image.cleanup(&mut out);
    assert_eq!(out, b"\x1b_Ga=d,d=I,i=77,q=2;\x1b\\");
}

#[test]
fn pane_pixels_never_returns_zero() {
    let pixels = gph::preview_ui::pane_pixels(gph::kitty::Rect::new(0, 0, 0, 0));
    assert!(pixels.0 >= 1);
    assert!(pixels.1 >= 1);
}

#[test]
fn pane_pixels_scale_cells_by_the_terminal_cell_size() {
    let window = WindowSize { columns: 100, rows: 50, width: 1000, height: 1000 };
    assert_eq!(pane_pixels_in(Rect::new(0, 0, 10, 5), Some(window)), (100, 100));
    assert_eq!(pane_pixels_in(Rect::new(0, 0, 10, 5), None), (80, 80));
    let unknown = WindowSize { columns: 100, rows: 50, width: 0, height: 0 };
    assert_eq!(pane_pixels_in(Rect::new(0, 0, 10, 5), Some(unknown)), (80, 80));
    assert_eq!(pane_pixels_in(Rect::new(0, 0, 0, 0), Some(window)), (1, 1));
}

#[test]
fn preview_pane_reserves_its_border() {
    assert_eq!(preview_pane(Rect::new(0, 0, 80, 24)), Rect::new(1, 1, 78, 22));
}

#[test]
fn preview_pane_of_a_tiny_area_is_empty() {
    assert_eq!(preview_pane(Rect::new(3, 4, 1, 0)), Rect::new(4, 4, 0, 0));
}

#[test]
fn viewport_grows_downward_from_its_initial_cursor_row() {
    assert_eq!(watch_viewport(6, 80, 24), Rect::new(0, 6, 80, 18));
    assert_eq!(watch_viewport(6, 120, 40), Rect::new(0, 6, 120, 34));
}

#[test]
fn viewport_keeps_its_top_row_on_screen() {
    assert_eq!(watch_viewport(30, 80, 24), Rect::new(0, 23, 80, 1));
    assert_eq!(watch_viewport(5, 80, 0), Rect::new(0, 0, 80, 0));
}
