use gph::kitty::{
    delete_image, display_png, is_available_with, place, place_image, place_png_in, png_dimensions,
    Crop, ImageId, Placement, Rect, WindowSize,
};

fn first_preview_image() -> ImageId {
    ImageId::from_hash(101)
}

fn second_preview_image() -> ImageId {
    ImageId::from_hash(202)
}

#[test]
fn accepts_kitty_term_without_window_id() {
    assert!(is_available_with(None, Some("xterm-kitty"), None));
}

#[test]
fn accepts_kitty_term_program_when_multiplexer_rewrites_term() {
    assert!(is_available_with(None, Some("xterm-256color"), Some("kitty")));
}

#[test]
fn rejects_non_kitty_term_without_window_id() {
    assert!(!is_available_with(None, Some("xterm-256color"), None));
}

#[test]
fn a_window_id_must_be_non_empty() {
    assert!(is_available_with(Some("7"), None, None));
    assert!(!is_available_with(Some(""), None, None));
}

#[test]
fn generates_nonzero_preview_image_ids() {
    assert_ne!(ImageId::from_hash(0).value(), 0);
    assert_ne!(ImageId::from_hash(1 << 32).value(), 0);
    assert_eq!(ImageId::from_hash((7 << 32) | 9).value(), 9);
}

#[test]
fn centers_natural_size_pngs_in_the_available_pane() {
    assert_eq!(
        place(Rect::new(10, 5, 80, 20), 160, 80, 8, 16, (0, 0)),
        Placement {
            cell: Rect::new(40, 12, 20, 5),
            crop: None,
            pan_limit: (0, 0),
        },
    );
}

#[test]
fn oversized_pngs_fill_the_pane_and_crop_their_overflow_to_its_center() {
    assert_eq!(
        place(Rect::new(10, 5, 80, 20), 2_000, 800, 8, 16, (0, 0)),
        Placement {
            cell: Rect::new(10, 5, 80, 20),
            // 80 cols * 8px = 640, 20 rows * 16px = 320, centered in a 2000x800 image.
            crop: Some(Crop {
                x: 680,
                y: 240,
                width: 640,
                height: 320,
            }),
            // Half of the 1360x480 slack, in 8x16 cells: 680/8, 240/16.
            pan_limit: (85, 15),
        },
    );
}

#[test]
fn panning_slides_the_crop_window_and_clamps_it_to_the_image_edges() {
    let at = |pan| {
        place(Rect::new(10, 5, 80, 20), 2_000, 800, 8, 16, pan)
            .crop
            .unwrap()
    };
    // Ten cells right and three down move the window by 80px and 48px from center.
    assert_eq!((at((10, 3)).x, at((10, 3)).y), (760, 288));
    assert_eq!((at((-10, -3)).x, at((-10, -3)).y), (600, 192));
    // Panning past the limit stops at the image edge rather than spilling over.
    assert_eq!((at((999, 999)).x, at((999, 999)).y), (1_360, 480));
    assert_eq!((at((-999, -999)).x, at((-999, -999)).y), (0, 0));
}

#[test]
fn zero_cell_sizes_leave_the_pane_uncropped() {
    let pane = Rect::new(1, 2, 3, 4);
    assert_eq!(
        place(pane, 100, 100, 0, 16, (5, 5)),
        Placement { cell: pane, crop: None, pan_limit: (0, 0) }
    );
}

fn png_header(width: u32, height: u32) -> Vec<u8> {
    let mut png = vec![137, 80, 78, 71, 13, 10, 26, 10, 0, 0, 0, 13, b'I', b'H', b'D', b'R'];
    png.extend_from_slice(&width.to_be_bytes());
    png.extend_from_slice(&height.to_be_bytes());
    png
}

#[test]
fn png_dimensions_read_the_header() {
    assert_eq!(png_dimensions(&png_header(640, 480)), Some((640, 480)));
    assert_eq!(png_dimensions(&png_header(0, 480)), None);
    assert_eq!(png_dimensions(b"png"), None);
    let mut wrong = png_header(1, 1);
    wrong[0] = 0;
    assert_eq!(png_dimensions(&wrong), None);
}

#[test]
fn place_png_in_uses_the_terminal_cell_size() {
    let pane = Rect::new(10, 5, 80, 20);
    let window = WindowSize { columns: 100, rows: 50, width: 800, height: 800 };
    assert_eq!(
        place_png_in(pane, &png_header(160, 80), (0, 0), Some(window)),
        place(pane, 160, 80, 8, 16, (0, 0))
    );
    assert_eq!(
        place_png_in(pane, &png_header(160, 80), (0, 0), None),
        Placement { cell: pane, crop: None, pan_limit: (0, 0) }
    );
    let unset = WindowSize { columns: 100, rows: 50, width: 0, height: 0 };
    assert_eq!(
        place_png_in(pane, &png_header(160, 80), (0, 0), Some(unset)),
        Placement { cell: pane, crop: None, pan_limit: (0, 0) }
    );
}

#[test]
fn displays_a_png_at_its_natural_aspect_ratio_in_the_requested_pane() {
    let mut bytes = Vec::new();
    display_png(
        first_preview_image(),
        b"png",
        Rect::new(42, 3, 50, 18),
        None,
        &mut bytes,
    );
    let text = String::from_utf8(bytes).unwrap();
    assert!(text.contains("a=d,d=I,i=101"));
    assert!(text.contains("a=t,f=100,t=d,i=101,m=0"));
    assert!(text.contains("\x1b[4;43H"));
    assert!(text.contains("a=p,i=101,p=1,C=1,q=2"));
    assert!(!text.contains(",c="));
    assert!(!text.contains(",r="));
    assert!(!text.contains(",w="));
    assert!(!text.contains(",h="));
    assert_all_commands_suppress_responses(&text);
}

#[test]
fn cropped_placements_emit_the_source_window() {
    let mut bytes = Vec::new();
    display_png(
        first_preview_image(),
        b"png",
        Rect::new(10, 5, 80, 20),
        Some(Crop {
            x: 680,
            y: 240,
            width: 640,
            height: 320,
        }),
        &mut bytes,
    );
    let text = String::from_utf8(bytes).unwrap();
    assert!(text.contains("a=p,i=101,p=1,C=1,q=2,x=680,y=240,w=640,h=320"));
    assert_all_commands_suppress_responses(&text);
}

#[test]
fn place_image_re_places_without_transmitting_or_deleting() {
    let mut bytes = Vec::new();
    place_image(
        first_preview_image(),
        Rect::new(4, 2, 10, 5),
        Some(Crop {
            x: 5,
            y: 6,
            width: 80,
            height: 48,
        }),
        &mut bytes,
    );
    let text = String::from_utf8(bytes).unwrap();
    assert!(text.contains("a=p,i=101,p=1,C=1,q=2,x=5,y=6,w=80,h=48"));
    // Panning must not re-upload or drop the image; that is what caused the flicker.
    assert!(!text.contains("a=t"));
    assert!(!text.contains("a=d"));
    assert!(text.contains("\x1b[3;5H"));
    assert_all_commands_suppress_responses(&text);
}

#[test]
fn preview_protocol_commands_are_isolated_by_image_id() {
    let mut first = Vec::new();
    display_png(
        first_preview_image(),
        b"png",
        Rect::new(0, 0, 1, 1),
        None,
        &mut first,
    );
    delete_image(first_preview_image(), &mut first);

    let mut second = Vec::new();
    display_png(
        second_preview_image(),
        b"png",
        Rect::new(1, 1, 2, 3),
        None,
        &mut second,
    );
    delete_image(second_preview_image(), &mut second);

    let first = String::from_utf8(first).unwrap();
    let second = String::from_utf8(second).unwrap();
    assert_protocol_uses_only(&first, first_preview_image(), second_preview_image());
    assert_protocol_uses_only(&second, second_preview_image(), first_preview_image());
}

#[test]
fn splits_large_payloads_without_global_deletion() {
    let mut bytes = Vec::new();
    display_png(
        first_preview_image(),
        &vec![0; 4_000],
        Rect::new(0, 0, 1, 1),
        None,
        &mut bytes,
    );
    let text = String::from_utf8(bytes).unwrap();
    assert!(text.contains("m=1,q=2;"));
    assert!(text.contains("\x1b_Gm=0,q=2;"));
    assert!(!text.contains("d=A"));
    assert_all_commands_suppress_responses(&text);
}

#[test]
fn exact_commands() {
    let mut bytes = Vec::new();
    delete_image(first_preview_image(), &mut bytes);
    assert_eq!(bytes, b"\x1b_Ga=d,d=I,i=101,q=2;\x1b\\");
    let mut bytes = Vec::new();
    place_image(first_preview_image(), Rect::new(0, 9, 2, 2), None, &mut bytes);
    assert_eq!(bytes, b"\x1b[s\x1b[10;1H\x1b_Ga=p,i=101,p=1,C=1,q=2;\x1b\\\x1b[u");
    let mut bytes = Vec::new();
    place_image(first_preview_image(), Rect::new(0, 9, 0, 2), None, &mut bytes);
    assert!(bytes.is_empty());
    let mut bytes = Vec::new();
    display_png(first_preview_image(), b"png", Rect::new(0, 0, 2, 0), None, &mut bytes);
    assert!(bytes.is_empty());
    let mut bytes = Vec::new();
    display_png(first_preview_image(), b"hi", Rect::new(0, 0, 1, 1), None, &mut bytes);
    assert_eq!(
        String::from_utf8(bytes).unwrap(),
        "\x1b_Ga=d,d=I,i=101,q=2;\x1b\\\x1b_Ga=t,f=100,t=d,i=101,m=0,q=2;aGk=\x1b\\\x1b[s\x1b[1;1H\x1b_Ga=p,i=101,p=1,C=1,q=2;\x1b\\\x1b[u"
    );
}

fn assert_protocol_uses_only(output: &str, image_id: ImageId, other_image_id: ImageId) {
    assert!(output.contains(&format!("a=d,d=I,i={}", image_id.value())));
    assert!(output.contains(&format!("a=t,f=100,t=d,i={}", image_id.value())));
    assert!(output.contains(&format!("a=p,i={}", image_id.value())));
    assert!(!output.contains(&format!("i={}", other_image_id.value())));
    assert!(!output.contains("d=A"));
    assert_all_commands_suppress_responses(output);
}

fn assert_all_commands_suppress_responses(output: &str) {
    for command in output.split("\x1b_G").skip(1) {
        let command = command.split("\x1b\\").next().unwrap();
        assert!(command.contains("q=2"), "missing q=2 in {command:?}");
    }
}

#[test]
fn uploads_carry_standard_padded_base64() {
    let mut bytes = Vec::new();
    display_png(first_preview_image(), b"hi", Rect::new(0, 0, 2, 2), None, &mut bytes);
    let text = String::from_utf8(bytes).unwrap();
    assert!(text.contains("q=2;aGk=\x1b\\"));
    let mut bytes = Vec::new();
    display_png(first_preview_image(), b"png", Rect::new(0, 0, 2, 2), None, &mut bytes);
    let text = String::from_utf8(bytes).unwrap();
    assert!(text.contains("q=2;cG5n\x1b\\"));
}
